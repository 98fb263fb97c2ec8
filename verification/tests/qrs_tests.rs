use qwt::qvector::QVector;
use qwt::rs_support_plain::{RSSupportPlain, SuperblockPlain};

fn build_qv(symbols: &[u8]) -> QVector {
    let mut qv = QVector::new();
    for &c in symbols {
        qv.push(c);
    }
    qv
}

fn naive_count(symbols: &[u8], s: u8, end: usize) -> usize {
    symbols[..end].iter().filter(|&&c| c == s).count()
}

#[test]
fn one_superblock_rank_and_occs() {
    // One superblock; block 0 is implicit zero, so every block-level rank in
    // the first block is 0.
    let symbols = [0u8, 1, 2, 3, 0, 1, 2, 3];
    let qv = build_qv(&symbols);
    let rs: RSSupportPlain<256> = RSSupportPlain::new(&qv);
    assert_eq!(rs.len(), 8);
    for s in 0..4u8 {
        assert_eq!(rs.n_occs(s), 2);
    }
    for i in 0..256 {
        assert_eq!(rs.rank_block::<0>(i), 0);
        assert_eq!(rs.rank_block::<1>(i), 0);
        assert_eq!(rs.rank_block::<2>(i), 0);
        assert_eq!(rs.rank_block::<3>(i), 0);
    }
    assert_eq!(RSSupportPlain::<256>::superblock_index(2047), 0);
    assert_eq!(RSSupportPlain::<256>::superblock_index(2048), 1);
    assert_eq!(RSSupportPlain::<256>::block_index(255), 0);
    assert_eq!(RSSupportPlain::<256>::block_index(256), 1);
    assert_eq!(rs.select_block(0, 1), (0, 0));
    assert_eq!(rs.select_block(0, 2), (0, 0));
    assert_eq!(rs.select_block(3, 2), (0, 0));
}

#[test]
fn every_13th_symbol() {
    // Length 2560, symbol 3 at every 13th position; the rest cycle over
    // {0, 1, 2}.
    let mut symbols = Vec::new();
    for i in 0..2560usize {
        if i % 13 == 0 {
            symbols.push(3u8);
        } else {
            symbols.push((i % 3) as u8);
        }
    }
    let qv = build_qv(&symbols);
    let rs: RSSupportPlain<256> = RSSupportPlain::new(&qv);
    let occs3 = rs.n_occs(3);
    assert_eq!(occs3, (2560 + 12) / 13);
    for i in 1..=occs3 {
        let (pos, rank) = rs.select_block(3, i);
        assert_eq!(pos % 256, 0);
        assert_eq!(rank, naive_count(&symbols, 3, pos));
        assert_eq!(rs.rank_block::<3>(pos), rank);
        // The i-th occurrence lies inside the returned block.
        assert!(rank < i);
        let block_end = core::cmp::min(pos + 256, symbols.len());
        assert!(i <= naive_count(&symbols, 3, block_end));
    }
}

#[test]
fn rank_block_matches_naive() {
    let mut symbols = Vec::new();
    let mut x: u64 = 12345;
    for _ in 0..6000usize {
        x = x.wrapping_mul(6364136223846793005).wrapping_add(1442695040888963407);
        symbols.push(((x >> 33) % 4) as u8);
    }
    let qv = build_qv(&symbols);
    let rs: RSSupportPlain<256> = RSSupportPlain::new(&qv);
    for i in (0..=6000).step_by(64) {
        let start = i / 256 * 256;
        assert_eq!(rs.rank_block::<0>(i), naive_count(&symbols, 0, start));
        assert_eq!(rs.rank_block::<1>(i), naive_count(&symbols, 1, start));
        assert_eq!(rs.rank_block::<2>(i), naive_count(&symbols, 2, start));
        assert_eq!(rs.rank_block::<3>(i), naive_count(&symbols, 3, start));
    }
    // The four ranks at a block boundary add up to the boundary.
    for k in 0..=(6000 / 256) {
        let i = k * 256;
        let total = rs.rank_block::<0>(i) + rs.rank_block::<1>(i) + rs.rank_block::<2>(i)
            + rs.rank_block::<3>(i);
        assert_eq!(total, i);
    }
}

#[test]
fn select_block_matches_naive() {
    let mut symbols = Vec::new();
    let mut x: u64 = 777;
    for _ in 0..40000usize {
        x = x.wrapping_mul(6364136223846793005).wrapping_add(1442695040888963407);
        symbols.push(((x >> 33) % 4) as u8);
    }
    let qv = build_qv(&symbols);
    let rs: RSSupportPlain<512> = RSSupportPlain::new(&qv);
    for s in 0..4u8 {
        let occs = rs.n_occs(s);
        assert_eq!(occs, naive_count(&symbols, s, symbols.len()));
        for i in (1..=occs).step_by(53) {
            let (pos, rank) = rs.select_block(s, i);
            assert_eq!(pos % 512, 0);
            assert_eq!(rank, naive_count(&symbols, s, pos));
            assert!(rank < i);
            let block_end = core::cmp::min(pos + 512, symbols.len());
            assert!(i <= naive_count(&symbols, s, block_end));
        }
    }
}

#[test]
fn qrs_construction_deterministic() {
    let mut symbols = Vec::new();
    for i in 0..5000usize {
        symbols.push(((i * 7 + i / 11) % 4) as u8);
    }
    let qv = build_qv(&symbols);
    let a: RSSupportPlain<256> = RSSupportPlain::new(&qv);
    let b: RSSupportPlain<256> = RSSupportPlain::new(&qv);
    assert_eq!(a.len(), b.len());
    for s in 0..4u8 {
        assert_eq!(a.n_occs(s), b.n_occs(s));
        let occs = a.n_occs(s);
        for i in 1..=occs.min(300) {
            assert_eq!(a.select_block(s, i), b.select_block(s, i));
        }
    }
    for i in (0..=5000).step_by(137) {
        assert_eq!(a.rank_block::<2>(i), b.rank_block::<2>(i));
    }
}

#[test]
fn empty_sequence() {
    let qv = QVector::new();
    let rs: RSSupportPlain<256> = RSSupportPlain::new(&qv);
    assert_eq!(rs.len(), 0);
    for s in 0..4u8 {
        assert_eq!(rs.n_occs(s), 0);
    }
    assert_eq!(rs.rank_block::<1>(0), 0);
    rs.prefetch(0);
}

#[test]
fn shrink_and_space() {
    let symbols = [0u8, 1, 2, 3, 0, 1, 2, 3];
    let qv = build_qv(&symbols);
    let mut rs: RSSupportPlain<256> = RSSupportPlain::new(&qv);
    rs.shrink_to_fit();
    assert_eq!(rs.n_occs(0), 2);
    assert_eq!(rs.select_block(1, 1), (0, 0));
    // 1 superblock record + 4 totals + 4 sample tables of 2 entries + length.
    assert_eq!(rs.space_usage_bytes(), 64 + 32 + 4 * 2 * 4 + 8);
}

#[test]
fn block_predecessor_direct() {
    let mut sb = SuperblockPlain::new(&[10, 0, 0, 0]);
    assert_eq!(sb.get_superblock_counter(0), 10);
    assert_eq!(sb.get_superblock_counter(1), 0);
    // Cumulative counts for symbol 0 at blocks 1..=7: 5, 9, 9, 12, ...
    sb.set_block_counters(1, &[5, 1, 0, 0]);
    sb.set_block_counters(2, &[9, 2, 0, 0]);
    sb.set_block_counters(3, &[9, 3, 0, 0]);
    sb.set_block_counters(4, &[12, 4, 0, 0]);
    sb.set_block_counters(5, &[12, 5, 0, 0]);
    sb.set_block_counters(6, &[12, 6, 0, 0]);
    sb.set_block_counters(7, &[15, 7, 0, 0]);
    assert_eq!(sb.get_block_counter(0, 0), 0);
    assert_eq!(sb.get_block_counter(0, 1), 5);
    assert_eq!(sb.get_block_counter(0, 7), 15);
    assert_eq!(sb.block_predecessor(0, 5), (0, 0));
    assert_eq!(sb.block_predecessor(0, 6), (1, 5));
    assert_eq!(sb.block_predecessor(0, 9), (1, 5));
    assert_eq!(sb.block_predecessor(0, 10), (3, 9));
    assert_eq!(sb.block_predecessor(0, 13), (6, 12));
    assert_eq!(sb.block_predecessor(0, 16), (7, 15));
    assert_eq!(sb.block_predecessor(1, 7), (6, 6));
}
