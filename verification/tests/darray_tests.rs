use qwt::bitvector::BitVector;
use qwt::darray::DArray;

fn build_bv(len: usize, ones: &[usize]) -> BitVector {
    let mut bv = BitVector::new();
    let mut j = 0;
    for pos in 0..len {
        let is_one = j < ones.len() && ones[j] == pos;
        if is_one {
            j += 1;
        }
        bv.push(is_one);
    }
    assert_eq!(j, ones.len());
    bv
}

fn naive_ones(bv: &BitVector) -> Vec<usize> {
    let mut r = Vec::new();
    for pos in 0..bv.len() {
        if bv.get(pos) == Some(true) {
            r.push(pos);
        }
    }
    r
}

fn naive_zeros(bv: &BitVector) -> Vec<usize> {
    let mut r = Vec::new();
    for pos in 0..bv.len() {
        if bv.get(pos) == Some(false) {
            r.push(pos);
        }
    }
    r
}

#[test]
fn select1_small_block() {
    // Ones at {1, 6, 8} in a length-9 vector.
    let bv = build_bv(9, &[1, 6, 8]);
    let da: DArray<false> = DArray::new(bv);
    assert_eq!(da.select1(0), Some(1));
    assert_eq!(da.select1(1), Some(6));
    assert_eq!(da.select1(2), Some(8));
    assert_eq!(da.select1(3), None);
}

#[test]
fn select1_dense_block() {
    // Span below 2^16, so the single block is dense.
    let ones = [0, 12, 33, 42, 55, 61, 1000];
    let bv = build_bv(1001, &ones);
    let da: DArray<false> = DArray::new(bv);
    for (i, &p) in ones.iter().enumerate() {
        assert_eq!(da.select1(i), Some(p));
    }
    assert_eq!(da.select1(6), Some(1000));
    assert_eq!(da.select1(7), None);
}

#[test]
fn select1_sparse_block() {
    // Span 199_999 >= 2^16: the block is stored in the overflow table.
    let bv = build_bv(200000, &[0, 199_999]);
    let da: DArray<false> = DArray::new(bv);
    assert_eq!(da.select1(0), Some(0));
    assert_eq!(da.select1(1), Some(199_999));
    assert_eq!(da.select1(2), None);
}

#[test]
fn select1_exactly_one_full_block() {
    // 1024 ones packed at 0..1023 and nothing afterwards.
    let ones: Vec<usize> = (0..1024).collect();
    let bv = build_bv(2048, &ones);
    let da: DArray<false> = DArray::new(bv);
    assert_eq!(da.select1(1023), Some(1023));
    assert_eq!(da.select1(1024), None);
    for i in 0..1024 {
        assert_eq!(da.select1(i), Some(i));
    }
}

#[test]
fn access_and_len() {
    let bv = build_bv(9, &[1, 6, 8]);
    let da: DArray<false> = DArray::new(bv);
    assert_eq!(da.len(), 9);
    assert!(!da.is_empty());
    assert_eq!(da.access(0), Some(false));
    assert_eq!(da.access(1), Some(true));
    assert_eq!(da.access(8), Some(true));
    assert_eq!(da.access(9), None);
    let empty: DArray<false> = DArray::new(BitVector::new());
    assert!(empty.is_empty());
    assert_eq!(empty.select1(0), None);
}

#[test]
fn select0_matches_naive() {
    let bv = build_bv(1001, &[0, 12, 33, 42, 55, 61, 1000]);
    let zeros = naive_zeros(&bv);
    let da: DArray<true> = DArray::new(bv);
    for (i, &p) in zeros.iter().enumerate() {
        assert_eq!(da.select0(i), Some(p));
    }
    assert_eq!(da.select0(zeros.len()), None);
}

struct Lcg(u64);

impl Lcg {
    fn next_bit(&mut self) -> bool {
        self.0 = self
            .0
            .wrapping_mul(6364136223846793005)
            .wrapping_add(1442695040888963407);
        (self.0 >> 33) & 1 == 1
    }
}

fn random_bv(len: usize, seed: u64) -> BitVector {
    let mut bv = BitVector::new();
    let mut rng = Lcg(seed);
    for _ in 0..len {
        bv.push(rng.next_bit());
    }
    bv
}

#[test]
fn select_exhaustive_against_naive() {
    for &len in &[0usize, 1, 63, 64, 65, 1023, 1024, 1025, 65535, 65536, 65537] {
        let bv = random_bv(len, 0x9E3779B97F4A7C15 ^ (len as u64));
        let ones = naive_ones(&bv);
        let zeros = naive_zeros(&bv);
        let da: DArray<true> = DArray::new(bv);
        for (i, &p) in ones.iter().enumerate() {
            assert_eq!(da.select1(i), Some(p), "select1({}) at len {}", i, len);
            assert_eq!(da.select1_unchecked(i), p);
        }
        assert_eq!(da.select1(ones.len()), None);
        assert_eq!(da.select1(ones.len() + 1000000), None);
        for (i, &p) in zeros.iter().enumerate() {
            assert_eq!(da.select0(i), Some(p), "select0({}) at len {}", i, len);
            assert_eq!(da.select0_unchecked(i), p);
        }
        assert_eq!(da.select0(zeros.len()), None);
    }
}

#[test]
fn select_sampled_large() {
    let len = 1_000_000;
    let bv = random_bv(len, 42);
    let ones = naive_ones(&bv);
    let da: DArray<false> = DArray::new(bv);
    let mut i = 0;
    while i < ones.len() {
        assert_eq!(da.select1(i), Some(ones[i]));
        i += 97;
    }
    assert_eq!(da.select1(ones.len()), None);
}

#[test]
fn construction_deterministic() {
    let len = 70000;
    let bv1 = random_bv(len, 7);
    let bv2 = random_bv(len, 7);
    let da1: DArray<false> = DArray::new(bv1);
    let da2: DArray<false> = DArray::new(bv2);
    assert_eq!(da1.len(), da2.len());
    let mut i = 0;
    loop {
        let a = da1.select1(i);
        let b = da2.select1(i);
        assert_eq!(a, b);
        if a.is_none() {
            break;
        }
        i += 1;
    }
}

#[test]
fn select0_support_does_not_change_select1() {
    let len = 70000;
    let without: DArray<false> = DArray::new(random_bv(len, 99));
    let with: DArray<true> = DArray::new(random_bv(len, 99));
    let mut i = 0;
    loop {
        let a = without.select1(i);
        let b = with.select1(i);
        assert_eq!(a, b);
        if a.is_none() {
            break;
        }
        i += 1;
    }
}

#[test]
fn space_usage_positive() {
    let da: DArray<false> = DArray::new(build_bv(1001, &[0, 12, 33, 42, 55, 61, 1000]));
    // One dense block: 1 block entry (8), 1 subblock entry (2), no overflow,
    // plus the count (8); the container holds 16 words plus its length.
    assert_eq!(da.space_usage_byte(), (16 * 8 + 8) + (8 + 2 + 8));
}

#[test]
fn shrink_keeps_answers() {
    let mut da: DArray<true> = DArray::new(build_bv(1001, &[0, 12, 33, 42, 55, 61, 1000]));
    da.shrink_to_fit();
    assert_eq!(da.select1(1), Some(12));
    assert_eq!(da.select0(0), Some(1));
}
