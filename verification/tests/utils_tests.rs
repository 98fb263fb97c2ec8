use qwt::perf_and_test_utils::{
    gen_queries, gen_queries_pairs, gen_sequence, gen_strictly_increasing_sequence, negate_vector,
    TimingQueries,
};

#[test]
fn gen_sequence_bounds() {
    let v = gen_sequence(1000, 4);
    assert_eq!(v.len(), 1000);
    assert!(v.iter().all(|&c| c < 4));
    let w = gen_sequence(50, 256);
    assert_eq!(w.len(), 50);
}

#[test]
fn gen_queries_bounds() {
    let v = gen_queries(500, 77);
    assert_eq!(v.len(), 500);
    assert!(v.iter().all(|&x| x < 77));
}

#[test]
fn gen_queries_pairs_bounds() {
    let v = gen_queries_pairs(300, 1000, 4);
    assert_eq!(v.len(), 300);
    assert!(v.iter().all(|&(x, s)| x < 1000 && s < 4));
}

#[test]
fn gen_strictly_increasing() {
    let v = gen_strictly_increasing_sequence(200, 10_000);
    assert_eq!(v.len(), 200);
    for w in v.windows(2) {
        assert!(w[0] < w[1]);
    }
    assert!(v.iter().all(|&x| x < 10_000));
}

#[test]
fn negate_vector_small() {
    let v = vec![1usize, 3, 4, 7];
    let neg = negate_vector(&v);
    assert_eq!(neg, vec![0, 2, 5, 6]);
}

#[test]
fn negate_vector_dense() {
    let v: Vec<usize> = (0..100).collect();
    let neg = negate_vector(&v);
    assert!(neg.is_empty());
}

#[test]
fn timing_queries_runs() {
    let mut t = TimingQueries::new(3, 10);
    for _ in 0..3 {
        t.start();
        let mut acc = 0u64;
        for i in 0..1000u64 {
            acc = acc.wrapping_add(i);
        }
        assert!(acc > 0);
        t.stop();
    }
    let (min, max, avg) = t.get();
    assert!(min <= avg);
    assert!(avg <= max);
}
