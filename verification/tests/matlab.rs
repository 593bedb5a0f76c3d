use world_rs::matlab::{decimation_source_indices, randn_raw, randn_reseed, RandnState};

fn randn(state: &mut RandnState) -> f64 {
    randn_raw(state) as f64 / 268435456.0 - 6.0
}

#[test]
fn test_randn_repeatability() {
    let mut s1 = RandnState::default();
    randn_reseed(&mut s1);
    let mut s2 = RandnState::default();
    randn_reseed(&mut s2);
    let v1 = randn(&mut s1);
    let v2 = randn(&mut s2);
    assert!((v1 - v2).abs() < 1e-12);
}

#[test]
fn test_randn_bit_exact_vs_cpp() {
    let expected = [
        -1.3276404961943626,
        -0.62285530939698219,
        -1.6091805659234524,
        1.1797650642693043,
        -0.25188251212239265,
        -0.68379516527056694,
        -0.10105277225375175,
        0.66826450079679489,
        -1.2365790456533432,
        0.10969294607639313,
        1.0698245503008366,
        -1.1044377610087395,
    ];
    let mut s = RandnState::default();
    randn_reseed(&mut s);
    for (i, &e) in expected.iter().enumerate() {
        let v = randn(&mut s);
        assert_eq!(v, e, "randn[{i}] mismatch: {v} != {e}");
    }
}

#[test]
fn reseed_restores_the_seed() {
    let mut s = RandnState { x: 1, y: 2, z: 3, w: 4 };
    randn_reseed(&mut s);
    assert_eq!(s, RandnState { x: 123456789, y: 362436069, z: 521288629, w: 88675123 });
}

#[test]
fn randn_raw_stays_below_twelve_draws() {
    let mut s = RandnState::default();
    randn_reseed(&mut s);
    for _ in 0..1000 {
        assert!(randn_raw(&mut s) < 12 * (1u32 << 28));
    }
}

#[test]
fn decimation_keeps_every_rth_sample_to_the_end() {
    // len 20, r 2: nout 10, first kept sample 2, kept while below 29.
    assert_eq!(
        decimation_source_indices(20, 2),
        vec![10, 12, 14, 16, 18, 20, 22, 24, 26, 28, 30, 32, 34, 36]
    );
    // len 10, r 12: a single kept sample at position 10.
    assert_eq!(decimation_source_indices(10, 12), vec![18]);
    for (len, r) in [(11usize, 3usize), (100, 7), (257, 12)] {
        let idx = decimation_source_indices(len, r);
        assert!(idx.iter().all(|i| *i < len + 17));
        assert!(idx.windows(2).all(|w| w[1] == w[0] + r));
    }
}
