use world_rs::resample::{
    assemble_batch, gcd, next_history, plan_rate, polyphase_step, tap_source, RatePlan,
    ResampleError, TapSource, D, MAX_RESAMPLE_LEN, TAPS,
};

#[test]
fn test_constants_match_js_reference() {
    assert_eq!(TAPS, 32);
    assert_eq!(D, 16);
}

#[test]
fn test_d_is_half_taps() {
    assert_eq!(D, TAPS / 2);
}

#[test]
fn test_gcd_16k_to_48k() {
    let g = gcd(16000, 48000);
    assert_eq!(g, 16000);
    assert_eq!((48000 / g, 16000 / g), (3, 1));
}

#[test]
fn test_gcd_48k_to_16k() {
    let g = gcd(48000, 16000);
    assert_eq!(g, 16000);
    assert_eq!((16000 / g, 48000 / g), (1, 3));
}

#[test]
fn test_gcd_matches_js_reference() {
    let cases = [
        (44100u32, 48000u32, 300u32),
        (48000, 44100, 300),
        (16000, 16000, 16000),
        (1, 1, 1),
        (1, 48000, 1),
        (48000, 1, 1),
        (0, 48000, 48000),
        (48000, 0, 48000),
        (0, 0, 0),
    ];
    for (a, b, expected) in cases {
        assert_eq!(gcd(a, b), expected, "gcd({}, {})", a, b);
    }
}

#[test]
fn gcd_is_symmetric_on_samples() {
    for (a, b) in [(12u32, 18u32), (7, 13), (0, 9), (100, 75)] {
        assert_eq!(gcd(a, b), gcd(b, a));
    }
}

#[test]
fn rate_plans() {
    assert_eq!(plan_rate(0, 16000), Err(ResampleError::ZeroRate));
    assert_eq!(plan_rate(16000, 0), Err(ResampleError::ZeroRate));
    assert_eq!(plan_rate(16000, 16000), Ok(RatePlan::Identity));
    assert_eq!(plan_rate(16000, 48000), Ok(RatePlan::Polyphase { l: 3, m: 1 }));
    assert_eq!(plan_rate(48000, 16000), Ok(RatePlan::Polyphase { l: 1, m: 3 }));
    assert_eq!(plan_rate(44100, 48000), Ok(RatePlan::Polyphase { l: 160, m: 147 }));
    assert_eq!(plan_rate(1, 4_000_000), Err(ResampleError::TooLargeRate));
    assert_eq!(plan_rate(1_000_003, 1), Err(ResampleError::TooLargeRate));
}

#[test]
fn error_messages() {
    assert_eq!(ResampleError::ZeroRate.message(), "sample rate must be > 0");
    assert_eq!(ResampleError::TooLargeRate.message(), "sample rate ratio too large");
}

#[test]
fn polyphase_steps() {
    // 3x upsampling: outputs 0,1,2 share base 16, with phases 0,1,2.
    assert_eq!(polyphase_step(0, 3, 1, 17), Some((0, 16)));
    assert_eq!(polyphase_step(1, 3, 1, 17), Some((1, 16)));
    assert_eq!(polyphase_step(2, 3, 1, 17), Some((2, 16)));
    assert_eq!(polyphase_step(3, 3, 1, 17), None);
    assert_eq!(polyphase_step(3, 3, 1, 18), Some((0, 17)));
    assert_eq!(polyphase_step(0, 1, 1, D), None);
    // 3x downsampling: output 5 reads input 15 (+ D).
    assert_eq!(polyphase_step(5, 1, 3, 100), Some((0, 31)));
}

#[test]
fn tap_sources() {
    assert_eq!(tap_source(3, 0, 4, 10), TapSource::Stop);
    assert_eq!(tap_source(20, 10, 2, 5), TapSource::Zero);
    assert_eq!(tap_source(20, 10, 6, 5), TapSource::Data(4));
    assert_eq!(tap_source(20, 10, 12, 5), TapSource::History(TAPS - 2));
    assert_eq!(tap_source(50, 10, 0, 5), TapSource::Zero);
    assert_eq!(tap_source(20, 60, 0, 5), TapSource::Zero);
    assert_eq!(tap_source(20, 52, 0, 5), TapSource::History(0));
}

#[test]
fn history_keeps_last_taps() {
    let hist: Vec<u32> = (0..TAPS as u32).collect();
    let short: Vec<u32> = vec![100, 101];
    let h = next_history(&hist, &short);
    assert_eq!(h.len(), TAPS);
    assert_eq!(h[0], 2);
    assert_eq!(h[TAPS - 3], TAPS as u32 - 1);
    assert_eq!(&h[TAPS - 2..], &[100, 101]);
    let long: Vec<u32> = (1000..1040).collect();
    let h2 = next_history(&hist, &long);
    assert_eq!(h2, (1008..1040).collect::<Vec<u32>>());
}

#[test]
fn batch_assembly() {
    let a = vec![1, 2, 3];
    let b = vec![4, 5];
    assert_eq!(assemble_batch(&a, &b, 4, 0), vec![1, 2, 3, 4]);
    assert_eq!(assemble_batch(&a, &b, 7, 0), vec![1, 2, 3, 4, 5, 0, 0]);
    assert_eq!(assemble_batch(&a, &b, 2, 0), vec![1, 2]);
    assert!(MAX_RESAMPLE_LEN >= 7);
}
