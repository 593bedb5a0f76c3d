use world_rs::common::{
    clamp_sample_index, dc_correction_scratch_capacity, exceeds_frame_budget,
    get_suitable_fft_size, is_power_of_two_usize, linear_smoothing_scratch_capacity,
    safe_window_indices,
};

#[test]
fn test_get_suitable_fft_size() {
    assert_eq!(get_suitable_fft_size(100), 128);
    assert_eq!(get_suitable_fft_size(256), 512);
    assert_eq!(get_suitable_fft_size(0), 1);
}

#[test]
fn test_get_suitable_fft_size_strictly_greater() {
    let cases = [
        (1usize, 2usize),
        (2, 4),
        (3, 4),
        (4, 8),
        (7, 8),
        (8, 16),
        (127, 128),
        (128, 256),
        (129, 256),
        (1023, 1024),
        (1024, 2048),
        (1025, 2048),
        (131071, 131072),
        (131072, 262144),
    ];
    for (input, expected) in cases {
        assert_eq!(get_suitable_fft_size(input), expected, "input={}", input);
    }
}

#[test]
fn test_get_suitable_fft_size_matches_original() {
    fn float_log2_size(sample: usize) -> usize {
        let size = sample;
        if size == 0 {
            return 1;
        }
        let log2 = (size as f64).log2().floor() as usize;
        let pow2 = 1usize << (log2 + 1);
        if pow2 <= size {
            pow2 << 1
        } else {
            pow2
        }
    }
    for n in 0..100_000usize {
        assert_eq!(get_suitable_fft_size(n), float_log2_size(n), "n={n}");
    }
    for k in [17usize, 24, 32, 40, 45] {
        for n in [(1usize << k) - 1, 1usize << k] {
            assert_eq!(
                get_suitable_fft_size(n),
                float_log2_size(n),
                "n={n} (2^{k} region)"
            );
        }
    }
}

#[test]
fn test_get_suitable_fft_size_high_end_integer_exact() {
    let top = usize::BITS - 1;
    assert_eq!(get_suitable_fft_size((1usize << top) - 1), 1usize << top);
    assert_eq!(get_suitable_fft_size(1usize << (top - 1)), 1usize << top);
    assert_eq!(
        get_suitable_fft_size((1usize << (top - 1)) - 1),
        1usize << (top - 1)
    );
}

#[test]
fn suitable_fft_size_is_power_of_two_above_input() {
    for n in [0usize, 1, 5, 63, 64, 65, 1000, 4095, 4096] {
        let r = get_suitable_fft_size(n);
        assert!(r.is_power_of_two());
        assert!(r > n);
        assert!(r == 1 || r / 2 <= n);
    }
}

#[test]
fn dc_correction_scratch_capacity_formula() {
    // fft 1024: upper limit 514, replica 513, y_len min(515, input_len).
    assert_eq!(dc_correction_scratch_capacity(1024, 513), 514 + 513 + 513);
    assert_eq!(dc_correction_scratch_capacity(1024, 10_000), 514 + 513 + 515);
    assert_eq!(dc_correction_scratch_capacity(0, 0), 2 + 1);
}

#[test]
fn linear_smoothing_scratch_capacity_formula() {
    // fft 1024: boundary 342, mirroring 512 + 684 + 1 = 1197, n = 513.
    assert_eq!(linear_smoothing_scratch_capacity(1024), 4 * 1197 + 3 * 513);
    assert_eq!(linear_smoothing_scratch_capacity(0), 4 * 3 + 3);
}

#[test]
fn power_of_two_check() {
    assert!(!is_power_of_two_usize(0));
    assert!(is_power_of_two_usize(1));
    assert!(is_power_of_two_usize(128));
    assert!(!is_power_of_two_usize(100));
    assert!(!is_power_of_two_usize(96));
}

#[test]
fn clamp_sample_index_edges() {
    assert_eq!(clamp_sample_index(-5, 10), 0);
    assert_eq!(clamp_sample_index(0, 10), 0);
    assert_eq!(clamp_sample_index(1, 10), 0);
    assert_eq!(clamp_sample_index(7, 10), 6);
    assert_eq!(clamp_sample_index(10, 10), 9);
    assert_eq!(clamp_sample_index(11, 10), 9);
    assert_eq!(clamp_sample_index(i64::MAX, 10), 9);
}

#[test]
fn frame_budget_limits() {
    assert!(!exceeds_frame_budget(56, 720_000));
    assert!(exceeds_frame_budget(256, 300_000));
    assert!(exceeds_frame_budget(1, 8_000_001));
    assert!(!exceeds_frame_budget(8, 8_000_000));
    assert!(exceeds_frame_budget(9, 8_000_000));
    assert!(!exceeds_frame_budget(usize::MAX, 0));
}

#[test]
fn safe_window_indices_clamp_to_signal() {
    assert_eq!(safe_window_indices(1, 2, 10), vec![0, 0, 1, 2, 3]);
    assert_eq!(safe_window_indices(9, 2, 10), vec![7, 8, 9, 9, 9]);
    assert_eq!(safe_window_indices(5, 0, 10), vec![5]);
    assert_eq!(safe_window_indices(-100, 1, 3), vec![0, 0, 0]);
}
