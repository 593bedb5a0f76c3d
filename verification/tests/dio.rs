use world_rs::dio::{check_event, fix_step2, get_decimation_ratio, get_number_of_voiced_sections};

#[test]
fn test_get_decimation_ratio() {
    let cases = [
        (-3i32, 1usize),
        (0, 1),
        (1, 1),
        (2, 2),
        (5, 5),
        (11, 11),
        (12, 12),
        (13, 12),
        (100, 12),
    ];
    for (speed, expected) in cases {
        assert_eq!(get_decimation_ratio(speed), expected, "speed={speed}");
    }
}

#[test]
fn check_event_is_positive_indicator() {
    assert_eq!(check_event(1), 1);
    assert_eq!(check_event(42), 1);
    assert_eq!(check_event(0), 0);
    assert_eq!(check_event(-2), 0);
}

#[test]
fn test_fix_step2_synthetic() {
    let step1: &[f64] = &[0.0, 0.0, 0.0, 100.0, 100.0, 100.0, 100.0, 0.0, 0.0, 0.0];
    let step1_vec = step1.to_vec();
    let is_zero: Vec<bool> = step1.iter().map(|v| *v == 0.0).collect();
    let step2 = fix_step2(&step1_vec, &is_zero, 3, 0.0);
    let expected: &[f64] = &[0.0, 0.0, 0.0, 0.0, 100.0, 100.0, 0.0, 0.0, 0.0, 0.0];
    for i in 0..10 {
        assert_eq!(
            step2[i], expected[i],
            "i={}: {} vs {}",
            i, step2[i], expected[i]
        );
    }
}

#[test]
fn fix_step2_keeps_frames_near_the_ends() {
    // Frames closer than `center` to either end are never zeroed.
    let f0 = vec![100.0, 100.0, 0.0, 100.0, 100.0, 100.0, 0.0];
    let is_zero: Vec<bool> = f0.iter().map(|v| *v == 0.0).collect();
    let out = fix_step2(&f0, &is_zero, 5, -1.0);
    assert_eq!(out, vec![100.0, 100.0, -1.0, -1.0, -1.0, 100.0, 0.0]);
}

#[test]
fn test_get_number_of_voiced_sections() {
    let f0: &[f64] = &[0.0, 100.0, 100.0, 0.0, 0.0, 100.0, 0.0, 100.0, 100.0, 100.0];
    let is_zero: Vec<bool> = f0.iter().map(|v| *v == 0.0).collect();
    let mut positive_index = vec![0usize; 10];
    let mut negative_index = vec![0usize; 10];
    let (pc, nc) = get_number_of_voiced_sections(&is_zero, &mut positive_index, &mut negative_index);
    assert_eq!(pc, 3);
    assert_eq!(nc, 2);
    assert_eq!(&positive_index[..pc], &[1, 5, 7]);
    assert_eq!(&negative_index[..nc], &[2, 5]);
}
