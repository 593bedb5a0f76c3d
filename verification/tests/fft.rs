use world_rs::fft::next_pow2;

#[test]
fn next_pow2_rounds_up_to_power_of_two() {
    assert_eq!(next_pow2(0), 1);
    assert_eq!(next_pow2(1), 1);
    assert_eq!(next_pow2(2), 2);
    assert_eq!(next_pow2(3), 4);
    assert_eq!(next_pow2(1024), 1024);
    assert_eq!(next_pow2(1025), 2048);
}
