use world_rs::stonemask::{check_stone_mask_inputs, StoneMaskError};

#[test]
fn stone_mask_input_checks_in_order() {
    assert_eq!(check_stone_mask_inputs(true, 10, 10, 10, true), Ok(()));
    assert_eq!(
        check_stone_mask_inputs(false, 9, 10, 3, false),
        Err(StoneMaskError::NonFiniteSampleRate)
    );
    assert_eq!(
        check_stone_mask_inputs(true, 9, 10, 3, false),
        Err(StoneMaskError::MismatchedLengths)
    );
    assert_eq!(
        check_stone_mask_inputs(true, 10, 10, 3, false),
        Err(StoneMaskError::MismatchedF0Length)
    );
    assert_eq!(
        check_stone_mask_inputs(true, 10, 10, 10, false),
        Err(StoneMaskError::NonFiniteF0)
    );
}

#[test]
fn stone_mask_error_messages() {
    assert_eq!(
        StoneMaskError::NonFiniteSampleRate.message(),
        "sample rate must be finite and positive"
    );
    assert_eq!(StoneMaskError::NonFiniteF0.message(), "f0 contains non-finite values");
    assert_eq!(
        StoneMaskError::MismatchedLengths.message(),
        "temporal_positions and f0 have different lengths"
    );
    assert_eq!(
        StoneMaskError::MismatchedF0Length.message(),
        "f0_length does not match input lengths"
    );
}
