use vstd::prelude::*;

verus! {

/// Why the refinement refused its input.
#[derive(Debug, Clone, Copy, PartialEq, Eq)]
pub enum StoneMaskError {
    /// The sample rate is not finite or lies outside `1 ..= 1e9` Hz.
    NonFiniteSampleRate,
    /// The F0 contour holds a non-finite value.
    NonFiniteF0,
    /// The temporal positions and the F0 contour differ in length.
    MismatchedLengths,
    /// The declared frame count differs from the contour length.
    MismatchedF0Length,
}

impl StoneMaskError {
    /// Human-readable description of the error.
    pub fn message(&self) -> (s: String)
        ensures
            s@ == (match *self {
                StoneMaskError::NonFiniteSampleRate => "sample rate must be finite and positive"@,
                StoneMaskError::NonFiniteF0 => "f0 contains non-finite values"@,
                StoneMaskError::MismatchedLengths =>
                    "temporal_positions and f0 have different lengths"@,
                StoneMaskError::MismatchedF0Length => "f0_length does not match input lengths"@,
            }),
    {
        match self {
            StoneMaskError::NonFiniteSampleRate => "sample rate must be finite and positive".to_owned(),
            StoneMaskError::NonFiniteF0 => "f0 contains non-finite values".to_owned(),
            StoneMaskError::MismatchedLengths => "temporal_positions and f0 have different lengths".to_owned(),
            StoneMaskError::MismatchedF0Length => "f0_length does not match input lengths".to_owned(),
        }
    }
}

/// The verdict on the refinement's input, checked in this order: sample
/// rate, equal lengths of positions and contour, declared frame count,
/// finiteness of the contour.
pub open spec fn stone_mask_check_spec(
    sample_rate_ok: bool,
    temporal_positions_len: nat,
    f0_len: nat,
    f0_length: nat,
    f0_finite: bool,
) -> Result<(), StoneMaskError> {
    if !sample_rate_ok {
        Err(StoneMaskError::NonFiniteSampleRate)
    } else if temporal_positions_len != f0_len {
        Err(StoneMaskError::MismatchedLengths)
    } else if f0_length != f0_len || f0_length != temporal_positions_len {
        Err(StoneMaskError::MismatchedF0Length)
    } else if !f0_finite {
        Err(StoneMaskError::NonFiniteF0)
    } else {
        Ok(())
    }
}

/// Validates the input of the F0 refinement. `sample_rate_ok` says whether
/// the sample rate is finite and within `1 ..= 1e9` Hz, `f0_finite` whether
/// every F0 value is finite.
pub fn check_stone_mask_inputs(
    sample_rate_ok: bool,
    temporal_positions_len: usize,
    f0_len: usize,
    f0_length: usize,
    f0_finite: bool,
) -> (r: Result<(), StoneMaskError>)
    ensures
        r == stone_mask_check_spec(
            sample_rate_ok,
            temporal_positions_len as nat,
            f0_len as nat,
            f0_length as nat,
            f0_finite,
        ),
{
    if !sample_rate_ok {
        return Err(StoneMaskError::NonFiniteSampleRate);
    }
    if temporal_positions_len != f0_len {
        return Err(StoneMaskError::MismatchedLengths);
    }
    if f0_length != f0_len || f0_length != temporal_positions_len {
        return Err(StoneMaskError::MismatchedF0Length);
    }
    if !f0_finite {
        return Err(StoneMaskError::NonFiniteF0);
    }
    Ok(())
}

} // verus!
