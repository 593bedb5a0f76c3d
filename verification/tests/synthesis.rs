use world_rs::synthesis::{
    check_chunk_inputs, check_synthesis_inputs, check_synthesizer_parameters, overlap_add_range,
    SynthesisInputError,
};

fn valid_rows(f0_length: usize, fft_size: usize) -> (Vec<usize>, Vec<usize>) {
    let bins = fft_size / 2 + 1;
    (vec![bins; f0_length], vec![bins; f0_length])
}

#[test]
fn test_synthesis_empty_f0() {
    let r = check_synthesis_inputs(0, 0, &vec![], &vec![], 128, 0, true, true);
    assert_eq!(r, Err(SynthesisInputError::EmptyF0));
}

#[test]
fn test_synthesis_nonpositive_fs() {
    let (sp, ap) = valid_rows(10, 128);
    let fs = 0.0f64;
    let r = check_synthesis_inputs(10, 10, &sp, &ap, 128, 80, fs.is_finite() && fs > 0.0, true);
    assert_eq!(r, Err(SynthesisInputError::NonPositiveSampleRate));
}

#[test]
fn test_synthesis_nonpositive_frame_period() {
    let (sp, ap) = valid_rows(10, 128);
    let frame_period = 0.0f64;
    let ok = frame_period.is_finite() && frame_period > 0.0;
    let r = check_synthesis_inputs(10, 10, &sp, &ap, 128, 80, true, ok);
    assert_eq!(r, Err(SynthesisInputError::NonPositiveFramePeriod));
}

#[test]
fn test_synthesis_invalid_fft_size() {
    let (sp, ap) = valid_rows(10, 128);
    let r = check_synthesis_inputs(10, 10, &sp, &ap, 100, 80, true, true);
    assert_eq!(r, Err(SynthesisInputError::InvalidFftSize { fft_size: 100 }));
}

#[test]
fn test_synthesis_mismatched_f0_length() {
    let (sp, ap) = valid_rows(10, 128);
    let r = check_synthesis_inputs(10, 9, &sp, &ap, 128, 80, true, true);
    assert_eq!(
        r,
        Err(SynthesisInputError::MismatchedF0Length {
            f0_length: 9,
            f0: 10
        })
    );
}

#[test]
fn test_synthesis_mismatched_spectrogram_rows() {
    let (mut sp, ap) = valid_rows(10, 128);
    sp.pop();
    let r = check_synthesis_inputs(10, 10, &sp, &ap, 128, 80, true, true);
    assert_eq!(
        r,
        Err(SynthesisInputError::MismatchedSpectrogramRows {
            spectrogram: 9,
            f0_length: 10
        })
    );
}

#[test]
fn test_synthesis_mismatched_aperiodicity_rows() {
    let (sp, mut ap) = valid_rows(10, 128);
    ap.pop();
    let r = check_synthesis_inputs(10, 10, &sp, &ap, 128, 80, true, true);
    assert_eq!(
        r,
        Err(SynthesisInputError::MismatchedAperiodicityRows {
            aperiodicity: 9,
            f0_length: 10
        })
    );
}

#[test]
fn test_synthesis_mismatched_spectrogram_bins() {
    let (mut sp, ap) = valid_rows(10, 128);
    sp[0] -= 1;
    let r = check_synthesis_inputs(10, 10, &sp, &ap, 128, 80, true, true);
    assert_eq!(
        r,
        Err(SynthesisInputError::MismatchedSpectrogramBins {
            bins: 64,
            expected: 65
        })
    );
}

#[test]
fn test_synthesis_mismatched_aperiodicity_bins() {
    let (sp, mut ap) = valid_rows(10, 128);
    ap[0] -= 1;
    let r = check_synthesis_inputs(10, 10, &sp, &ap, 128, 80, true, true);
    assert_eq!(
        r,
        Err(SynthesisInputError::MismatchedAperiodicityBins {
            bins: 64,
            expected: 65
        })
    );
}

#[test]
fn synthesis_inputs_accepted_and_y_length_checked() {
    let (sp, ap) = valid_rows(10, 128);
    assert_eq!(check_synthesis_inputs(10, 10, &sp, &ap, 128, 80, true, true), Ok(()));
    assert_eq!(
        check_synthesis_inputs(10, 10, &sp, &ap, 128, 0, true, true),
        Err(SynthesisInputError::InvalidYLength { y_length: 0 })
    );
    assert_eq!(
        check_synthesis_inputs(10, 10, &sp, &ap, 2_097_152, 80, true, true),
        Err(SynthesisInputError::InvalidFftSize { fft_size: 2_097_152 })
    );
}

#[test]
fn synthesizer_parameters() {
    assert_eq!(check_synthesizer_parameters(1024, true, true), Ok(()));
    assert_eq!(
        check_synthesizer_parameters(1, true, true),
        Err(SynthesisInputError::InvalidFftSize { fft_size: 1 })
    );
    assert_eq!(
        check_synthesizer_parameters(1024, false, false),
        Err(SynthesisInputError::NonPositiveSampleRate)
    );
    assert_eq!(
        check_synthesizer_parameters(1024, true, false),
        Err(SynthesisInputError::NonPositiveFramePeriod)
    );
}

#[test]
fn chunk_inputs() {
    assert_eq!(check_chunk_inputs(128, 0, 0, 0), Err(SynthesisInputError::EmptyF0));
    assert_eq!(check_chunk_inputs(128, 2, 130, 130), Ok(()));
    assert_eq!(
        check_chunk_inputs(128, 2, 65, 130),
        Err(SynthesisInputError::MismatchedSpectrogramRows {
            spectrogram: 1,
            f0_length: 2
        })
    );
    assert_eq!(
        check_chunk_inputs(128, 2, 130, 195),
        Err(SynthesisInputError::MismatchedAperiodicityRows {
            aperiodicity: 3,
            f0_length: 2
        })
    );
    // A row count whose feature size does not fit in usize is a mismatch.
    assert_eq!(
        check_chunk_inputs(128, usize::MAX, 130, 130),
        Err(SynthesisInputError::MismatchedSpectrogramRows {
            spectrogram: 2,
            f0_length: usize::MAX
        })
    );
}

#[test]
fn overlap_add_windows() {
    // Pulse near the start: the response is cut on the left.
    assert_eq!(overlap_add_range(0, 8, 100), (3, 8, 0));
    // Pulse in the middle: the whole response fits.
    assert_eq!(overlap_add_range(50, 8, 100), (0, 8, 47));
    // Pulse near the end: the response is cut on the right.
    assert_eq!(overlap_add_range(99, 8, 100), (0, 4, 96));
}
