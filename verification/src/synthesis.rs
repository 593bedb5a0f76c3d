use vstd::prelude::*;
use crate::common::{is_power_of_two, is_power_of_two_usize, pow2_is_power_of_two, power_of_two_is_pow2};
use vstd::arithmetic::power2::pow2;

verus! {

/// Largest output, in samples, that synthesis will produce.
pub const MAX_Y_LENGTH: usize = 100_000_000;

/// Largest FFT size that synthesis accepts.
pub const MAX_SYNTHESIS_FFT_SIZE: usize = 1_048_576;

/// What is wrong with the input of synthesis. The variants about the sample
/// rate and the frame period carry no value here; the caller holds it.
#[derive(Debug, Clone, Copy, PartialEq, Eq)]
pub enum SynthesisInputError {
    /// The F0 contour is empty.
    EmptyF0,
    /// The sample rate is not finite or not positive.
    NonPositiveSampleRate,
    /// The frame period is not finite or not positive.
    NonPositiveFramePeriod,
    /// The FFT size is not a power of two of at least 2 (or is too large).
    InvalidFftSize { fft_size: usize },
    /// The declared frame count differs from the contour length.
    MismatchedF0Length { f0_length: usize, f0: usize },
    /// The spectrogram has a different number of rows than frames.
    MismatchedSpectrogramRows { spectrogram: usize, f0_length: usize },
    /// The aperiodicity has a different number of rows than frames.
    MismatchedAperiodicityRows { aperiodicity: usize, f0_length: usize },
    /// A spectrogram row does not have `fft_size / 2 + 1` bins.
    MismatchedSpectrogramBins { bins: usize, expected: usize },
    /// An aperiodicity row does not have `fft_size / 2 + 1` bins.
    MismatchedAperiodicityBins { bins: usize, expected: usize },
    /// The output length is zero or above [`MAX_Y_LENGTH`].
    InvalidYLength { y_length: usize },
}

/// Index of the first entry of `lens[from ..]` that differs from
/// `expected`, if any.
pub open spec fn first_mismatch(lens: Seq<usize>, expected: usize, from: int) -> Option<int>
    decreases lens.len() - from,
{
    if from >= lens.len() || from < 0 {
        None
    } else if lens[from] != expected {
        Some(from)
    } else {
        first_mismatch(lens, expected, from + 1)
    }
}

proof fn lemma_first_mismatch_in_range(lens: Seq<usize>, expected: usize, from: int)
    requires
        0 <= from,
    ensures
        first_mismatch(lens, expected, from) matches Some(i) ==> from <= i < lens.len() && lens[i]
            != expected && forall|j: int| from <= j < i ==> lens[j] == expected,
        first_mismatch(lens, expected, from) is None <==> forall|j: int|
            from <= j < lens.len() ==> lens[j] == expected,
    decreases lens.len() - from,
{
    if from < lens.len() && lens[from] == expected {
        lemma_first_mismatch_in_range(lens, expected, from + 1);
    }
}

/// The row that a bins mismatch reports is the first row whose length is
/// not `expected`; there is none exactly when every row has that length.
pub proof fn first_mismatch_is_first_differing_row(lens: Seq<usize>, expected: usize)
    ensures
        first_mismatch(lens, expected, 0) matches Some(i) ==> 0 <= i < lens.len() && lens[i]
            != expected && forall|j: int| 0 <= j < i ==> lens[j] == expected,
        first_mismatch(lens, expected, 0) is None <==> forall|j: int|
            0 <= j < lens.len() ==> lens[j] == expected,
{
    lemma_first_mismatch_in_range(lens, expected, 0);
}

/// Index of the first row length that differs from `expected`.
fn find_mismatch(lens: &Vec<usize>, expected: usize) -> (r: Option<usize>)
    ensures
        r matches Some(i) ==> first_mismatch(lens@, expected, 0) == Some(i as int),
        r is None ==> first_mismatch(lens@, expected, 0) is None,
{
    let mut i: usize = 0;
    while i < lens.len()
        invariant
            i <= lens@.len(),
            first_mismatch(lens@, expected, 0) == first_mismatch(lens@, expected, i as int),
        decreases lens@.len() - i,
    {
        if lens[i] != expected {
            return Some(i);
        }
        i = i + 1;
    }
    None
}

/// The verdict on the input of synthesis, checked in this order: contour
/// not empty, output length, sample rate, frame period, FFT size, frame
/// count, spectrogram rows, aperiodicity rows, spectrogram bins,
/// aperiodicity bins.
pub open spec fn synthesis_check_spec(
    f0_len: usize,
    f0_length: usize,
    spectrogram_row_lens: Seq<usize>,
    aperiodicity_row_lens: Seq<usize>,
    fft_size: usize,
    y_length: usize,
    sample_rate_ok: bool,
    frame_period_ok: bool,
) -> Result<(), SynthesisInputError> {
    let expected = (fft_size / 2 + 1) as usize;
    if f0_len == 0 {
        Err(SynthesisInputError::EmptyF0)
    } else if y_length == 0 || y_length > MAX_Y_LENGTH {
        Err(SynthesisInputError::InvalidYLength { y_length })
    } else if !sample_rate_ok {
        Err(SynthesisInputError::NonPositiveSampleRate)
    } else if !frame_period_ok {
        Err(SynthesisInputError::NonPositiveFramePeriod)
    } else if fft_size < 2 || !is_power_of_two(fft_size as nat) || fft_size > MAX_SYNTHESIS_FFT_SIZE {
        Err(SynthesisInputError::InvalidFftSize { fft_size })
    } else if f0_length != f0_len {
        Err(SynthesisInputError::MismatchedF0Length { f0_length, f0: f0_len })
    } else if spectrogram_row_lens.len() != f0_length {
        Err(
            SynthesisInputError::MismatchedSpectrogramRows {
                spectrogram: spectrogram_row_lens.len() as usize,
                f0_length,
            },
        )
    } else if aperiodicity_row_lens.len() != f0_length {
        Err(
            SynthesisInputError::MismatchedAperiodicityRows {
                aperiodicity: aperiodicity_row_lens.len() as usize,
                f0_length,
            },
        )
    } else if first_mismatch(spectrogram_row_lens, expected, 0) is Some {
        Err(
            SynthesisInputError::MismatchedSpectrogramBins {
                bins: spectrogram_row_lens[first_mismatch(spectrogram_row_lens, expected, 0)->0],
                expected,
            },
        )
    } else if first_mismatch(aperiodicity_row_lens, expected, 0) is Some {
        Err(
            SynthesisInputError::MismatchedAperiodicityBins {
                bins: aperiodicity_row_lens[first_mismatch(aperiodicity_row_lens, expected, 0)->0],
                expected,
            },
        )
    } else {
        Ok(())
    }
}

/// Synthesis accepts every FFT size `2^e` from 2 up to
/// `MAX_SYNTHESIS_FFT_SIZE` once the rest of the input is consistent: a
/// non-empty contour of the declared length, an output length in range,
/// valid rates, and rows of `2^e / 2 + 1` bins, one per frame.
pub proof fn synthesis_accepts_supported_fft_sizes(
    f0_len: usize,
    spectrogram_row_lens: Seq<usize>,
    aperiodicity_row_lens: Seq<usize>,
    e: nat,
    y_length: usize,
)
    requires
        f0_len > 0,
        1 <= y_length <= MAX_Y_LENGTH,
        1 <= e,
        pow2(e) <= MAX_SYNTHESIS_FFT_SIZE,
        spectrogram_row_lens.len() == f0_len,
        aperiodicity_row_lens.len() == f0_len,
        forall|i: int|
            0 <= i < f0_len ==> #[trigger] spectrogram_row_lens[i] == pow2(e) / 2 + 1,
        forall|i: int|
            0 <= i < f0_len ==> #[trigger] aperiodicity_row_lens[i] == pow2(e) / 2 + 1,
    ensures
        synthesis_check_spec(
            f0_len,
            f0_len,
            spectrogram_row_lens,
            aperiodicity_row_lens,
            pow2(e) as usize,
            y_length,
            true,
            true,
        ) == Ok::<(), SynthesisInputError>(()),
{
    pow2_is_power_of_two(e);
    assert(pow2(e) >= 2) by {
        vstd::arithmetic::power2::lemma_pow2_unfold(e);
        vstd::arithmetic::power2::lemma_pow2_pos((e - 1) as nat);
    }
    let expected = ((pow2(e) as usize) / 2 + 1) as usize;
    assert(first_mismatch(spectrogram_row_lens, expected, 0) is None) by {
        lemma_first_mismatch_in_range(spectrogram_row_lens, expected, 0);
    }
    assert(first_mismatch(aperiodicity_row_lens, expected, 0) is None) by {
        lemma_first_mismatch_in_range(aperiodicity_row_lens, expected, 0);
    }
}

/// With a non-empty contour, an output length in range and valid rates,
/// an FFT size that is not `2^e` for any `e >= 1`, or that exceeds
/// `MAX_SYNTHESIS_FFT_SIZE`, is refused as such, whatever the rows hold.
pub proof fn synthesis_refuses_unsupported_fft_sizes(
    f0_len: usize,
    f0_length: usize,
    spectrogram_row_lens: Seq<usize>,
    aperiodicity_row_lens: Seq<usize>,
    fft_size: usize,
    y_length: usize,
)
    requires
        f0_len > 0,
        1 <= y_length <= MAX_Y_LENGTH,
        (forall|e: nat| 1 <= e ==> pow2(e) != fft_size) || fft_size > MAX_SYNTHESIS_FFT_SIZE,
    ensures
        synthesis_check_spec(
            f0_len,
            f0_length,
            spectrogram_row_lens,
            aperiodicity_row_lens,
            fft_size,
            y_length,
            true,
            true,
        ) == Err::<(), SynthesisInputError>(SynthesisInputError::InvalidFftSize { fft_size }),
{
    if fft_size >= 2 && is_power_of_two(fft_size as nat) && fft_size <= MAX_SYNTHESIS_FFT_SIZE {
        power_of_two_is_pow2(fft_size as nat);
        let e = choose|e: nat| pow2(e) == fft_size as nat;
        if e == 0 {
            vstd::arithmetic::power2::lemma2_to64();
        }
        assert(pow2(e) != fft_size);
    }
}

/// Validates the input of synthesis from its dimensions: the contour
/// length `f0_len` and declared frame count `f0_length`, the length of each
/// spectrogram and aperiodicity row, the FFT size and the output length.
/// `sample_rate_ok` and `frame_period_ok` say whether those values are
/// finite and positive.
pub fn check_synthesis_inputs(
    f0_len: usize,
    f0_length: usize,
    spectrogram_row_lens: &Vec<usize>,
    aperiodicity_row_lens: &Vec<usize>,
    fft_size: usize,
    y_length: usize,
    sample_rate_ok: bool,
    frame_period_ok: bool,
) -> (r: Result<(), SynthesisInputError>)
    ensures
        r == synthesis_check_spec(
            f0_len,
            f0_length,
            spectrogram_row_lens@,
            aperiodicity_row_lens@,
            fft_size,
            y_length,
            sample_rate_ok,
            frame_period_ok,
        ),
{
    if f0_len == 0 {
        return Err(SynthesisInputError::EmptyF0);
    }
    if y_length == 0 || y_length > MAX_Y_LENGTH {
        return Err(SynthesisInputError::InvalidYLength { y_length });
    }
    if !sample_rate_ok {
        return Err(SynthesisInputError::NonPositiveSampleRate);
    }
    if !frame_period_ok {
        return Err(SynthesisInputError::NonPositiveFramePeriod);
    }
    if fft_size < 2 || !is_power_of_two_usize(fft_size) || fft_size > MAX_SYNTHESIS_FFT_SIZE {
        return Err(SynthesisInputError::InvalidFftSize { fft_size });
    }
    if f0_length != f0_len {
        return Err(SynthesisInputError::MismatchedF0Length { f0_length, f0: f0_len });
    }
    let expected = fft_size / 2 + 1;
    if spectrogram_row_lens.len() != f0_length {
        return Err(
            SynthesisInputError::MismatchedSpectrogramRows {
                spectrogram: spectrogram_row_lens.len(),
                f0_length,
            },
        );
    }
    if aperiodicity_row_lens.len() != f0_length {
        return Err(
            SynthesisInputError::MismatchedAperiodicityRows {
                aperiodicity: aperiodicity_row_lens.len(),
                f0_length,
            },
        );
    }
    if let Some(i) = find_mismatch(spectrogram_row_lens, expected) {
        proof {
            lemma_first_mismatch_in_range(spectrogram_row_lens@, expected, 0);
        }
        return Err(
            SynthesisInputError::MismatchedSpectrogramBins {
                bins: spectrogram_row_lens[i],
                expected,
            },
        );
    }
    if let Some(i) = find_mismatch(aperiodicity_row_lens, expected) {
        proof {
            lemma_first_mismatch_in_range(aperiodicity_row_lens@, expected, 0);
        }
        return Err(
            SynthesisInputError::MismatchedAperiodicityBins {
                bins: aperiodicity_row_lens[i],
                expected,
            },
        );
    }
    Ok(())
}

/// The verdict on the parameters of a streaming synthesizer: FFT size,
/// then sample rate, then frame period.
pub open spec fn synthesizer_check_spec(fft_size: usize, sample_rate_ok: bool, frame_period_ok: bool) -> Result<
    (),
    SynthesisInputError,
> {
    if fft_size < 2 || !is_power_of_two(fft_size as nat) {
        Err(SynthesisInputError::InvalidFftSize { fft_size })
    } else if !sample_rate_ok {
        Err(SynthesisInputError::NonPositiveSampleRate)
    } else if !frame_period_ok {
        Err(SynthesisInputError::NonPositiveFramePeriod)
    } else {
        Ok(())
    }
}

/// Validates the parameters of a streaming synthesizer.
pub fn check_synthesizer_parameters(fft_size: usize, sample_rate_ok: bool, frame_period_ok: bool) -> (r:
    Result<(), SynthesisInputError>)
    ensures
        r == synthesizer_check_spec(fft_size, sample_rate_ok, frame_period_ok),
{
    if fft_size < 2 || !is_power_of_two_usize(fft_size) {
        return Err(SynthesisInputError::InvalidFftSize { fft_size });
    }
    if !sample_rate_ok {
        return Err(SynthesisInputError::NonPositiveSampleRate);
    }
    if !frame_period_ok {
        return Err(SynthesisInputError::NonPositiveFramePeriod);
    }
    Ok(())
}

/// The verdict on one chunk of flat row-major features for a synthesizer
/// with `fft_size`: a non-empty contour, and `f0_len` rows of
/// `fft_size / 2 + 1` bins in both the spectrogram and the aperiodicity.
pub open spec fn chunk_check_spec(
    fft_size: usize,
    f0_len: usize,
    spectrogram_len: usize,
    aperiodicity_len: usize,
) -> Result<(), SynthesisInputError> {
    let bins = (fft_size / 2 + 1) as usize;
    if f0_len == 0 {
        Err(SynthesisInputError::EmptyF0)
    } else if spectrogram_len != f0_len * bins {
        Err(
            SynthesisInputError::MismatchedSpectrogramRows {
                spectrogram: (spectrogram_len / bins) as usize,
                f0_length: f0_len,
            },
        )
    } else if aperiodicity_len != f0_len * bins {
        Err(
            SynthesisInputError::MismatchedAperiodicityRows {
                aperiodicity: (aperiodicity_len / bins) as usize,
                f0_length: f0_len,
            },
        )
    } else {
        Ok(())
    }
}

/// Validates the sizes of one chunk of features for a synthesizer with
/// `fft_size`. A row count whose product with the bins per row exceeds
/// `usize::MAX` can match no buffer length, and is reported as a mismatch.
pub fn check_chunk_inputs(
    fft_size: usize,
    f0_len: usize,
    spectrogram_len: usize,
    aperiodicity_len: usize,
) -> (r: Result<(), SynthesisInputError>)
    ensures
        r == chunk_check_spec(fft_size, f0_len, spectrogram_len, aperiodicity_len),
{
    let bins = fft_size / 2 + 1;
    if f0_len == 0 {
        return Err(SynthesisInputError::EmptyF0);
    }
    let expected = f0_len.checked_mul(bins);
    let matches_spectrogram = match expected {
        Some(n) => spectrogram_len == n,
        None => false,
    };
    if !matches_spectrogram {
        return Err(
            SynthesisInputError::MismatchedSpectrogramRows {
                spectrogram: spectrogram_len / bins,
                f0_length: f0_len,
            },
        );
    }
    let matches_aperiodicity = match expected {
        Some(n) => aperiodicity_len == n,
        None => false,
    };
    if !matches_aperiodicity {
        return Err(
            SynthesisInputError::MismatchedAperiodicityRows {
                aperiodicity: aperiodicity_len / bins,
                f0_length: f0_len,
            },
        );
    }
    Ok(())
}

/// Where the impulse response of a pulse at sample `pulse_index` is added
/// into an output of `y_length` samples: response samples `lower .. upper`
/// go to output samples `start ..`, the response being centred on the
/// pulse and cut at both ends of the output.
pub open spec fn overlap_add_window(pulse_index: int, fft_size: int, y_length: int) -> (
    int,
    int,
    int,
) {
    let offset = pulse_index - fft_size / 2 + 1;
    let lower = if -offset > 0 { -offset } else { 0 };
    let upper = if y_length - offset < fft_size { y_length - offset } else { fft_size };
    (lower, upper, lower + offset)
}

/// The output sample on which response sample `j` of the pulse at
/// `pulse_index` lands: the response is centred on the pulse, its sample
/// `fft_size / 2 - 1` on the pulse itself.
pub open spec fn landing_sample(pulse_index: int, fft_size: int, j: int) -> int {
    pulse_index + j + 1 - fft_size / 2
}

/// Response range and output start for overlap-adding the impulse response
/// of the pulse at `pulse_index`. When `lower < upper`, response sample
/// `j` in `lower .. upper` is added to output sample `start + (j - lower)`.
pub fn overlap_add_range(pulse_index: usize, fft_size: usize, y_length: usize) -> (r: (
    usize,
    usize,
    usize,
))
    requires
        pulse_index < y_length,
        y_length + fft_size <= usize::MAX,
    ensures
        ({
            let w = overlap_add_window(pulse_index as int, fft_size as int, y_length as int);
            &&& w.0 < w.1 ==> r == (w.0 as usize, w.1 as usize, w.2 as usize)
            &&& w.0 < w.1 ==> 0 <= w.2 && w.1 <= fft_size && w.2 + (w.1 - w.0) <= y_length
            &&& w.0 >= w.1 ==> r.0 >= r.1
        }),
        forall|j: int|
            0 <= j < fft_size ==> ((r.0 <= j < r.1) <==> 0 <= #[trigger] landing_sample(
                pulse_index as int,
                fft_size as int,
                j,
            ) < y_length),
        forall|j: int|
            r.0 <= j < r.1 ==> r.2 + (j - r.0) == #[trigger] landing_sample(
                pulse_index as int,
                fft_size as int,
                j,
            ),
{
    let half = fft_size / 2;
    // offset = pulse_index + 1 - half, possibly negative
    if pulse_index + 1 >= half {
        let offset = pulse_index + 1 - half;
        let upper = if y_length - offset < fft_size { y_length - offset } else { fft_size };
        (0, upper, offset)
    } else {
        let neg = half - (pulse_index + 1);
        let upper = if y_length + neg < fft_size { y_length + neg } else { fft_size };
        if neg < upper {
            (neg, upper, 0)
        } else {
            (neg, neg, 0)
        }
    }
}

} // verus!
