use vstd::prelude::*;

use vstd::arithmetic::power2::{pow2, lemma2_to64, lemma_pow2_unfold, lemma_pow2_pos};

verus! {

/// `n` is `2^k` for some `k >= 0`.
pub open spec fn is_power_of_two(n: nat) -> bool
    decreases n,
{
    if n == 0 {
        false
    } else if n == 1 {
        true
    } else {
        n % 2 == 0 && is_power_of_two(n / 2)
    }
}

/// Every `2^e` is a power of two.
pub proof fn pow2_is_power_of_two(e: nat)
    ensures
        is_power_of_two(pow2(e)),
    decreases e,
{
    if e == 0 {
        lemma2_to64();
    } else {
        pow2_is_power_of_two((e - 1) as nat);
        lemma_pow2_unfold(e);
        lemma_pow2_pos((e - 1) as nat);
        assert(pow2(e) / 2 == pow2((e - 1) as nat));
    }
}

/// Every power of two is `2^e` for some `e`.
pub proof fn power_of_two_is_pow2(n: nat)
    requires
        is_power_of_two(n),
    ensures
        exists|e: nat| pow2(e) == n,
    decreases n,
{
    if n == 1 {
        lemma2_to64();
        assert(pow2(0) == n);
    } else {
        power_of_two_is_pow2(n / 2);
        let e = choose|e: nat| pow2(e) == n / 2;
        lemma_pow2_unfold(e + 1);
        assert(pow2(e + 1) == n);
    }
}

/// `r` is the smallest power of two strictly greater than `n`.
pub open spec fn is_smallest_power_of_two_above(r: nat, n: nat) -> bool {
    &&& is_power_of_two(r)
    &&& n < r
    &&& r / 2 <= n || r == 1
}

/// Returns the smallest power of two strictly greater than `sample`
/// (`0` gives `1`, an exact power of two is doubled).
pub fn get_suitable_fft_size(sample: usize) -> (r: usize)
    requires
        sample < usize::MAX / 2 + 1,
    ensures
        is_smallest_power_of_two_above(r as nat, sample as nat),
{
    let mut p: usize = 1;
    while p <= sample
        invariant
            is_power_of_two(p as nat),
            p == 1 || p / 2 <= sample,
            sample < usize::MAX / 2 + 1,
            p <= 2 * sample + 1,
        decreases 2 * sample + 2 - p,
    {
        p = p * 2;
    }
    p
}


/// Worst-case scratch length for the DC-correction pass over a spectrum of
/// `fft_size` bins when the input has `input_len` bins: the three working
/// regions (frequency axis, replica, difference buffer) at their largest,
/// which is reached when F0 sits at the Nyquist frequency.
pub open spec fn dc_correction_scratch_len(fft_size: nat, input_len: nat) -> nat {
    let upper_limit_max = 2 + fft_size / 2;
    let y_len_max = if upper_limit_max + 1 < input_len { upper_limit_max + 1 } else { input_len };
    upper_limit_max + (upper_limit_max - 1) as nat + y_len_max
}

/// Scratch capacity, in samples, that the DC-correction pass needs at most.
pub fn dc_correction_scratch_capacity(fft_size: usize, input_len: usize) -> (r: usize)
    requires
        dc_correction_scratch_len(fft_size as nat, input_len as nat) <= usize::MAX,
    ensures
        r == dc_correction_scratch_len(fft_size as nat, input_len as nat),
{
    let upper_limit_max = 2 + fft_size / 2;
    let upper_limit_replica_max = upper_limit_max.saturating_sub(1);
    let y_len_max = if upper_limit_max + 1 < input_len { upper_limit_max + 1 } else { input_len };
    upper_limit_max + upper_limit_replica_max + y_len_max
}

/// Worst-case scratch length for linear smoothing over `fft_size` bins: four
/// regions of the mirrored-spectrum length and three of the half-spectrum
/// length, at the widest window that an F0 below Nyquist produces.
pub open spec fn linear_smoothing_scratch_len(fft_size: nat) -> nat {
    let boundary_max = fft_size / 3 + 1;
    let mirroring_len_max = fft_size / 2 + boundary_max * 2 + 1;
    let n = fft_size / 2 + 1;
    4 * mirroring_len_max + 3 * n
}

/// Scratch capacity, in samples, that linear smoothing needs at most.
pub fn linear_smoothing_scratch_capacity(fft_size: usize) -> (r: usize)
    requires
        linear_smoothing_scratch_len(fft_size as nat) <= usize::MAX,
    ensures
        r == linear_smoothing_scratch_len(fft_size as nat),
{
    let boundary_max = fft_size / 3 + 1;
    let mirroring_len_max = fft_size / 2 + boundary_max * 2 + 1;
    let n = fft_size / 2 + 1;
    4 * mirroring_len_max + 3 * n
}

/// Whether `n` is a power of two (`1, 2, 4, ...`).
pub fn is_power_of_two_usize(n: usize) -> (b: bool)
    ensures
        b == is_power_of_two(n as nat),
{
    if n == 0 {
        return false;
    }
    let mut m: usize = n;
    while m > 1 && m % 2 == 0
        invariant
            m >= 1,
            is_power_of_two(n as nat) == is_power_of_two(m as nat),
        decreases m,
    {
        m = m / 2;
    }
    m == 1
}


/// The sample that a one-based position refers to, as a zero-based index
/// clamped into `0 .. len`.
pub open spec fn clamped_sample_index(one_based: int, len: int) -> int {
    if one_based - 1 < 0 {
        0
    } else if one_based - 1 >= len {
        len - 1
    } else {
        one_based - 1
    }
}

/// Zero-based index of the sample at one-based position `one_based`,
/// clamped to the first or last sample of a signal of `len` samples.
pub fn clamp_sample_index(one_based: i64, len: usize) -> (r: usize)
    requires
        len > 0,
    ensures
        r == clamped_sample_index(one_based as int, len as int),
        r < len,
{
    if one_based < 1 {
        0
    } else if (one_based - 1) as u64 >= len as u64 {
        len - 1
    } else {
        (one_based - 1) as usize
    }
}

/// Most frames an analysis may produce.
pub const MAX_ANALYSIS_FRAMES: usize = 8_000_000;

/// Most cells (rows times frames) an analysis may allocate.
pub const MAX_ANALYSIS_CELLS: u64 = 64_000_000;

/// Whether an analysis of `frames` frames with `rows` rows per frame
/// exceeds the allocation budget.
pub fn exceeds_frame_budget(rows: usize, frames: usize) -> (b: bool)
    ensures
        b == (frames > MAX_ANALYSIS_FRAMES || rows * frames > MAX_ANALYSIS_CELLS),
{
    if frames > MAX_ANALYSIS_FRAMES {
        return true;
    }
    assert((rows as u128) * (frames as u128) <= 0xFFFF_FFFF_FFFF_FFFFu128 * 8_000_000u128)
        by (nonlinear_arith)
        requires
            rows as u128 <= 0xFFFF_FFFF_FFFF_FFFFu128,
            frames as u128 <= 8_000_000u128,
    ;
    let product = (rows as u128) * (frames as u128);
    product > MAX_ANALYSIS_CELLS as u128
}


/// `v` clamped into `lo ..= hi`.
pub open spec fn clamp_int(v: int, lo: int, hi: int) -> int {
    if v < lo {
        lo
    } else if v > hi {
        hi
    } else {
        v
    }
}

/// Sample indices read by a window of `2 * half_window_length + 1` taps
/// centred on sample `origin`: tap `i` reads sample
/// `origin + i - half_window_length`, clamped to the first or last sample
/// of a signal of `x_length` samples.
pub fn safe_window_indices(origin: i32, half_window_length: usize, x_length: usize) -> (r: Vec<i32>)
    requires
        1 <= x_length,
        x_length - 1 <= i32::MAX,
        half_window_length <= i32::MAX,
    ensures
        r@.len() == 2 * half_window_length + 1,
        forall|i: int|
            0 <= i < r@.len() ==> r@[i] == clamp_int(
                origin + i - half_window_length,
                0,
                x_length - 1,
            ),
{
    let n = 2 * half_window_length + 1;
    let last = (x_length - 1) as i64;
    let mut r: Vec<i32> = Vec::with_capacity(n);
    let mut i: usize = 0;
    while i < n
        invariant
            n == 2 * half_window_length + 1,
            half_window_length <= i32::MAX,
            last == x_length - 1,
            0 <= last <= i32::MAX,
            i <= n,
            r@.len() == i,
            forall|k: int|
                0 <= k < i ==> r@[k] == clamp_int(origin + k - half_window_length, 0, x_length - 1),
        decreases n - i,
    {
        let idx = origin as i64 + i as i64 - half_window_length as i64;
        let clamped = if idx < 0 {
            0
        } else if idx > last {
            last
        } else {
            idx
        };
        r.push(clamped as i32);
        i = i + 1;
    }
    r
}


/// The value of `v as usize` for an `i32` `v`: the value itself when it is
/// non-negative, otherwise its two's-complement image at the top of the
/// `usize` range.
pub open spec fn i32_as_usize_spec(v: int) -> int {
    if v >= 0 {
        v
    } else {
        v + usize::MAX + 1
    }
}

/// `v as usize`, with its value stated.
pub fn i32_as_usize(v: i32) -> (r: usize)
    ensures
        r == i32_as_usize_spec(v as int),
{
    if v >= 0 {
        v as usize
    } else {
        let below_top = (-(v as i64) - 1) as usize;
        usize::MAX - below_top
    }
}

} // verus!
