use vstd::prelude::*;
use vstd::arithmetic::div_mod::{lemma_fundamental_div_mod, lemma_mod_multiples_basic};

verus! {

/// Number of taps per polyphase phase: sixteen zero crossings on each side
/// of the windowed-sinc prototype.
pub const TAPS: usize = 32;

/// Group-delay compensation, in input samples: half the taps.
pub const D: usize = 16;

/// Largest batch output, in samples, that the resampler will produce.
pub const MAX_RESAMPLE_LEN: usize = 100_000_000;

/// Largest reduced rate factor (`L` or `M`) that the resampler accepts.
pub const MAX_RATE_FACTOR: usize = 1_000_000;

/// Why a rate pair was refused.
#[derive(Debug, Clone, Copy, PartialEq, Eq)]
pub enum ResampleError {
    /// One of the two rates is zero.
    ZeroRate,
    /// The reduced ratio `L / M` has a term above [`MAX_RATE_FACTOR`].
    TooLargeRate,
}

impl ResampleError {
    /// Human-readable description of the error.
    pub fn message(&self) -> (s: String)
        ensures
            s@ == (match *self {
                ResampleError::ZeroRate => "sample rate must be > 0"@,
                ResampleError::TooLargeRate => "sample rate ratio too large"@,
            }),
    {
        match self {
            ResampleError::ZeroRate => "sample rate must be > 0".to_owned(),
            ResampleError::TooLargeRate => "sample rate ratio too large".to_owned(),
        }
    }
}

/// Greatest common divisor by Euclid's algorithm: `gcd(a, 0) = a`,
/// `gcd(a, b) = gcd(b, a mod b)`.
pub open spec fn gcd_spec(a: nat, b: nat) -> nat
    decreases b,
{
    if b == 0 {
        a
    } else {
        gcd_spec(b, a % b)
    }
}

/// Greatest common divisor of two sample rates, used to bring the ratio
/// `to / from` to lowest terms. `gcd(0, b) == b` and `gcd(a, 0) == a`.
pub fn gcd(a: u32, b: u32) -> (g: u32)
    ensures
        g as nat == gcd_spec(a as nat, b as nat),
{
    let ghost a0 = a;
    let ghost b0 = b;
    let mut a = a;
    let mut b = b;
    while b != 0
        invariant
            gcd_spec(a as nat, b as nat) == gcd_spec(a0 as nat, b0 as nat),
        decreases b,
    {
        let r = a % b;
        a = b;
        b = r;
    }
    a
}


/// Multiples of `d` are closed under `q * x + y` and `y - q * x`.
proof fn lemma_multiple_combination(x: int, y: int, q: int, d: int)
    requires
        d > 0,
        x % d == 0,
        y % d == 0,
    ensures
        (q * x + y) % d == 0,
        (y - q * x) % d == 0,
{
    lemma_fundamental_div_mod(x, d);
    lemma_fundamental_div_mod(y, d);
    let kx = x / d;
    let ky = y / d;
    assert(q * x + y == (q * kx + ky) * d) by (nonlinear_arith)
        requires
            x == d * kx,
            y == d * ky,
    ;
    assert(y - q * x == (ky - q * kx) * d) by (nonlinear_arith)
        requires
            x == d * kx,
            y == d * ky,
    ;
    lemma_mod_multiples_basic(q * kx + ky, d);
    lemma_mod_multiples_basic(ky - q * kx, d);
}

/// The gcd divides both arguments, and is zero only for `gcd(0, 0)`.
proof fn lemma_gcd_divides(a: nat, b: nat)
    ensures
        a == 0 && b == 0 ==> gcd_spec(a, b) == 0,
        a > 0 || b > 0 ==> gcd_spec(a, b) > 0 && a % gcd_spec(a, b) == 0 && b % gcd_spec(a, b)
            == 0,
    decreases b,
{
    if b > 0 {
        let r = a % b;
        lemma_gcd_divides(b, r);
        let g = gcd_spec(b, r);
        lemma_fundamental_div_mod(a as int, b as int);
        lemma_multiple_combination(b as int, r as int, (a / b) as int, g as int);
        assert((a / b) as int * b as int + r as int == a as int) by (nonlinear_arith)
            requires
                a as int == b as int * (a as int / b as int) + r as int,
                (a / b) as int == a as int / b as int,
        ;
    }
}

/// Every common divisor of `a` and `b` divides their gcd.
proof fn lemma_common_divisor_divides_gcd(a: nat, b: nat, d: nat)
    requires
        d > 0,
        a % d == 0,
        b % d == 0,
    ensures
        gcd_spec(a, b) % d == 0,
    decreases b,
{
    if b > 0 {
        let r = a % b;
        lemma_fundamental_div_mod(a as int, b as int);
        lemma_multiple_combination(b as int, a as int, (a / b) as int, d as int);
        assert(a as int - (a / b) as int * b as int == r as int) by (nonlinear_arith)
            requires
                a as int == b as int * (a as int / b as int) + r as int,
                (a / b) as int == a as int / b as int,
        ;
        lemma_common_divisor_divides_gcd(b, r, d);
    }
}

/// `gcd(a, b)` divides `a` and `b`, and every common divisor of `a` and `b`
/// divides `gcd(a, b)`: it is the greatest common divisor. It is `0` only
/// when both arguments are `0`.
pub proof fn gcd_is_greatest_common_divisor(a: nat, b: nat, d: nat)
    ensures
        a == 0 && b == 0 ==> gcd_spec(a, b) == 0,
        a > 0 || b > 0 ==> gcd_spec(a, b) > 0,
        a > 0 || b > 0 ==> a % gcd_spec(a, b) == 0 && b % gcd_spec(a, b) == 0,
        d > 0 && a % d == 0 && b % d == 0 ==> gcd_spec(a, b) % d == 0,
{
    lemma_gcd_divides(a, b);
    if d > 0 && a % d == 0 && b % d == 0 {
        lemma_common_divisor_divides_gcd(a, b, d);
    }
}

/// `x % d == 0` with `0 < x` forces `d <= x`.
proof fn lemma_divisor_at_most(x: nat, d: nat)
    requires
        d > 0,
        x > 0,
        x % d == 0,
    ensures
        d <= x,
{
    lemma_fundamental_div_mod(x as int, d as int);
    assert(d <= x) by (nonlinear_arith)
        requires
            x as int == d as int * (x as int / d as int),
            x > 0,
            d > 0,
    ;
}

/// The gcd does not depend on the order of its arguments.
pub proof fn gcd_is_symmetric(a: nat, b: nat)
    ensures
        gcd_spec(a, b) == gcd_spec(b, a),
{
    if a == 0 || b == 0 {
        assert(0nat % a == 0 || a == 0);
        assert(0nat % b == 0 || b == 0);
    } else {
        let g1 = gcd_spec(a, b);
        let g2 = gcd_spec(b, a);
        lemma_gcd_divides(a, b);
        lemma_gcd_divides(b, a);
        lemma_common_divisor_divides_gcd(b, a, g1);
        lemma_common_divisor_divides_gcd(a, b, g2);
        lemma_divisor_at_most(g2, g1);
        lemma_divisor_at_most(g1, g2);
    }
}


/// Dividing two positive rates by their gcd leaves a ratio in lowest terms:
/// `L = to / g` and `M = from / g` multiply back to the rates and have no
/// common factor other than `1`.
pub proof fn reduced_rate_is_in_lowest_terms(from: nat, to: nat)
    requires
        from > 0,
        to > 0,
    ensures
        gcd_spec(from, to) > 0,
        (to / gcd_spec(from, to)) * gcd_spec(from, to) == to,
        (from / gcd_spec(from, to)) * gcd_spec(from, to) == from,
        gcd_spec(to / gcd_spec(from, to), from / gcd_spec(from, to)) == 1,
{
    let g = gcd_spec(from, to);
    lemma_gcd_divides(from, to);
    lemma_fundamental_div_mod(to as int, g as int);
    lemma_fundamental_div_mod(from as int, g as int);
    let l = to / g;
    let m = from / g;
    assert(l * g == to && m * g == from) by (nonlinear_arith)
        requires
            to as int == g as int * (to as int / g as int) + 0,
            from as int == g as int * (from as int / g as int) + 0,
            l == to / g,
            m == from / g,
    ;
    assert(l > 0) by (nonlinear_arith)
        requires
            l * g == to,
            to > 0,
    ;
    let h = gcd_spec(l, m);
    lemma_gcd_divides(l, m);
    lemma_fundamental_div_mod(l as int, h as int);
    lemma_fundamental_div_mod(m as int, h as int);
    let hg = h * g;
    assert(hg > 0) by (nonlinear_arith)
        requires
            h > 0,
            g > 0,
            hg == h * g,
    ;
    assert(to == (l / h) * hg && from == (m / h) * hg) by (nonlinear_arith)
        requires
            l as int == h as int * (l as int / h as int) + 0,
            m as int == h as int * (m as int / h as int) + 0,
            l * g == to,
            m * g == from,
            hg == h * g,
    ;
    lemma_mod_multiples_basic((l / h) as int, hg as int);
    lemma_mod_multiples_basic((m / h) as int, hg as int);
    lemma_common_divisor_divides_gcd(from, to, hg);
    lemma_divisor_at_most(g, hg);
    assert(h <= 1) by (nonlinear_arith)
        requires
            hg == h * g,
            hg <= g,
            g > 0,
    ;
}

/// How a rate pair is served: by passing samples through unchanged, or by
/// a polyphase filter that upsamples by `l` and downsamples by `m`.
#[derive(Debug, Clone, Copy, PartialEq, Eq)]
pub enum RatePlan {
    Identity,
    Polyphase { l: usize, m: usize },
}

/// The plan that `plan_rate` computes for two rates.
pub open spec fn rate_plan_spec(from: nat, to: nat) -> Result<RatePlan, ResampleError> {
    if from == 0 || to == 0 {
        Err(ResampleError::ZeroRate)
    } else if from == to {
        Ok(RatePlan::Identity)
    } else {
        let g = gcd_spec(from, to);
        let l = to / g;
        let m = from / g;
        if l > MAX_RATE_FACTOR || m > MAX_RATE_FACTOR {
            Err(ResampleError::TooLargeRate)
        } else {
            Ok(RatePlan::Polyphase { l: l as usize, m: m as usize })
        }
    }
}

/// The plan for two rates: a zero rate is refused, equal rates pass
/// samples through, and a polyphase plan `l / m` is the ratio `to / from`
/// in lowest terms, with both terms at most `MAX_RATE_FACTOR`.
pub proof fn rate_plan_is_reduced_ratio(from: nat, to: nat)
    requires
        from <= u32::MAX,
        to <= u32::MAX,
    ensures
        (rate_plan_spec(from, to) == Err::<RatePlan, ResampleError>(ResampleError::ZeroRate)) <==> (
        from == 0 || to == 0),
        (rate_plan_spec(from, to) == Ok::<RatePlan, ResampleError>(RatePlan::Identity)) <==> (from
            == to && from > 0),
        rate_plan_spec(from, to) matches Ok(RatePlan::Polyphase { l, m }) ==> {
            &&& l * from == m * to
            &&& gcd_spec(l as nat, m as nat) == 1
            &&& 0 < l <= MAX_RATE_FACTOR
            &&& 0 < m <= MAX_RATE_FACTOR
        },
{
    if from > 0 && to > 0 && from != to {
        reduced_rate_is_in_lowest_terms(from, to);
        let g = gcd_spec(from, to);
        let l = to / g;
        let m = from / g;
        assert(l * from == m * to) by (nonlinear_arith)
            requires
                l * g == to,
                m * g == from,
        ;
        assert(l > 0 && m > 0) by (nonlinear_arith)
            requires
                l * g == to,
                m * g == from,
                to > 0,
                from > 0,
        ;
    }
}

/// Reduces the conversion `from -> to` to lowest terms `L / M = to / from`.
/// A zero rate is refused, equal rates need no filter, and ratios whose
/// reduced terms exceed [`MAX_RATE_FACTOR`] are refused.
pub fn plan_rate(from: u32, to: u32) -> (r: Result<RatePlan, ResampleError>)
    ensures
        r == rate_plan_spec(from as nat, to as nat),
{
    if from == 0 || to == 0 {
        return Err(ResampleError::ZeroRate);
    }
    if from == to {
        return Ok(RatePlan::Identity);
    }
    let g = gcd(from, to);
    proof {
        lemma_gcd_divides(from as nat, to as nat);
    }
    let l = (to / g) as usize;
    let m = (from / g) as usize;
    if l > MAX_RATE_FACTOR || m > MAX_RATE_FACTOR {
        return Err(ResampleError::TooLargeRate);
    }
    Ok(RatePlan::Polyphase { l, m })
}


/// Output sample `out_idx` of a polyphase pass reads upsampled position
/// `up = out_idx * m`: it uses phase `up mod l` and the convolution base
/// `up / l + D`, and it is produced only while that base lies below `avail`.
pub open spec fn polyphase_step_spec(out_idx: nat, l: nat, m: nat, avail: nat) -> Option<
    (usize, usize),
> {
    let up = out_idx * m;
    if up / l + D < avail {
        Some(((up % l) as usize, (up / l + D) as usize))
    } else {
        None
    }
}

/// Output sample `out_idx` reads upsampled position `out_idx * m`: its
/// phase is the remainder and its base, less `D`, the quotient of that
/// position by `l`. It is produced exactly while `out_idx * m` lies below
/// `l * (avail - D)`.
pub proof fn polyphase_step_reads_upsampled_position(out_idx: nat, l: nat, m: nat, avail: nat)
    requires
        0 < l <= usize::MAX,
        avail <= usize::MAX,
    ensures
        polyphase_step_spec(out_idx, l, m, avail) matches Some((phase, base)) ==> {
            &&& phase < l
            &&& base >= D
            &&& phase + l * (base - D) == out_idx * m
        },
        polyphase_step_spec(out_idx, l, m, avail) is Some <==> (avail > D && out_idx * m < l * (
        avail - D)),
{
    let up = out_idx * m;
    let q = up / l;
    let p = up % l;
    assert(up == l * q + p && 0 <= p < l) by (nonlinear_arith)
        requires
            l > 0,
            q == up / l,
            p == up % l,
    ;
    assert(q + D < avail <==> (avail > D && up < l * (avail - D))) by (nonlinear_arith)
        requires
            up == l * q + p,
            0 <= p < l,
            q >= 0,
    ;
}

/// Phase and convolution base of output sample `out_idx`, or `None` once
/// the available input (`avail` samples, history included) no longer
/// covers it.
pub fn polyphase_step(out_idx: usize, l: usize, m: usize, avail: usize) -> (r: Option<
    (usize, usize),
>)
    requires
        l > 0,
        out_idx * m <= usize::MAX,
    ensures
        r == polyphase_step_spec(out_idx as nat, l as nat, m as nat, avail as nat),
{
    let up = out_idx * m;
    let q = up / l;
    if avail > D && q < avail - D {
        Some((up % l, q + D))
    } else {
        None
    }
}

/// Where tap `k` of the current output reads its input sample from.
#[derive(Debug, Clone, Copy, PartialEq, Eq)]
pub enum TapSource {
    /// The tap lies before the start of the signal: no further taps apply.
    Stop,
    /// Sample at this index of the current chunk.
    Data(usize),
    /// Sample at this index of the `TAPS`-long history of earlier input.
    History(usize),
    /// A position outside both the chunk and the history: reads as zero.
    Zero,
}

/// Source of tap `k` for convolution base `base`, when the current chunk of
/// `data_len` samples starts at absolute input index `consumed`.
pub open spec fn tap_source_spec(base: int, consumed: int, k: int, data_len: int) -> TapSource {
    let rel = base - consumed - k;
    if k > base {
        TapSource::Stop
    } else if rel >= 0 {
        if rel < data_len {
            TapSource::Data(rel as usize)
        } else {
            TapSource::Zero
        }
    } else if rel >= -(TAPS as int) {
        TapSource::History((TAPS as int + rel) as usize)
    } else {
        TapSource::Zero
    }
}

/// Tap `k` of the output whose convolution base is `base` reads absolute
/// input sample `base - k`, where the current chunk of `data_len` samples
/// starts at absolute index `consumed` and the history holds the `TAPS`
/// samples before it. There is no tap once `k` passes `base`; a sample in
/// the chunk is read from the chunk, one in the history from the history.
pub proof fn tap_reads_input_sample(base: int, consumed: int, k: int, data_len: int)
    requires
        0 <= base <= usize::MAX,
        0 <= consumed,
        0 <= k,
        0 <= data_len,
    ensures
        (tap_source_spec(base, consumed, k, data_len) is Stop) <==> k > base,
        tap_source_spec(base, consumed, k, data_len) matches TapSource::Data(i) ==> i < data_len
            && consumed + i == base - k,
        tap_source_spec(base, consumed, k, data_len) matches TapSource::History(i) ==> i < TAPS
            && consumed - TAPS + i == base - k,
        k <= base && consumed <= base - k < consumed + data_len ==> tap_source_spec(
            base,
            consumed,
            k,
            data_len,
        ) is Data,
        k <= base && consumed - TAPS <= base - k < consumed ==> tap_source_spec(
            base,
            consumed,
            k,
            data_len,
        ) is History,
{
}

/// Locates tap `k` of the output whose convolution base is `base`.
pub fn tap_source(base: usize, consumed: usize, k: usize, data_len: usize) -> (r: TapSource)
    ensures
        r == tap_source_spec(base as int, consumed as int, k as int, data_len as int),
        r matches TapSource::Data(i) ==> i < data_len,
        r matches TapSource::History(i) ==> i < TAPS,
{
    if k > base {
        return TapSource::Stop;
    }
    let b = base - k;
    if b >= consumed {
        let rel = b - consumed;
        if rel < data_len {
            TapSource::Data(rel)
        } else {
            TapSource::Zero
        }
    } else {
        let back = consumed - b;
        if back <= TAPS {
            TapSource::History(TAPS - back)
        } else {
            TapSource::Zero
        }
    }
}

/// The history after a chunk: the last `TAPS` samples of the old history
/// followed by the chunk.
pub open spec fn next_history_spec<T>(hist: Seq<T>, data: Seq<T>) -> Seq<T> {
    let all = hist + data;
    all.subrange(all.len() - TAPS as int, all.len() as int)
}

/// The `TAPS`-long history that follows `hist` once `data` has been read.
pub fn next_history<T: Copy>(hist: &[T], data: &[T]) -> (r: Vec<T>)
    requires
        hist@.len() == TAPS,
        data@.len() + TAPS <= usize::MAX,
    ensures
        r@ == next_history_spec(hist@, data@),
{
    let data_len = data.len();
    let mut r: Vec<T> = Vec::with_capacity(TAPS);
    let mut i: usize = 0;
    while i < TAPS
        invariant
            hist@.len() == TAPS,
            data_len == data@.len(),
            data@.len() + TAPS <= usize::MAX,
            i <= TAPS,
            r@.len() == i,
            forall|j: int| 0 <= j < i ==> r@[j] == (hist@ + data@)[data_len + j],
        decreases TAPS - i,
    {
        let j = data_len + i;
        if j < TAPS {
            r.push(hist[j]);
        } else {
            r.push(data[j - TAPS]);
        }
        i = i + 1;
    }
    assert(r@ =~= next_history_spec(hist@, data@));
    r
}

/// Sample `i` of a batch made of `a`, then `b`, then `fill`.
pub open spec fn assembled_at<T>(a: Seq<T>, b: Seq<T>, fill: T, i: int) -> T {
    if i < a.len() {
        a[i]
    } else if i - a.len() < b.len() {
        b[i - a.len()]
    } else {
        fill
    }
}

/// The first `n` samples of `a` followed by `b`, padded with `fill` when the
/// two together are shorter than `n`.
pub fn assemble_batch<T: Copy>(a: &Vec<T>, b: &Vec<T>, n: usize, fill: T) -> (r: Vec<T>)
    ensures
        r@.len() == n,
        forall|i: int| 0 <= i < n ==> r@[i] == assembled_at(a@, b@, fill, i),
{
    let mut r: Vec<T> = Vec::with_capacity(n);
    let mut i: usize = 0;
    while i < n
        invariant
            i <= n,
            r@.len() == i,
            forall|j: int| 0 <= j < i ==> r@[j] == assembled_at(a@, b@, fill, j),
        decreases n - i,
    {
        if i < a.len() {
            r.push(a[i]);
        } else if i - a.len() < b.len() {
            r.push(b[i - a.len()]);
        } else {
            r.push(fill);
        }
        i = i + 1;
    }
    r
}


/// Feeding the history two chunks one after the other leaves it as feeding
/// their concatenation at once: streaming and batch input agree.
pub proof fn history_of_concatenation<T>(hist: Seq<T>, a: Seq<T>, b: Seq<T>)
    requires
        hist.len() == TAPS,
    ensures
        next_history_spec(next_history_spec(hist, a), b) == next_history_spec(hist, a + b),
{
    let h1 = next_history_spec(hist, a);
    let lhs = next_history_spec(h1, b);
    let rhs = next_history_spec(hist, a + b);
    assert(h1.len() == TAPS);
    assert forall|i: int| 0 <= i < TAPS implies lhs[i] == rhs[i] by {
        let k = b.len() + i;
        if k < TAPS {
            assert(lhs[i] == h1[k]);
            assert(h1[k] == (hist + a)[a.len() + k]);
            assert(rhs[i] == (hist + (a + b))[a.len() + b.len() + i]);
        } else {
            assert(lhs[i] == b[k - TAPS]);
            assert(rhs[i] == (hist + (a + b))[a.len() + b.len() + i]);
        }
    }
    assert(lhs =~= rhs);
}

} // verus!
