use vstd::prelude::*;
use vstd::arithmetic::div_mod::lemma_fundamental_div_mod;

verus! {

/// State of the xorshift128 generator behind the Gaussian noise source.
#[derive(Clone, Copy, Debug, PartialEq, Eq)]
pub struct RandnState {
    pub x: u32,
    pub y: u32,
    pub z: u32,
    pub w: u32,
}

impl Default for RandnState {
    fn default() -> (s: Self)
        ensures
            s == (RandnState { x: 0, y: 0, z: 0, w: 0 }),
    {
        RandnState { x: 0, y: 0, z: 0, w: 0 }
    }
}

pub const RANDN_SEED_X: u32 = 123456789;
pub const RANDN_SEED_Y: u32 = 362436069;
pub const RANDN_SEED_Z: u32 = 521288629;
pub const RANDN_SEED_W: u32 = 88675123;

/// The state every noise stream starts from.
pub open spec fn randn_seed() -> RandnState {
    RandnState { x: RANDN_SEED_X, y: RANDN_SEED_Y, z: RANDN_SEED_Z, w: RANDN_SEED_W }
}

/// One xorshift128 transition.
pub open spec fn xorshift_step(s: RandnState) -> RandnState {
    let t = s.x ^ (s.x << 11u32);
    RandnState { x: s.y, y: s.z, z: s.w, w: s.w ^ (s.w >> 19u32) ^ (t ^ (t >> 8u32)) }
}

/// The state after `k` transitions from `s`.
pub open spec fn xorshift_iterate(s: RandnState, k: nat) -> RandnState
    decreases k,
{
    if k == 0 {
        s
    } else {
        xorshift_step(xorshift_iterate(s, (k - 1) as nat))
    }
}

/// Sum of the top 28 bits of the `w` word over the first `k` transitions
/// from `s`.
pub open spec fn randn_draw_sum(s: RandnState, k: nat) -> nat
    decreases k,
{
    if k == 0 {
        0
    } else {
        randn_draw_sum(s, (k - 1) as nat) + (xorshift_iterate(s, k).w >> 4u32) as nat
    }
}

/// Number of uniform draws summed into one approximately Gaussian sample.
pub const RANDN_DRAWS: u32 = 12;

/// Resets `state` to the fixed seed, so that the noise stream repeats.
pub fn randn_reseed(state: &mut RandnState)
    ensures
        *final(state) == randn_seed(),
{
    state.x = RANDN_SEED_X;
    state.y = RANDN_SEED_Y;
    state.z = RANDN_SEED_Z;
    state.w = RANDN_SEED_W;
}

proof fn lemma_draw_bound(w: u32)
    ensures
        (w >> 4u32) < 0x1000_0000,
{
    assert((w >> 4u32) < 0x1000_0000) by (bit_vector);
}

proof fn lemma_draw_sum_bound(s: RandnState, k: nat)
    ensures
        randn_draw_sum(s, k) <= k * 0x0fff_ffff,
    decreases k,
{
    if k > 0 {
        lemma_draw_sum_bound(s, (k - 1) as nat);
        lemma_draw_bound(xorshift_iterate(s, k).w);
    }
}

/// Advances the generator twelve times and returns the sum of the twelve
/// 28-bit draws. The Gaussian sample is this sum scaled by `2^-28` and
/// shifted by `-6`.
pub fn randn_raw(state: &mut RandnState) -> (r: u32)
    ensures
        *final(state) == xorshift_iterate(*old(state), RANDN_DRAWS as nat),
        r as nat == randn_draw_sum(*old(state), RANDN_DRAWS as nat),
        r < 12 * 0x1000_0000,
{
    let ghost s0 = *state;
    let mut k: u32 = 0;
    let mut tmp: u32 = 0;
    while k < RANDN_DRAWS
        invariant
            k <= RANDN_DRAWS,
            *state == xorshift_iterate(s0, k as nat),
            tmp as nat == randn_draw_sum(s0, k as nat),
        decreases RANDN_DRAWS - k,
    {
        let t = state.x ^ (state.x << 11u32);
        state.x = state.y;
        state.y = state.z;
        state.z = state.w;
        state.w = state.w ^ (state.w >> 19u32) ^ (t ^ (t >> 8u32));
        k = k + 1;
        proof {
            lemma_draw_sum_bound(s0, k as nat);
        }
        tmp = tmp + (state.w >> 4u32);
    }
    proof {
        lemma_draw_sum_bound(s0, RANDN_DRAWS as nat);
    }
    tmp
}


/// Samples of padding on each side of the signal during decimation.
pub const DECIMATION_PADDING: usize = 9;

/// First sample kept by decimation of `len` samples by `r`: the one that
/// leaves exactly `(len - 1) / r` further kept samples up to the last one.
pub open spec fn decimation_start(len: int, r: int) -> int {
    len - r * ((len - 1) / r)
}

/// Positions, in the filtered and padded buffer of `len + 18` samples, of
/// the samples that decimation by `r` keeps: every `r`-th sample from
/// `decimation_start(len, r)` while below `len + 9`, each read 8 samples
/// further on.
pub fn decimation_source_indices(len: usize, r: usize) -> (out: Vec<usize>)
    requires
        2 <= r <= 12,
        DECIMATION_PADDING < len,
        len + 3 * DECIMATION_PADDING <= usize::MAX,
    ensures
        out@.len() >= 1,
        forall|k: int|
            0 <= k < out@.len() ==> #[trigger] out@[k] == decimation_start(len as int, r as int) + k
                * r + DECIMATION_PADDING - 1,
        forall|k: int| 0 <= k < out@.len() ==> #[trigger] out@[k] < len + 2 * DECIMATION_PADDING - 1,
        decimation_start(len as int, r as int) + out@.len() * r >= len + DECIMATION_PADDING,
{
    let nout = (len - 1) / r + 1;
    proof {
        lemma_fundamental_div_mod((len - 1) as int, r as int);
        assert(r as int * ((len - 1) as int / r as int) <= len - 1) by (nonlinear_arith)
            requires
                (len - 1) as int == r as int * ((len - 1) as int / r as int) + (len - 1) as int
                    % r as int,
                0 <= (len - 1) as int % r as int,
        ;
    }
    let nbeg = len - r * (nout - 1);
    let ghost start = decimation_start(len as int, r as int);
    assert(nbeg == start);
    let end = len + DECIMATION_PADDING;
    let mut out: Vec<usize> = Vec::new();
    let mut i: usize = nbeg;
    assert(start + out@.len() * r == start) by (nonlinear_arith)
        requires
            out@.len() == 0,
    ;
    while i < end
        invariant
            2 <= r <= 12,
            end == len + DECIMATION_PADDING,
            len + 3 * DECIMATION_PADDING <= usize::MAX,
            1 <= start <= len,
            out@.len() == 0 ==> i == start,
            nbeg == start,
            i == start + out@.len() * r,
            i <= end + r,
            forall|k: int|
                0 <= k < out@.len() ==> #[trigger] out@[k] == start + k * r + DECIMATION_PADDING - 1,
            forall|k: int| 0 <= k < out@.len() ==> #[trigger] out@[k] < end + DECIMATION_PADDING - 1,
        decreases end + r - i,
    {
        out.push(i + DECIMATION_PADDING - 1);
        proof {
            assert(start + (out@.len() - 1) * r == i);
            assert(start + out@.len() * r == i + r) by (nonlinear_arith)
                requires
                    start + (out@.len() - 1) * r == i,
            ;
        }
        i = i + r;
    }
    out
}

} // verus!
