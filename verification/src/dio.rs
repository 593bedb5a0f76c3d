use vstd::prelude::*;

verus! {

/// `1` when `x` is positive, `0` otherwise.
pub fn check_event(x: i32) -> (r: i32)
    ensures
        r == if x > 0 { 1i32 } else { 0i32 },
{
    if x > 0 {
        1
    } else {
        0
    }
}

/// Decimation ratio for a speed setting: `speed` clamped to `1 ..= 12`.
pub fn get_decimation_ratio(speed: i32) -> (r: usize)
    ensures
        1 <= r <= 12,
        r == if speed < 1 { 1 } else if speed > 12 { 12 } else { speed as int },
{
    if speed < 1 {
        1
    } else if speed > 12 {
        12
    } else {
        speed as usize
    }
}

/// Number of `true` flags in `z[lo .. hi)`.
pub open spec fn count_true(z: Seq<bool>, lo: int, hi: int) -> nat
    decreases hi - lo,
{
    if hi <= lo {
        0
    } else {
        count_true(z, lo, hi - 1) + if z[hi - 1] { 1nat } else { 0nat }
    }
}

proof fn lemma_count_true_front(z: Seq<bool>, lo: int, hi: int)
    requires
        lo < hi,
    ensures
        count_true(z, lo, hi) == count_true(z, lo + 1, hi) + if z[lo] { 1nat } else { 0nat },
    decreases hi - lo,
{
    if lo + 1 < hi {
        lemma_count_true_front(z, lo, hi - 1);
        assert(count_true(z, lo + 1, hi) == count_true(z, lo + 1, hi - 1) + if z[hi - 1] {
            1nat
        } else {
            0nat
        });
    } else {
        assert(count_true(z, lo, lo) == 0);
        assert(count_true(z, lo + 1, hi) == 0);
    }
}

proof fn lemma_count_true_bound(z: Seq<bool>, lo: int, hi: int)
    ensures
        count_true(z, lo, hi) <= if hi > lo { hi - lo } else { 0 },
        count_true(z, lo, hi) > 0 <==> exists|j: int| lo <= j < hi && z[j],
    decreases hi - lo,
{
    if hi > lo {
        lemma_count_true_bound(z, lo, hi - 1);
        if count_true(z, lo, hi - 1) > 0 {
            let j = choose|j: int| lo <= j < hi - 1 && z[j];
            assert(lo <= j < hi && z[j]);
        }
    }
}

/// Some frame in `lo ..= hi` is flagged.
pub open spec fn window_has_flag(z: Seq<bool>, lo: int, hi: int) -> bool {
    exists|j: int| lo <= j <= hi && z[j]
}

/// Second clean-up step of the F0 contour: every frame at distance
/// `center = (voice_range_minimum - 1) / 2` or more from both ends that has
/// an unvoiced frame (`is_zero`) within `center` frames of it is replaced
/// by `zero`; all other frames are copied from `f0_step1`.
pub fn fix_step2<T: Copy>(f0_step1: &Vec<T>, is_zero: &Vec<bool>, voice_range_minimum: usize, zero: T) -> (r:
    Vec<T>)
    requires
        is_zero@.len() == f0_step1@.len(),
        voice_range_minimum >= 1,
    ensures
        r@.len() == f0_step1@.len(),
        forall|i: int|
            0 <= i < r@.len() ==> r@[i] == if ({
                let c = (voice_range_minimum - 1) / 2;
                c <= i < f0_step1@.len() - c && window_has_flag(is_zero@, i - c, i + c)
            }) {
                zero
            } else {
                f0_step1@[i]
            },
{
    let len = f0_step1.len();
    let center = (voice_range_minimum - 1) / 2;
    let end = len.saturating_sub(center);
    let mut r: Vec<T> = Vec::with_capacity(len);
    let mut i: usize = 0;
    while i < len
        invariant
            len == f0_step1@.len(),
            len == is_zero@.len(),
            center == (voice_range_minimum - 1) / 2,
            end == if len > center { len - center } else { 0 },
            i <= len,
            r@.len() == i,
            forall|k: int| 0 <= k < i ==> r@[k] == f0_step1@[k],
        decreases len - i,
    {
        r.push(f0_step1[i]);
        i = i + 1;
    }
    if center < end {
        let wlen = if 2 * center + 1 < len { 2 * center + 1 } else { len };
        let mut zeros: usize = 0;
        let mut k: usize = 0;
        while k < wlen
            invariant
                wlen <= len,
                len == is_zero@.len(),
                k <= wlen,
                zeros == count_true(is_zero@, 0, k as int),
                zeros <= k,
            decreases wlen - k,
        {
            if is_zero[k] {
                zeros = zeros + 1;
            }
            k = k + 1;
        }
        let mut i: usize = center;
        while i < end
            invariant
                len == f0_step1@.len(),
                len == is_zero@.len(),
                r@.len() == len,
                center == (voice_range_minimum - 1) / 2,
                end == len - center,
                center < end,
                center <= i <= end,
                zeros == count_true(
                    is_zero@,
                    i - center,
                    if i + center + 1 < len {
                        i + center + 1
                    } else {
                        len as int
                    },
                ),
                forall|k: int|
                    0 <= k < len ==> r@[k] == if center <= k < i && window_has_flag(
                        is_zero@,
                        k - center,
                        k + center,
                    ) {
                        zero
                    } else {
                        f0_step1@[k]
                    },
            decreases end - i,
        {
            proof {
                lemma_count_true_bound(is_zero@, i - center, i + center + 1);
            }
            if zeros > 0 {
                r.set(i, zero);
            }
            proof {
                lemma_count_true_front(is_zero@, i - center, i + center + 1);
            }
            if is_zero[i - center] {
                zeros = zeros - 1;
            }
            if i + center + 1 < len && is_zero[i + center + 1] {
                zeros = zeros + 1;
            }
            proof {
                if i + center + 1 < len {
                    assert(count_true(is_zero@, i - center + 1, i + center + 2) == count_true(
                        is_zero@,
                        i - center + 1,
                        i + center + 1,
                    ) + if is_zero@[i + center + 1] {
                        1nat
                    } else {
                        0nat
                    });
                }
                lemma_count_true_bound(is_zero@, i - center + 1, i + center + 2);
            }
            i = i + 1;
        }
    }
    r
}


/// Last voiced frame of each voiced section that ends before frame `n`, in
/// order: frames `i - 1` where frame `i - 1` is voiced and frame `i` is not.
pub open spec fn section_ends(is_zero: Seq<bool>, n: int) -> Seq<usize>
    decreases n,
{
    if n <= 1 {
        Seq::empty()
    } else if is_zero[n - 1] && !is_zero[n - 2] {
        section_ends(is_zero, n - 1).push((n - 2) as usize)
    } else {
        section_ends(is_zero, n - 1)
    }
}

/// First voiced frame of each voiced section that starts before frame `n`,
/// in order: frames `i` where frame `i` is voiced and frame `i - 1` is not.
pub open spec fn section_starts(is_zero: Seq<bool>, n: int) -> Seq<usize>
    decreases n,
{
    if n <= 1 {
        Seq::empty()
    } else if is_zero[n - 2] && !is_zero[n - 1] {
        section_starts(is_zero, n - 1).push((n - 1) as usize)
    } else {
        section_starts(is_zero, n - 1)
    }
}

proof fn lemma_sections_len(is_zero: Seq<bool>, n: int)
    ensures
        section_starts(is_zero, n).len() <= if n > 1 { n - 1 } else { 0 },
        section_ends(is_zero, n).len() <= if n > 1 { n - 1 } else { 0 },
    decreases n,
{
    if n > 1 {
        lemma_sections_len(is_zero, n - 1);
    }
}

proof fn lemma_section_starts_facts(is_zero: Seq<bool>, n: int)
    requires
        n <= is_zero.len() <= usize::MAX,
    ensures
        ({
            let st = section_starts(is_zero, n);
            &&& forall|i: int, j: int| 0 <= i < j < st.len() ==> st[i] < st[j]
            &&& forall|i: int|
                0 <= i < st.len() ==> 1 <= #[trigger] st[i] < n && is_zero[st[i] - 1]
                    && !is_zero[st[i] as int]
            &&& forall|p: int|
                1 <= p < n && is_zero[p - 1] && !#[trigger] is_zero[p] ==> exists|i: int|
                    0 <= i < st.len() && #[trigger] st[i] == p
        }),
    decreases n,
{
    if n > 1 {
        lemma_section_starts_facts(is_zero, n - 1);
        let prev = section_starts(is_zero, n - 1);
        let st = section_starts(is_zero, n);
        assert forall|p: int| 1 <= p < n && is_zero[p - 1] && !#[trigger] is_zero[p] implies exists|i: int|
            0 <= i < st.len() && #[trigger] st[i] == p by {
            if p < n - 1 {
                let i = choose|i: int| 0 <= i < prev.len() && #[trigger] prev[i] == p;
                assert(st[i] == p);
            } else {
                assert(st[st.len() - 1] == p);
            }
        }
    }
}

proof fn lemma_section_ends_facts(is_zero: Seq<bool>, n: int)
    requires
        n <= is_zero.len() <= usize::MAX,
    ensures
        ({
            let ed = section_ends(is_zero, n);
            &&& forall|i: int, j: int| 0 <= i < j < ed.len() ==> ed[i] < ed[j]
            &&& forall|i: int|
                0 <= i < ed.len() ==> #[trigger] ed[i] + 1 < n && !is_zero[ed[i] as int]
                    && is_zero[ed[i] + 1]
            &&& forall|p: int|
                0 <= p && p + 1 < n && !#[trigger] is_zero[p] && is_zero[p + 1] ==> exists|i: int|
                    0 <= i < ed.len() && #[trigger] ed[i] == p
        }),
    decreases n,
{
    if n > 1 {
        lemma_section_ends_facts(is_zero, n - 1);
        let prev = section_ends(is_zero, n - 1);
        let ed = section_ends(is_zero, n);
        assert forall|p: int| 0 <= p && p + 1 < n && !#[trigger] is_zero[p] && is_zero[p + 1] implies exists|
            i: int,
        | 0 <= i < ed.len() && #[trigger] ed[i] == p by {
            if p + 1 < n - 1 {
                let i = choose|i: int| 0 <= i < prev.len() && #[trigger] prev[i] == p;
                assert(ed[i] == p);
            } else {
                assert(ed[ed.len() - 1] == p);
            }
        }
    }
}

/// The recorded section starts are, in increasing order, exactly the frames
/// `p >= 1` that are voiced while frame `p - 1` is not; the recorded section
/// ends are, in increasing order, exactly the frames `p` that are voiced
/// while frame `p + 1` exists and is not.
pub proof fn voiced_sections_are_voicing_changes(is_zero: Seq<bool>, p: int)
    requires
        is_zero.len() <= usize::MAX,
    ensures
        ({
            let n = is_zero.len() as int;
            let st = section_starts(is_zero, n);
            let ed = section_ends(is_zero, n);
            &&& (exists|i: int| 0 <= i < st.len() && #[trigger] st[i] == p) <==> (1 <= p < n
                && is_zero[p - 1] && !is_zero[p])
            &&& (exists|i: int| 0 <= i < ed.len() && #[trigger] ed[i] == p) <==> (0 <= p && p + 1
                < n && !is_zero[p] && is_zero[p + 1])
            &&& forall|i: int, j: int| 0 <= i < j < st.len() ==> st[i] < st[j]
            &&& forall|i: int, j: int| 0 <= i < j < ed.len() ==> ed[i] < ed[j]
        }),
{
    lemma_section_starts_facts(is_zero, is_zero.len() as int);
    lemma_section_ends_facts(is_zero, is_zero.len() as int);
}

/// Records where the voiced sections of a contour start and end. `is_zero`
/// flags the unvoiced frames. The first frame of each section goes to
/// `positive_index` and the last frame of each section to
/// `negative_index`; the two counts are returned in that order.
pub fn get_number_of_voiced_sections(
    is_zero: &Vec<bool>,
    positive_index: &mut Vec<usize>,
    negative_index: &mut Vec<usize>,
) -> (r: (usize, usize))
    requires
        old(positive_index)@.len() >= is_zero@.len(),
        old(negative_index)@.len() >= is_zero@.len(),
    ensures
        final(positive_index)@.len() == old(positive_index)@.len(),
        final(negative_index)@.len() == old(negative_index)@.len(),
        r.0 == section_starts(is_zero@, is_zero@.len() as int).len(),
        r.1 == section_ends(is_zero@, is_zero@.len() as int).len(),
        final(positive_index)@.subrange(0, r.0 as int) == section_starts(
            is_zero@,
            is_zero@.len() as int,
        ),
        final(negative_index)@.subrange(0, r.1 as int) == section_ends(
            is_zero@,
            is_zero@.len() as int,
        ),
        forall|k: int|
            r.0 <= k < old(positive_index)@.len() ==> final(positive_index)@[k] == old(
                positive_index,
            )@[k],
        forall|k: int|
            r.1 <= k < old(negative_index)@.len() ==> final(negative_index)@[k] == old(
                negative_index,
            )@[k],
{
    let len = is_zero.len();
    let mut pc: usize = 0;
    let mut nc: usize = 0;
    let mut i: usize = 1;
    while i < len
        invariant
            len == is_zero@.len(),
            positive_index@.len() == old(positive_index)@.len(),
            negative_index@.len() == old(negative_index)@.len(),
            positive_index@.len() >= len,
            negative_index@.len() >= len,
            1 <= i,
            i <= len || i == 1,
            pc == section_starts(is_zero@, i as int).len(),
            nc == section_ends(is_zero@, i as int).len(),
            positive_index@.subrange(0, pc as int) == section_starts(is_zero@, i as int),
            negative_index@.subrange(0, nc as int) == section_ends(is_zero@, i as int),
            forall|k: int|
                pc <= k < positive_index@.len() ==> positive_index@[k] == old(positive_index)@[k],
            forall|k: int|
                nc <= k < negative_index@.len() ==> negative_index@[k] == old(negative_index)@[k],
        decreases len - i,
    {
        proof {
            lemma_sections_len(is_zero@, i as int);
        }
        if is_zero[i] && !is_zero[i - 1] {
            negative_index.set(nc, i - 1);
            nc = nc + 1;
        } else if is_zero[i - 1] && !is_zero[i] {
            positive_index.set(pc, i);
            pc = pc + 1;
        }
        assert(positive_index@.subrange(0, pc as int) =~= section_starts(is_zero@, i + 1));
        assert(negative_index@.subrange(0, nc as int) =~= section_ends(is_zero@, i + 1));
        i = i + 1;
    }
    proof {
        if len == 0 {
            assert(section_starts(is_zero@, 0) =~= section_starts(is_zero@, 1));
            assert(section_ends(is_zero@, 0) =~= section_ends(is_zero@, 1));
        }
    }
    (pc, nc)
}

} // verus!
