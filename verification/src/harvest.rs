use vstd::prelude::*;
use crate::common::{i32_as_usize, i32_as_usize_spec};

verus! {

/// Voicing of frame `i` as the boundary search sees it: the first and last
/// frames always count as unvoiced, so that every voiced section has both
/// a start and an end.
pub open spec fn vuv_at(voiced: Seq<bool>, i: int) -> bool {
    0 < i < voiced.len() - 1 && voiced[i]
}

/// Frame `i` (with `1 <= i`) differs in voicing from frame `i - 1`.
pub open spec fn is_transition(voiced: Seq<bool>, i: int) -> bool {
    vuv_at(voiced, i) != vuv_at(voiced, i - 1)
}

/// The frames `1 <= i < n` at which voicing changes, in increasing order.
pub open spec fn transitions(voiced: Seq<bool>, n: int) -> Seq<int>
    decreases n,
{
    if n <= 1 {
        Seq::empty()
    } else if is_transition(voiced, n - 1) {
        transitions(voiced, n - 1).push(n - 1)
    } else {
        transitions(voiced, n - 1)
    }
}

/// The transitions below `i` are a prefix of those below `n >= i`.
proof fn lemma_transitions_prefix(voiced: Seq<bool>, i: int, n: int)
    requires
        i <= n,
    ensures
        transitions(voiced, i).len() <= transitions(voiced, n).len(),
        forall|k: int|
            0 <= k < transitions(voiced, i).len() ==> #[trigger] transitions(voiced, n)[k]
                == transitions(voiced, i)[k],
    decreases n - i,
{
    if i < n {
        lemma_transitions_prefix(voiced, i, n - 1);
    }
}

/// The number of transitions below `n` is odd exactly when frame `n - 1`
/// is voiced.
proof fn lemma_transition_parity(voiced: Seq<bool>, n: int)
    requires
        1 <= n,
    ensures
        (transitions(voiced, n).len() % 2 == 1) == vuv_at(voiced, n - 1),
    decreases n,
{
    if n > 1 {
        lemma_transition_parity(voiced, n - 1);
    }
}

/// Transitions below `n` come before index `|transitions(n)|` of the full
/// list; the rest are at or after `n`.
proof fn lemma_transitions_split(voiced: Seq<bool>, n: int, m: int, k: int)
    requires
        n <= m,
        0 <= k < transitions(voiced, m).len(),
    ensures
        k < transitions(voiced, n).len() ==> transitions(voiced, m)[k] < n,
        k >= transitions(voiced, n).len() ==> transitions(voiced, m)[k] >= n,
        transitions(voiced, m)[k] < m,
    decreases m,
{
    if n < m {
        let prev = transitions(voiced, m - 1);
        if k < prev.len() {
            lemma_transitions_split(voiced, n, m - 1, k);
        } else {
            lemma_transitions_prefix(voiced, n, m - 1);
        }
    } else {
        if m > 1 {
            let prev = transitions(voiced, m - 1);
            if k < prev.len() {
                lemma_transitions_split(voiced, m - 1, m - 1, k);
            }
        }
    }
}

/// The transitions below `m` are listed in strictly increasing order.
proof fn lemma_transitions_increasing(voiced: Seq<bool>, m: int, i: int, j: int)
    requires
        0 <= i < j < transitions(voiced, m).len(),
    ensures
        transitions(voiced, m)[i] < transitions(voiced, m)[j],
    decreases m,
{
    let prev = transitions(voiced, m - 1);
    if j < prev.len() {
        lemma_transitions_increasing(voiced, m - 1, i, j);
    } else {
        lemma_transitions_split(voiced, m - 1, m - 1, i);
    }
}

/// `|transitions(n + 1)|` exceeds `|transitions(n)|` by at most one.
proof fn lemma_transitions_step(voiced: Seq<bool>, n: int)
    requires
        n >= 1,
    ensures
        transitions(voiced, n + 1).len() <= transitions(voiced, n).len() + 1,
{
}

/// Frame `f` is voiced exactly when an odd number of transitions lie at or
/// below it; with the full list `t`, that number is `c` whenever
/// `t[c - 1] <= f < t[c]`.
proof fn lemma_count_below(voiced: Seq<bool>, f: int, c: int)
    requires
        1 <= f + 1 <= voiced.len(),
        0 <= c <= transitions(voiced, voiced.len() as int).len(),
        c > 0 ==> transitions(voiced, voiced.len() as int)[c - 1] <= f,
        c < transitions(voiced, voiced.len() as int).len() ==> transitions(
            voiced,
            voiced.len() as int,
        )[c] > f,
    ensures
        transitions(voiced, f + 1).len() == c,
{
    let n = voiced.len() as int;
    let small = transitions(voiced, f + 1).len() as int;
    lemma_transitions_prefix(voiced, f + 1, n);
    if small < c {
        lemma_transitions_split(voiced, f + 1, n, c - 1);
    }
    if small > c {
        lemma_transitions_split(voiced, f + 1, n, c);
    }
}

/// A contour's voiced sections are delimited by an even number of
/// transitions: the first and last frames count as unvoiced, so every
/// section that opens also closes.
pub proof fn boundary_count_is_even(voiced: Seq<bool>)
    ensures
        transitions(voiced, voiced.len() as int).len() % 2 == 0,
{
    if voiced.len() >= 1 {
        lemma_transition_parity(voiced, voiced.len() as int);
    }
}

/// Boundary entries `2k` and `2k + 1` delimit a voiced section: every frame
/// from the first entry to the second is voiced, the frame before it and
/// the frame after it are not, and both lie strictly inside the contour.
pub proof fn boundary_pair_is_voiced_section(voiced: Seq<bool>, k: int)
    requires
        0 <= k,
        2 * k + 1 < transitions(voiced, voiced.len() as int).len(),
    ensures
        ({
            let t = transitions(voiced, voiced.len() as int);
            let s = boundary_entry(t, 2 * k);
            let e = boundary_entry(t, 2 * k + 1);
            &&& 0 < s <= e < voiced.len() - 1
            &&& forall|f: int| s <= f <= e ==> vuv_at(voiced, f)
            &&& !vuv_at(voiced, s - 1)
            &&& !vuv_at(voiced, e + 1)
        }),
{
    let n = voiced.len() as int;
    let t = transitions(voiced, n);
    let ts = t[2 * k];
    let te = t[2 * k + 1];
    lemma_transitions_increasing(voiced, n, 2 * k, 2 * k + 1);
    lemma_transitions_split(voiced, 0, n, 2 * k);
    lemma_transitions_split(voiced, 0, n, 2 * k + 1);
    assert(ts >= 1) by {
        lemma_transitions_split(voiced, 1, n, 2 * k);
        assert(transitions(voiced, 1).len() == 0);
    }
    assert forall|f: int| ts <= f <= te - 1 implies vuv_at(voiced, f) by {
        lemma_count_below(voiced, f, 2 * k + 1);
        lemma_transition_parity(voiced, f + 1);
    }
    lemma_count_below(voiced, ts, 2 * k + 1);
    lemma_transitions_step(voiced, ts);
    lemma_transitions_prefix(voiced, ts, n);
    assert(transitions(voiced, ts).len() <= 2 * k) by {
        if transitions(voiced, ts).len() > 2 * k {
            lemma_transitions_split(voiced, ts, n, 2 * k);
        }
    }
    lemma_transition_parity(voiced, ts);
    lemma_count_below(voiced, te - 1, 2 * k + 1);
    lemma_transitions_step(voiced, te);
    assert(transitions(voiced, te + 1).len() >= 2 * k + 2) by {
        lemma_transitions_prefix(voiced, te + 1, n);
        if transitions(voiced, te + 1).len() < 2 * k + 2 {
            lemma_transitions_split(voiced, te + 1, n, 2 * k + 1);
        }
    }
    if te + 1 <= n {
        lemma_transition_parity(voiced, te + 1);
    }
}

/// A contour of `n` frames has fewer than `n` transitions.
proof fn lemma_transitions_len(voiced: Seq<bool>, n: int)
    ensures
        transitions(voiced, n).len() <= if n > 1 { n - 1 } else { 0 },
    decreases n,
{
    if n > 1 {
        lemma_transitions_len(voiced, n - 1);
    }
}

/// Entry `k` of the boundary list: even entries are the first frame of a
/// voiced section, odd entries its last frame.
pub open spec fn boundary_entry(t: Seq<int>, k: int) -> int {
    t[k] - k % 2
}

/// Lists the voiced sections of a contour whose voicing is `voiced` (one
/// flag per frame, `true` where F0 is positive). Entries `2k` and `2k + 1`
/// of `boundary_list` receive the first and the last frame of section `k`;
/// at most `boundary_list.len()` entries are written, and their number is
/// returned.
pub fn get_boundary_list(voiced: &Vec<bool>, boundary_list: &mut Vec<i32>) -> (n: usize)
    requires
        voiced@.len() <= i32::MAX,
    ensures
        final(boundary_list)@.len() == old(boundary_list)@.len(),
        n == if transitions(voiced@, voiced@.len() as int).len() < old(boundary_list)@.len() {
            transitions(voiced@, voiced@.len() as int).len()
        } else {
            old(boundary_list)@.len() as nat
        },
        forall|k: int|
            0 <= k < n ==> final(boundary_list)@[k] == boundary_entry(
                transitions(voiced@, voiced@.len() as int),
                k,
            ),
        forall|k: int|
            n <= k < old(boundary_list)@.len() ==> final(boundary_list)@[k] == old(
                boundary_list,
            )@[k],
{
    let len = voiced.len();
    let cap = boundary_list.len();
    let mut count: usize = 0;
    let mut prev: bool = false;
    let mut i: usize = 1;
    while i < len
        invariant
            len == voiced@.len(),
            len <= i32::MAX,
            cap == boundary_list@.len(),
            cap == old(boundary_list)@.len(),
            1 <= i,
            i <= len || i == 1,
            count <= cap,
            count == transitions(voiced@, i as int).len(),
            prev == vuv_at(voiced@, i - 1),
            forall|k: int|
                0 <= k < count ==> boundary_list@[k] == boundary_entry(
                    transitions(voiced@, i as int),
                    k,
                ),
            forall|k: int| count <= k < cap ==> boundary_list@[k] == old(boundary_list)@[k],
        decreases len - i,
    {
        let cur = 0 < i && i + 1 < len && voiced[i];
        if cur != prev {
            if count < cap {
                let entry = (i as i32) - ((count % 2) as i32);
                boundary_list.set(count, entry);
                count = count + 1;
            } else {
                proof {
                    lemma_transitions_prefix(voiced@, i + 1, len as int);
                    lemma_transitions_prefix(voiced@, i as int, len as int);
                }
                return count;
            }
        }
        proof {
            let t0 = transitions(voiced@, i as int);
            let t1 = transitions(voiced@, i + 1);
            assert forall|k: int| 0 <= k < t0.len() implies t1[k] == t0[k] by {}
        }
        prev = cur;
        i = i + 1;
    }
    proof {
        if len >= 1 {
            assert(i == len);
            assert(transitions(voiced@, i as int) =~= transitions(voiced@, len as int));
        } else {
            assert(i == 1);
            assert(transitions(voiced@, 0) =~= transitions(voiced@, 1));
            assert(transitions(voiced@, i as int) =~= transitions(voiced@, len as int));
        }
    }
    count
}


/// Sort key of section `s`: its first frame, boundary entry `2s`.
pub open spec fn section_start(boundary_list: Seq<i32>, s: usize) -> i32 {
    boundary_list[2 * s]
}

/// One pass of the section ordering: the entry at position `i` is compared
/// with positions `j, j - 1, ...` and swapped with each one whose section
/// starts later, until one that does not.
pub open spec fn order_pass(boundary_list: Seq<i32>, a: Seq<usize>, i: int, j: int) -> Seq<usize>
    decreases j + 1,
{
    if j < 0 {
        a
    } else if section_start(boundary_list, a[j]) > section_start(boundary_list, a[i]) {
        order_pass(boundary_list, a.update(i, a[j]).update(j, a[i]), i, j - 1)
    } else {
        a
    }
}

/// The ordering after the passes for positions `1 .. n - 1`, starting from `a`.
pub open spec fn order_passes(boundary_list: Seq<i32>, a: Seq<usize>, n: int) -> Seq<usize>
    decreases n,
{
    if n <= 1 {
        a
    } else {
        order_pass(boundary_list, order_passes(boundary_list, a, n - 1), n - 1, n - 2)
    }
}

/// `0, 1, ..., n - 1`.
pub open spec fn identity_order(n: nat) -> Seq<usize> {
    Seq::new(n, |i: int| i as usize)
}

/// The order in which the sections are merged.
pub open spec fn sorted_order_spec(boundary_list: Seq<i32>, n: nat) -> Seq<usize> {
    order_passes(boundary_list, identity_order(n), n as int)
}

/// `a` lists each of `0 .. n` exactly once.
pub open spec fn is_permutation_of_range(a: Seq<usize>, n: nat) -> bool {
    &&& a.len() == n
    &&& forall|i: int| 0 <= i < n ==> a[i] < n
    &&& forall|i: int, j: int| 0 <= i < j < n ==> a[i] != a[j]
}

proof fn lemma_pass_keeps_permutation(boundary_list: Seq<i32>, a: Seq<usize>, i: int, j: int, n: nat)
    requires
        is_permutation_of_range(a, n),
        0 <= i < n,
        j < i,
    ensures
        is_permutation_of_range(order_pass(boundary_list, a, i, j), n),
    decreases j + 1,
{
    if j >= 0 && section_start(boundary_list, a[j]) > section_start(boundary_list, a[i]) {
        let b = a.update(i, a[j]).update(j, a[i]);
        assert forall|x: int, y: int| 0 <= x < y < n implies b[x] != b[y] by {
            assert(a[x] != a[y]);
        }
        lemma_pass_keeps_permutation(boundary_list, b, i, j - 1, n);
    }
}

proof fn lemma_passes_keep_permutation(boundary_list: Seq<i32>, a: Seq<usize>, m: int, n: nat)
    requires
        is_permutation_of_range(a, n),
        m <= n,
    ensures
        is_permutation_of_range(order_passes(boundary_list, a, m), n),
    decreases m,
{
    if m > 1 {
        lemma_passes_keep_permutation(boundary_list, a, m - 1, n);
        lemma_pass_keeps_permutation(
            boundary_list,
            order_passes(boundary_list, a, m - 1),
            m - 1,
            m - 2,
            n,
        );
    }
}

/// The merge order names every section exactly once.
pub proof fn sorted_order_is_permutation(boundary_list: Seq<i32>, n: nat)
    requires
        n <= usize::MAX,
    ensures
        is_permutation_of_range(sorted_order_spec(boundary_list, n), n),
{
    lemma_identity_is_permutation(n);
    lemma_passes_keep_permutation(boundary_list, identity_order(n), n as int, n);
}

proof fn lemma_identity_is_permutation(n: nat)
    requires
        n <= usize::MAX,
    ensures
        is_permutation_of_range(identity_order(n), n),
{
    assert forall|i: int, j: int| 0 <= i < j < n implies identity_order(n)[i] != identity_order(
        n,
    )[j] by {}
}

/// Sections with equal starts appear in `a` in increasing index order.
pub open spec fn keeps_ties_in_order(boundary_list: Seq<i32>, a: Seq<usize>) -> bool {
    forall|x: int, y: int|
        0 <= x < y < a.len() && section_start(boundary_list, #[trigger] a[x]) == section_start(
            boundary_list,
            #[trigger] a[y],
        ) ==> a[x] < a[y]
}

proof fn lemma_pass_keeps_ties(boundary_list: Seq<i32>, a: Seq<usize>, i: int, j: int)
    requires
        keeps_ties_in_order(boundary_list, a),
        0 <= i < a.len(),
        j < i,
        forall|m: int|
            j < m < i ==> section_start(boundary_list, #[trigger] a[m]) < section_start(
                boundary_list,
                a[i],
            ),
    ensures
        keeps_ties_in_order(boundary_list, order_pass(boundary_list, a, i, j)),
    decreases j + 1,
{
    if j >= 0 && section_start(boundary_list, a[j]) > section_start(boundary_list, a[i]) {
        let b = a.update(i, a[j]).update(j, a[i]);
        assert forall|x: int, y: int|
            0 <= x < y < b.len() && section_start(boundary_list, #[trigger] b[x])
                == section_start(boundary_list, #[trigger] b[y]) implies b[x] < b[y] by {
            if x == j && y == i {
                assert(false);
            } else if x == j && j < y < i {
                assert(section_start(boundary_list, a[y]) < section_start(boundary_list, a[i]));
                assert(false);
            } else if x == j && y > i {
                assert(a[i] < a[y]);
            } else if j < x < i && y == i {
                assert(section_start(boundary_list, a[x]) < section_start(boundary_list, a[i]));
                assert(false);
            } else if x < j && y == i {
                assert(a[x] < a[j]);
            } else if x < j && y == j {
                assert(a[x] < a[i]);
            } else if x == i {
                assert(a[j] < a[y]);
            } else if y == j {
                assert(a[x] < a[i]);
            } else if y == i {
                assert(a[x] < a[j]);
            } else {
                assert(a[x] < a[y]);
            }
        }
        assert forall|m: int| j - 1 < m < i implies section_start(boundary_list, #[trigger] b[m])
            < section_start(boundary_list, b[i]) by {
            if m != j {
                assert(section_start(boundary_list, a[m]) < section_start(boundary_list, a[i]));
            }
        }
        lemma_pass_keeps_ties(boundary_list, b, i, j - 1);
    }
}

proof fn lemma_passes_keep_ties(boundary_list: Seq<i32>, a: Seq<usize>, m: int)
    requires
        keeps_ties_in_order(boundary_list, a),
        m <= a.len(),
    ensures
        keeps_ties_in_order(boundary_list, order_passes(boundary_list, a, m)),
        order_passes(boundary_list, a, m).len() == a.len(),
    decreases m,
{
    if m > 1 {
        lemma_passes_keep_ties(boundary_list, a, m - 1);
        lemma_pass_len(boundary_list, order_passes(boundary_list, a, m - 1), m - 1, m - 2);
        lemma_pass_keeps_ties(boundary_list, order_passes(boundary_list, a, m - 1), m - 1, m - 2);
    }
}

proof fn lemma_pass_len(boundary_list: Seq<i32>, a: Seq<usize>, i: int, j: int)
    requires
        0 <= i < a.len(),
        j < i,
    ensures
        order_pass(boundary_list, a, i, j).len() == a.len(),
    decreases j + 1,
{
    if j >= 0 && section_start(boundary_list, a[j]) > section_start(boundary_list, a[i]) {
        lemma_pass_len(boundary_list, a.update(i, a[j]).update(j, a[i]), i, j - 1);
    }
}

/// Sections that start on the same frame keep their relative order in the
/// merge order: ties are never reordered.
pub proof fn sorted_order_keeps_ties(boundary_list: Seq<i32>, n: nat)
    requires
        n <= usize::MAX,
    ensures
        keeps_ties_in_order(boundary_list, sorted_order_spec(boundary_list, n)),
{
    lemma_identity_is_permutation(n);
    assert(keeps_ties_in_order(boundary_list, identity_order(n)));
    lemma_passes_keep_ties(boundary_list, identity_order(n), n as int);
}

proof fn lemma_passes_keep_ordered_identity(boundary_list: Seq<i32>, n: nat, m: int)
    requires
        m <= n <= usize::MAX,
        forall|s: int|
            0 <= s && s + 1 < n ==> #[trigger] boundary_list[2 * s] <= boundary_list[2 * s + 2],
    ensures
        order_passes(boundary_list, identity_order(n), m) == identity_order(n),
    decreases m,
{
    if m > 1 {
        lemma_passes_keep_ordered_identity(boundary_list, n, m - 1);
        let a = identity_order(n);
        assert(a[m - 2] == (m - 2) as usize);
        assert(a[m - 1] == (m - 1) as usize);
        assert(boundary_list[2 * (m - 2)] <= boundary_list[2 * (m - 2) + 2]);
        assert(2 * ((m - 1) as usize) == 2 * (m - 2) + 2);
    }
}

/// Sections whose first frames (entries `2s` of the boundary list) are
/// already in non-decreasing order are merged in their own order: nothing
/// is moved.
pub proof fn sorted_order_keeps_ordered_sections(boundary_list: Seq<i32>, n: nat)
    requires
        n <= usize::MAX,
        2 * n <= boundary_list.len(),
        forall|s: int|
            0 <= s && s + 1 < n ==> #[trigger] boundary_list[2 * s] <= boundary_list[2 * s + 2],
    ensures
        sorted_order_spec(boundary_list, n).len() == n,
        forall|i: int| 0 <= i < n ==> sorted_order_spec(boundary_list, n)[i] == i,
{
    lemma_passes_keep_ordered_identity(boundary_list, n, n as int);
}

/// Of two sections, the one that starts later (by entries `0` and `2` of
/// the boundary list) goes second: they are swapped exactly when the first
/// starts after the second.
pub proof fn sorted_order_of_two_sections(boundary_list: Seq<i32>)
    requires
        4 <= boundary_list.len(),
    ensures
        sorted_order_spec(boundary_list, 2) == if boundary_list[0] > boundary_list[2] {
            seq![1usize, 0usize]
        } else {
            seq![0usize, 1usize]
        },
{
    let a = identity_order(2);
    assert(a[0] == 0usize && a[1] == 1usize);
    assert(order_passes(boundary_list, a, 1) == a);
    if boundary_list[0] > boundary_list[2] {
        let b = a.update(1, a[0]).update(0, a[1]);
        assert(order_pass(boundary_list, b, 1, -1) == b);
        assert(b =~= seq![1usize, 0usize]);
    } else {
        assert(a =~= seq![0usize, 1usize]);
    }
}

proof fn lemma_pass_rotates(boundary_list: Seq<i32>, a: Seq<usize>, i: int, j: int, j0: int)
    requires
        0 <= j0 <= j < i < a.len(),
        forall|k: int|
            j0 <= k < j ==> boundary_list[2 * a[k]] > #[trigger] boundary_list[2 * a[k + 1]],
        boundary_list[2 * a[j]] > boundary_list[2 * a[i]],
        j0 == 0 || boundary_list[2 * a[j0 - 1]] <= boundary_list[2 * a[j0]],
    ensures
        order_pass(boundary_list, a, i, j) == Seq::new(
            a.len(),
            |k: int|
                if j0 <= k < j {
                    a[k + 1]
                } else if k == j {
                    a[i]
                } else if k == i {
                    a[j0]
                } else {
                    a[k]
                },
        ),
    decreases j,
{
    let b = a.update(i, a[j]).update(j, a[i]);
    let expected = Seq::new(
        a.len(),
        |k: int|
            if j0 <= k < j {
                a[k + 1]
            } else if k == j {
                a[i]
            } else if k == i {
                a[j0]
            } else {
                a[k]
            },
    );
    if j0 == j {
        if j >= 1 {
            assert(b[j - 1] == a[j - 1]);
            assert(b[i] == a[j]);
        }
        assert(order_pass(boundary_list, b, i, j - 1) == b);
        assert(b =~= expected);
    } else {
        assert forall|k: int| j0 <= k < j - 1 implies boundary_list[2 * b[k]] > #[trigger] boundary_list[
            2 * b[k + 1]] by {
            assert(b[k] == a[k]);
            assert(b[k + 1] == a[k + 1]);
        }
        assert(boundary_list[2 * a[j - 1]] > boundary_list[2 * a[(j - 1) + 1]]);
        if j0 > 0 {
            assert(b[j0 - 1] == a[j0 - 1]);
            assert(b[j0] == a[j0]);
        }
        lemma_pass_rotates(boundary_list, b, i, j - 1, j0);
        assert(order_pass(boundary_list, a, i, j) == order_pass(boundary_list, b, i, j - 1));
        assert(order_pass(boundary_list, b, i, j - 1) =~= expected);
    }
}

/// One merge-order pass for position `i` moves the section at the head of
/// the run of strictly falling starts (entries `2s` of the boundary list)
/// that ends at position `i` to position `i`, and shifts the rest of that
/// run one place to the front; everything else stays where it is. With no
/// falling start before position `i`, nothing moves.
pub proof fn merge_pass_rotates_falling_run(boundary_list: Seq<i32>, a: Seq<usize>, i: int, j0: int)
    requires
        0 <= j0 <= i < a.len(),
        forall|k: int|
            j0 <= k < i ==> boundary_list[2 * a[k]] > #[trigger] boundary_list[2 * a[k + 1]],
        j0 == 0 || boundary_list[2 * a[j0 - 1]] <= boundary_list[2 * a[j0]],
    ensures
        order_pass(boundary_list, a, i, i - 1) == a.subrange(0, j0) + a.subrange(j0 + 1, i + 1)
            + seq![a[j0]] + a.subrange(i + 1, a.len() as int),
{
    let r = a.subrange(0, j0) + a.subrange(j0 + 1, i + 1) + seq![a[j0]] + a.subrange(
        i + 1,
        a.len() as int,
    );
    if j0 == i {
        assert(r =~= a);
    } else {
        assert(boundary_list[2 * a[i - 1]] > boundary_list[2 * a[(i - 1) + 1]]);
        lemma_pass_rotates(boundary_list, a, i, i - 1, j0);
        assert(order_pass(boundary_list, a, i, i - 1) =~= r);
    }
}

/// Orders the first `number_of_sections` sections for merging, by the
/// frame at which each starts (entry `2s` of `boundary_list`), into the
/// first `number_of_sections` entries of `order`.
pub fn make_sorted_order(boundary_list: &Vec<i32>, number_of_sections: usize, order: &mut Vec<usize>)
    requires
        number_of_sections <= old(order)@.len(),
        2 * number_of_sections <= boundary_list@.len(),
    ensures
        final(order)@.len() == old(order)@.len(),
        final(order)@.subrange(0, number_of_sections as int) == sorted_order_spec(
            boundary_list@,
            number_of_sections as nat,
        ),
        forall|k: int|
            number_of_sections <= k < old(order)@.len() ==> final(order)@[k] == old(order)@[k],
{
    let ns = number_of_sections;
    let ghost bl = boundary_list@;
    let mut k: usize = 0;
    while k < ns
        invariant
            ns <= order@.len(),
            order@.len() == old(order)@.len(),
            k <= ns,
            forall|t: int| 0 <= t < k ==> order@[t] == t,
            forall|t: int| ns <= t < order@.len() ==> order@[t] == old(order)@[t],
        decreases ns - k,
    {
        order.set(k, k);
        k = k + 1;
    }
    assert(order@.subrange(0, ns as int) =~= identity_order(ns as nat));
    proof {
        sorted_order_is_permutation(bl, ns as nat);
        lemma_identity_is_permutation(ns as nat);
    }
    let bl_len = boundary_list.len();
    assert(2 * ns <= bl_len);
    let mut i: usize = 1;
    while i < ns
        invariant
            bl == boundary_list@,
            2 * ns <= bl.len(),
            2 * ns <= usize::MAX,
            ns <= order@.len(),
            order@.len() == old(order)@.len(),
            1 <= i,
            i <= ns || ns == 0,
            order@.subrange(0, ns as int) == order_passes(bl, identity_order(ns as nat), i as int),
            forall|t: int| ns <= t < order@.len() ==> order@[t] == old(order)@[t],
        decreases ns - i,
    {
        let ghost start = order@.subrange(0, ns as int);
        proof {
            lemma_identity_is_permutation(ns as nat);
            lemma_passes_keep_permutation(bl, identity_order(ns as nat), i as int, ns as nat);
        }
        let mut j: usize = i;
        let mut done = false;
        while j > 0 && !done
            invariant
                bl == boundary_list@,
                2 * ns <= bl.len(),
                2 * ns <= usize::MAX,
                ns <= order@.len(),
                order@.len() == old(order)@.len(),
                0 < i < ns,
                j <= i,
                is_permutation_of_range(order@.subrange(0, ns as int), ns as nat),
                order_pass(bl, start, i as int, i - 1) == order_pass(
                    bl,
                    order@.subrange(0, ns as int),
                    i as int,
                    if done {
                        -1
                    } else {
                        j - 1
                    },
                ),
                forall|t: int| ns <= t < order@.len() ==> order@[t] == old(order)@[t],
            decreases j + if done { 0int } else { 1int },
        {
            let jj = j - 1;
            let oi = order[i];
            let oj = order[jj];
            assert(order@.subrange(0, ns as int)[jj as int] == oj);
            assert(order@.subrange(0, ns as int)[i as int] == oi);
            assert(oi < ns && oj < ns);
            if boundary_list[oj * 2] > boundary_list[oi * 2] {
                let ghost before = order@.subrange(0, ns as int);
                order.set(i, oj);
                order.set(jj, oi);
                proof {
                    let after = order@.subrange(0, ns as int);
                    assert(after =~= before.update(i as int, before[jj as int]).update(
                        jj as int,
                        before[i as int],
                    ));
                    assert forall|x: int, y: int| 0 <= x < y < ns implies after[x] != after[y] by {
                        assert(before[x] != before[y]);
                    }
                }
                j = jj;
            } else {
                done = true;
            }
        }
        i = i + 1;
    }
    proof {
        if ns == 0 {
            assert(order@.subrange(0, 0) =~= sorted_order_spec(bl, 0));
        }
    }
}


/// Section starts, section ends and section count after scanning channels
/// `1 .. n` of a voicing vector: a rise by one records a start at the
/// current section slot, a fall by one records the end and opens the next
/// slot.
pub open spec fn voiced_sections_scan(vuv: Seq<i32>, st0: Seq<i32>, ed0: Seq<i32>, n: int) -> (
    Seq<i32>,
    Seq<i32>,
    nat,
)
    decreases n,
{
    if n <= 1 {
        (st0, ed0, 0)
    } else {
        let prev = voiced_sections_scan(vuv, st0, ed0, n - 1);
        let tmp = vuv[n - 1] - vuv[n - 2];
        let st = if tmp == 1 {
            prev.0.update(prev.2 as int, (n - 1) as i32)
        } else {
            prev.0
        };
        if tmp == -1 {
            (st, prev.1.update(prev.2 as int, (n - 1) as i32), prev.2 + 1)
        } else {
            (st, prev.1, prev.2)
        }
    }
}

/// The number of falls from one to zero among channels `1 .. n`: the
/// section slot that the scan has reached after those channels.
pub open spec fn falls_before(vuv: Seq<i32>, n: int) -> nat
    decreases n,
{
    if n <= 1 {
        0
    } else {
        falls_before(vuv, n - 1) + if vuv[n - 1] - vuv[n - 2] == -1 {
            1nat
        } else {
            0nat
        }
    }
}

/// Every start and every end that the scan records lands inside `st` and
/// `ed` of the given lengths.
pub open spec fn has_room_for_sections(vuv: Seq<i32>, st_len: nat, ed_len: nat) -> bool {
    forall|i: int|
        1 <= i < vuv.len() ==> (#[trigger] (vuv[i] - vuv[i - 1]) == 1 ==> falls_before(vuv, i)
            < st_len) && (vuv[i] - vuv[i - 1] == -1 ==> falls_before(vuv, i) < ed_len)
}

proof fn lemma_falls_before_bound(vuv: Seq<i32>, n: int)
    ensures
        n >= 1 ==> falls_before(vuv, n) <= n - 1,
    decreases n,
{
    if n > 1 {
        lemma_falls_before_bound(vuv, n - 1);
    }
}

proof fn lemma_scan_count(vuv: Seq<i32>, st0: Seq<i32>, ed0: Seq<i32>, n: int)
    requires
        n <= vuv.len(),
        has_room_for_sections(vuv, st0.len(), ed0.len()),
    ensures
        voiced_sections_scan(vuv, st0, ed0, n).2 == falls_before(vuv, n),
        voiced_sections_scan(vuv, st0, ed0, n).0.len() == st0.len(),
        voiced_sections_scan(vuv, st0, ed0, n).1.len() == ed0.len(),
    decreases n,
{
    if n > 1 {
        lemma_scan_count(vuv, st0, ed0, n - 1);
        assert(1 <= n - 1 < vuv.len());
        let d = vuv[n - 1] - vuv[n - 2];
        assert(d == (vuv[n - 1] - vuv[(n - 1) - 1]));
    }
}

proof fn lemma_room_from_length(vuv: Seq<i32>, st_len: nat, ed_len: nat)
    requires
        st_len >= vuv.len(),
        ed_len >= vuv.len(),
    ensures
        has_room_for_sections(vuv, st_len, ed_len),
{
    assert forall|i: int| 1 <= i < vuv.len() implies falls_before(vuv, i) < vuv.len() by {
        lemma_falls_before_bound(vuv, i);
    }
}

/// A channel voicing vector of zeros and ones whose first and last entries
/// are zero, as the candidate detection builds it.
pub open spec fn is_closed_voicing(vuv: Seq<i32>) -> bool {
    &&& vuv.len() >= 1
    &&& vuv[0] == 0
    &&& vuv[vuv.len() - 1] == 0
    &&& forall|i: int| 0 <= i < vuv.len() ==> #[trigger] vuv[i] == 0 || vuv[i] == 1
}

/// The voicing flags of a zero-one vector.
pub open spec fn voicing_flags(vuv: Seq<i32>) -> Seq<bool> {
    Seq::new(vuv.len(), |i: int| vuv[i] == 1)
}

proof fn lemma_scan_follows_transitions(vuv: Seq<i32>, st0: Seq<i32>, ed0: Seq<i32>, n: int)
    requires
        is_closed_voicing(vuv),
        1 <= n <= vuv.len(),
        st0.len() >= vuv.len(),
        ed0.len() >= vuv.len(),
        vuv.len() <= i32::MAX,
    ensures
        ({
            let t = transitions(voicing_flags(vuv), n);
            let scan = voiced_sections_scan(vuv, st0, ed0, n);
            &&& scan.2 == t.len() / 2
            &&& forall|k: int|
                0 <= k < scan.2 ==> scan.0[k] == t[2 * k] && scan.1[k] == t[2 * k + 1]
            &&& t.len() % 2 == 1 ==> scan.0[scan.2 as int] == t[t.len() - 1]
        }),
    decreases n,
{
    let flags = voicing_flags(vuv);
    if n > 1 {
        lemma_scan_follows_transitions(vuv, st0, ed0, n - 1);
        lemma_room_from_length(vuv, st0.len(), ed0.len());
        lemma_scan_count(vuv, st0, ed0, n - 1);
        lemma_falls_before_bound(vuv, n - 1);
        lemma_transition_parity(flags, n - 1);
        lemma_transitions_len(flags, n - 1);
        let i = n - 1;
        assert(vuv_at(flags, i) == (vuv[i] == 1));
        assert(vuv_at(flags, i - 1) == (vuv[i - 1] == 1));
        assert(vuv[i] == 0 || vuv[i] == 1);
        assert(vuv[i - 1] == 0 || vuv[i - 1] == 1);
    }
}

/// Every section that the candidate detection records on a closed zero-one
/// voicing vector is a run of voiced channels: channels `st[k] .. ed[k]`
/// are voiced, and the channels `st[k] - 1` and `ed[k]` around them are not.
pub proof fn official_sections_are_voiced(vuv: Seq<i32>, st0: Seq<i32>, ed0: Seq<i32>, k: int)
    requires
        is_closed_voicing(vuv),
        st0.len() >= vuv.len(),
        ed0.len() >= vuv.len(),
        vuv.len() <= i32::MAX,
        0 <= k < voiced_sections_scan(vuv, st0, ed0, vuv.len() as int).2,
    ensures
        ({
            let scan = voiced_sections_scan(vuv, st0, ed0, vuv.len() as int);
            let s = scan.0[k] as int;
            let e = scan.1[k] as int;
            &&& 0 < s < e < vuv.len()
            &&& forall|f: int| s <= f < e ==> vuv[f] == 1
            &&& vuv[s - 1] == 0
            &&& vuv[e] == 0
        }),
{
    let flags = voicing_flags(vuv);
    let n = vuv.len() as int;
    lemma_scan_follows_transitions(vuv, st0, ed0, n);
    boundary_count_is_even(flags);
    boundary_pair_is_voiced_section(flags, k);
    assert forall|f: int| 0 <= f < n implies vuv_at(flags, f) == (vuv[f] == 1) by {
        assert(vuv[f] == 0 || vuv[f] == 1);
    }
}

/// Conversely, every run of voiced channels `s ..= e` of a closed zero-one
/// voicing vector is recorded: some section starts at channel `s` and ends
/// at channel `e + 1`, the first unvoiced channel after it.
pub proof fn voiced_channels_are_official_sections(
    vuv: Seq<i32>,
    st0: Seq<i32>,
    ed0: Seq<i32>,
    s: int,
    e: int,
)
    requires
        is_closed_voicing(vuv),
        st0.len() >= vuv.len(),
        ed0.len() >= vuv.len(),
        vuv.len() <= i32::MAX,
        1 <= s <= e < vuv.len() - 1,
        forall|f: int| s <= f <= e ==> vuv[f] == 1,
        vuv[s - 1] == 0,
        vuv[e + 1] == 0,
    ensures
        exists|k: int|
            0 <= k < voiced_sections_scan(vuv, st0, ed0, vuv.len() as int).2 && voiced_sections_scan(
                vuv,
                st0,
                ed0,
                vuv.len() as int,
            ).0[k] == s && #[trigger] voiced_sections_scan(vuv, st0, ed0, vuv.len() as int).1[k]
                == e + 1,
{
    let n = vuv.len() as int;
    let flags = voicing_flags(vuv);
    let t = transitions(flags, n);
    assert forall|f: int| s <= f <= e implies #[trigger] flags[f] by {
        assert(vuv[f] == 1);
    }
    assert(is_voiced_run(flags, s, e));
    voiced_run_is_boundary_pair(flags, s, e);
    let q = choose|q: int|
        0 <= q && 2 * q + 1 < t.len() && boundary_entry(t, 2 * q) == s && #[trigger] boundary_entry(
            t,
            2 * q + 1,
        ) == e;
    lemma_scan_follows_transitions(vuv, st0, ed0, n);
    assert((2 * q + 1) % 2 == 1);
    let scan = voiced_sections_scan(vuv, st0, ed0, n);
    assert(scan.0[q] == s && scan.1[q] == e + 1);
}

/// Finds the voiced sections across the channels of one frame: `vuv` holds
/// one voicing flag per channel. For each section, the channel where it
/// starts goes to `st` and the channel where it ends to `ed`; the number of
/// sections is returned.
pub fn detect_official_f0_candidates_sub1(vuv: &Vec<i32>, st: &mut Vec<i32>, ed: &mut Vec<i32>) -> (n:
    usize)
    requires
        has_room_for_sections(vuv@, old(st)@.len(), old(ed)@.len()),
        forall|i: int|
            1 <= i < vuv@.len() ==> i32::MIN <= #[trigger] (vuv@[i] - vuv@[i - 1]) <= i32::MAX,
    ensures
        (final(st)@, final(ed)@, n as nat) == voiced_sections_scan(
            vuv@,
            old(st)@,
            old(ed)@,
            vuv@.len() as int,
        ),
{
    let number_of_channels = vuv.len();
    let mut count: usize = 0;
    let mut i: usize = 1;
    while i < number_of_channels
        invariant
            number_of_channels == vuv@.len(),
            st@.len() == old(st)@.len(),
            ed@.len() == old(ed)@.len(),
            has_room_for_sections(vuv@, old(st)@.len(), old(ed)@.len()),
            1 <= i,
            i <= number_of_channels || i == 1,
            forall|k: int|
                1 <= k < vuv@.len() ==> i32::MIN <= #[trigger] (vuv@[k] - vuv@[k - 1])
                    <= i32::MAX,
            (st@, ed@, count as nat) == voiced_sections_scan(vuv@, old(st)@, old(ed)@, i as int),
        decreases number_of_channels - i,
    {
        proof {
            lemma_scan_count(vuv@, old(st)@, old(ed)@, i as int);
            lemma_scan_count(vuv@, old(st)@, old(ed)@, i as int + 1);
            lemma_falls_before_bound(vuv@, i as int);
            let d = vuv@[i as int] - vuv@[i as int - 1];
            assert(d == 1 ==> falls_before(vuv@, i as int) < old(st)@.len());
            assert(d == -1 ==> falls_before(vuv@, i as int) < old(ed)@.len());
        }
        let tmp = vuv[i] - vuv[i - 1];
        if tmp == 1 {
            st.set(count, #[verifier::truncate] (i as i32));
        }
        if tmp == -1 {
            ed.set(count, #[verifier::truncate] (i as i32));
            count = count + 1;
        }
        i = i + 1;
    }
    proof {
        if number_of_channels == 0 {
            assert(voiced_sections_scan(vuv@, old(st)@, old(ed)@, 0) == voiced_sections_scan(
                vuv@,
                old(st)@,
                old(ed)@,
                1,
            ));
        }
    }
    count
}


/// Section `q` of the transition list `t` is shorter than
/// `voice_range_minimum` (its last frame minus its first) and contains
/// frame `f`.
pub open spec fn short_section_covers(t: Seq<int>, voice_range_minimum: int, q: int, f: int) -> bool {
    &&& 0 <= q
    &&& 2 * q + 1 < t.len()
    &&& boundary_entry(t, 2 * q) <= f <= boundary_entry(t, 2 * q + 1)
    &&& boundary_entry(t, 2 * q + 1) - boundary_entry(t, 2 * q) < voice_range_minimum
}

/// Frame `f` lies in a voiced section shorter than `voice_range_minimum`.
pub open spec fn in_short_section(voiced: Seq<bool>, voice_range_minimum: int, f: int) -> bool {
    exists|q: int|
        #[trigger] short_section_covers(
            transitions(voiced, voiced.len() as int),
            voice_range_minimum,
            q,
            f,
        )
}

/// Frames `s ..= e` form a voiced section of a contour whose voicing is
/// `voiced`: they are all voiced, lie strictly inside the contour (its first
/// and last frames count as unvoiced), and the frames next to them are
/// unvoiced or are the contour's first or last frame.
pub open spec fn is_voiced_run(voiced: Seq<bool>, s: int, e: int) -> bool {
    &&& 1 <= s <= e <= voiced.len() - 2
    &&& forall|f: int| s <= f <= e ==> #[trigger] voiced[f]
    &&& (s == 1 || !voiced[s - 1])
    &&& (e == voiced.len() - 2 || !voiced[e + 1])
}

/// A transition at frame `i` is entry `|transitions(i)|` of the full list.
proof fn lemma_transition_index(voiced: Seq<bool>, i: int)
    requires
        1 <= i < voiced.len(),
        is_transition(voiced, i),
    ensures
        transitions(voiced, i).len() < transitions(voiced, voiced.len() as int).len(),
        transitions(voiced, voiced.len() as int)[transitions(voiced, i).len() as int] == i,
        transitions(voiced, i + 1).len() == transitions(voiced, i).len() + 1,
{
    let c = transitions(voiced, i).len() as int;
    assert(transitions(voiced, i + 1) == transitions(voiced, i).push(i));
    lemma_transitions_prefix(voiced, i + 1, voiced.len() as int);
    assert(transitions(voiced, i + 1)[c] == i);
}

/// No transition among frames `a .. b` leaves the list unchanged.
proof fn lemma_no_transition_between(voiced: Seq<bool>, a: int, b: int)
    requires
        1 <= a <= b,
        forall|i: int| a <= i < b ==> !#[trigger] is_transition(voiced, i),
    ensures
        transitions(voiced, b) == transitions(voiced, a),
    decreases b - a,
{
    if a < b {
        lemma_no_transition_between(voiced, a, b - 1);
        assert(!is_transition(voiced, b - 1));
    }
}

/// Every voiced section of a contour appears in its boundary list: some
/// pair of entries `2q`, `2q + 1` holds its first and its last frame.
pub proof fn voiced_run_is_boundary_pair(voiced: Seq<bool>, s: int, e: int)
    requires
        is_voiced_run(voiced, s, e),
    ensures
        exists|q: int|
            0 <= q && 2 * q + 1 < transitions(voiced, voiced.len() as int).len() && boundary_entry(
                transitions(voiced, voiced.len() as int),
                2 * q,
            ) == s && #[trigger] boundary_entry(
                transitions(voiced, voiced.len() as int),
                2 * q + 1,
            ) == e,
{
    let n = voiced.len() as int;
    let t = transitions(voiced, n);
    assert(is_transition(voiced, s));
    lemma_transition_index(voiced, s);
    lemma_transition_parity(voiced, s);
    let c = transitions(voiced, s).len() as int;
    let q = c / 2;
    assert(c == 2 * q);
    assert(voiced[e]);
    assert(is_transition(voiced, e + 1));
    lemma_transition_index(voiced, e + 1);
    assert forall|i: int| s + 1 <= i < e + 1 implies !#[trigger] is_transition(voiced, i) by {
        assert(voiced[i]);
        assert(voiced[i - 1]);
    }
    lemma_no_transition_between(voiced, s + 1, e + 1);
    assert(transitions(voiced, e + 1).len() == 2 * q + 1);
    assert(boundary_entry(t, 2 * q) == s);
    assert((2 * q + 1) % 2 == 1);
    assert(boundary_entry(t, 2 * q + 1) == e);
}

/// Every frame of a voiced section shorter than `voice_range_minimum`
/// (its last frame minus its first), the last section of the contour
/// included, is among the frames that the second clean-up step clears.
pub proof fn short_voiced_runs_are_cleared(
    voiced: Seq<bool>,
    voice_range_minimum: int,
    s: int,
    e: int,
    f: int,
)
    requires
        is_voiced_run(voiced, s, e),
        e - s < voice_range_minimum,
        s <= f <= e,
    ensures
        in_short_section(voiced, voice_range_minimum, f),
{
    let t = transitions(voiced, voiced.len() as int);
    voiced_run_is_boundary_pair(voiced, s, e);
    let q = choose|q: int|
        0 <= q && 2 * q + 1 < t.len() && boundary_entry(t, 2 * q) == s && #[trigger] boundary_entry(
            t,
            2 * q + 1,
        ) == e;
    assert(short_section_covers(t, voice_range_minimum, q, f));
}

/// The second clean-up step clears a frame only where it lies in a voiced
/// section shorter than `voice_range_minimum`.
pub proof fn cleared_frames_lie_in_short_voiced_runs(
    voiced: Seq<bool>,
    voice_range_minimum: int,
    f: int,
)
    requires
        in_short_section(voiced, voice_range_minimum, f),
    ensures
        exists|s: int, e: int|
            is_voiced_run(voiced, s, e) && e - s < voice_range_minimum && s <= f <= e,
{
    let n = voiced.len() as int;
    let t = transitions(voiced, n);
    let q = choose|q: int| #[trigger] short_section_covers(t, voice_range_minimum, q, f);
    boundary_pair_is_voiced_section(voiced, q);
    let s = boundary_entry(t, 2 * q);
    let e = boundary_entry(t, 2 * q + 1);
    assert forall|g: int| s <= g <= e implies #[trigger] voiced[g] by {
        assert(vuv_at(voiced, g));
    }
    assert(!vuv_at(voiced, s - 1));
    assert(!vuv_at(voiced, e + 1));
    assert(is_voiced_run(voiced, s, e));
}

/// Second clean-up step of the F0 contour: the frames of every voiced
/// section shorter than `voice_range_minimum` are replaced by `zero`; all
/// other frames are copied from `f0_step1`. `voiced` flags the frames whose
/// F0 is positive.
pub fn fix_step2<T: Copy>(f0_step1: &Vec<T>, voiced: &Vec<bool>, voice_range_minimum: i32, zero: T) -> (r:
    Vec<T>)
    requires
        voiced@.len() == f0_step1@.len(),
        f0_step1@.len() <= i32::MAX,
    ensures
        r@.len() == f0_step1@.len(),
        forall|f: int|
            0 <= f < r@.len() ==> r@[f] == if in_short_section(
                voiced@,
                voice_range_minimum as int,
                f,
            ) {
                zero
            } else {
                f0_step1@[f]
            },
{
    let len = f0_step1.len();
    let ghost t = transitions(voiced@, len as int);
    let ghost vrm = voice_range_minimum as int;
    let mut r: Vec<T> = Vec::with_capacity(len);
    let mut boundary_list: Vec<i32> = Vec::with_capacity(len);
    let mut i: usize = 0;
    while i < len
        invariant
            len == f0_step1@.len(),
            i <= len,
            r@.len() == i,
            boundary_list@.len() == i,
            forall|k: int| 0 <= k < i ==> r@[k] == f0_step1@[k],
        decreases len - i,
    {
        r.push(f0_step1[i]);
        boundary_list.push(0);
        i = i + 1;
    }
    let number_of_boundaries = get_boundary_list(voiced, &mut boundary_list);
    proof {
        lemma_transitions_len(voiced@, len as int);
        boundary_count_is_even(voiced@);
    }
    let sections = number_of_boundaries / 2;
    let mut k: usize = 0;
    while k < sections
        invariant
            len == f0_step1@.len(),
            len == voiced@.len(),
            len <= i32::MAX,
            vrm == voice_range_minimum as int,
            t == transitions(voiced@, len as int),
            number_of_boundaries == t.len(),
            number_of_boundaries <= len,
            sections * 2 == number_of_boundaries,
            boundary_list@.len() == len,
            forall|q: int| 0 <= q < number_of_boundaries ==> boundary_list@[q] == boundary_entry(t, q),
            k <= sections,
            r@.len() == len,
            forall|f: int|
                0 <= f < len ==> r@[f] == if exists|q: int|
                    q < k && #[trigger] short_section_covers(t, vrm, q, f) {
                    zero
                } else {
                    f0_step1@[f]
                },
        decreases sections - k,
    {
        let start = boundary_list[2 * k];
        let end = boundary_list[2 * k + 1];
        proof {
            boundary_pair_is_voiced_section(voiced@, k as int);
        }
        if (end as i64) - (start as i64) < voice_range_minimum as i64 {
            let ghost before = r@;
            let mut j: usize = start as usize;
            while j <= end as usize
                invariant
                    len == f0_step1@.len(),
                    r@.len() == len,
                    0 < start <= end < len - 1,
                    start <= j <= end + 1,
                    forall|f: int|
                        0 <= f < len ==> r@[f] == if start <= f < j {
                            zero
                        } else {
                            before[f]
                        },
                decreases end + 1 - j,
            {
                r.set(j, zero);
                j = j + 1;
            }
            proof {
                assert forall|f: int| 0 <= f < len implies r@[f] == if exists|q: int|
                    q < k + 1 && #[trigger] short_section_covers(t, vrm, q, f) {
                    zero
                } else {
                    f0_step1@[f]
                } by {
                    if start <= f <= end {
                        assert(short_section_covers(t, vrm, k as int, f));
                    } else {
                        if exists|q: int| q < k + 1 && #[trigger] short_section_covers(t, vrm, q, f) {
                            let q = choose|q: int|
                                q < k + 1 && #[trigger] short_section_covers(t, vrm, q, f);
                            assert(q != k);
                        }
                    }
                }
            }
        } else {
            proof {
                assert forall|f: int| 0 <= f < len implies r@[f] == if exists|q: int|
                    q < k + 1 && #[trigger] short_section_covers(t, vrm, q, f) {
                    zero
                } else {
                    f0_step1@[f]
                } by {
                    if exists|q: int| q < k + 1 && #[trigger] short_section_covers(t, vrm, q, f) {
                        let q = choose|q: int|
                            q < k + 1 && #[trigger] short_section_covers(t, vrm, q, f);
                        assert(q != k);
                    }
                }
            }
        }
        k = k + 1;
    }
    proof {
        assert forall|f: int| 0 <= f < len implies (exists|q: int|
            q < sections && #[trigger] short_section_covers(t, vrm, q, f)) == in_short_section(
            voiced@,
            vrm,
            f,
        ) by {
            if in_short_section(voiced@, vrm, f) {
                let q = choose|q: int| #[trigger] short_section_covers(t, vrm, q, f);
                assert(q < sections);
            }
        }
    }
    r
}


/// Value at frame `j` of the channel that holds section `i` alone: the F0
/// inside the section, `zero` elsewhere. Boundary entries are read as
/// `usize`, so a negative entry stands for a frame beyond any contour.
pub open spec fn channel_value<T>(
    f0: Seq<T>,
    f0_length: int,
    boundary_list: Seq<i32>,
    i: int,
    j: int,
    zero: T,
) -> T {
    if i32_as_usize_spec(boundary_list[2 * i] as int) <= j <= i32_as_usize_spec(
        boundary_list[2 * i + 1] as int,
    ) && j <= f0_length - 1 && j < f0.len() {
        f0[j]
    } else {
        zero
    }
}

/// Splits a contour into one channel per voiced section: channel `i` has
/// `f0_length` frames and carries `f0` on the frames of section `i` (from
/// boundary entry `2i` to `2i + 1`) and `zero` everywhere else.
pub fn get_multi_channel_f0<T: Copy>(
    f0: &Vec<T>,
    f0_length: usize,
    boundary_list: &Vec<i32>,
    number_of_boundaries: usize,
    zero: T,
) -> (r: Vec<Vec<T>>)
    requires
        (number_of_boundaries / 2) * 2 <= boundary_list@.len(),
        number_of_boundaries / 2 > 0 ==> f0_length >= 1,
    ensures
        r@.len() == number_of_boundaries / 2,
        forall|i: int| 0 <= i < r@.len() ==> (#[trigger] r@[i])@.len() == f0_length,
        forall|i: int, j: int|
            0 <= i < r@.len() && 0 <= j < f0_length ==> #[trigger] r@[i]@[j] == channel_value(
                f0@,
                f0_length as int,
                boundary_list@,
                i,
                j,
                zero,
            ),
{
    let num_sections = number_of_boundaries / 2;
    let mut multi: Vec<Vec<T>> = Vec::with_capacity(num_sections);
    let mut i: usize = 0;
    while i < num_sections
        invariant
            num_sections == number_of_boundaries / 2,
            num_sections * 2 <= boundary_list@.len(),
            num_sections > 0 ==> f0_length >= 1,
            i <= num_sections,
            multi@.len() == i,
            forall|q: int| 0 <= q < i ==> (#[trigger] multi@[q])@.len() == f0_length,
            forall|q: int, j: int|
                0 <= q < i && 0 <= j < f0_length ==> #[trigger] multi@[q]@[j] == channel_value(
                    f0@,
                    f0_length as int,
                    boundary_list@,
                    q,
                    j,
                    zero,
                ),
        decreases num_sections - i,
    {
        let st = i32_as_usize(boundary_list[i * 2]);
        let ed = i32_as_usize(boundary_list[i * 2 + 1]);
        let mut row: Vec<T> = Vec::with_capacity(f0_length);
        let mut j: usize = 0;
        while j < f0_length
            invariant
                f0_length >= 1,
                j <= f0_length,
                i < num_sections,
                num_sections * 2 <= boundary_list@.len(),
                st == i32_as_usize_spec(boundary_list@[2 * i] as int),
                ed == i32_as_usize_spec(boundary_list@[2 * i + 1] as int),
                row@.len() == j,
                forall|x: int|
                    0 <= x < j ==> row@[x] == channel_value(
                        f0@,
                        f0_length as int,
                        boundary_list@,
                        i as int,
                        x,
                        zero,
                    ),
            decreases f0_length - j,
        {
            if st <= j && j <= ed && j <= f0_length - 1 && j < f0.len() {
                row.push(f0[j]);
            } else {
                row.push(zero);
            }
            j = j + 1;
        }
        multi.push(row);
        i = i + 1;
    }
    multi
}

/// `a` with the entries at `i` and `j` exchanged.
pub open spec fn swapped<T>(a: Seq<T>, i: int, j: int) -> Seq<T> {
    a.update(i, a[j]).update(j, a[i])
}

/// Exchanging the same two rows twice restores the initial order.
pub proof fn swap_twice_restores<T>(a: Seq<T>, i: int, j: int)
    requires
        0 <= i < a.len(),
        0 <= j < a.len(),
    ensures
        swapped(swapped(a, i, j), i, j) == a,
{
    assert(swapped(swapped(a, i, j), i, j) =~= a);
}

/// Exchanges rows `index1` and `index2`, and with them their boundary
/// pairs (entries `2 * index + 0, 1`) when both pairs lie inside
/// `boundary`.
pub fn swap_rows<T>(rows: &mut Vec<T>, boundary: &mut Vec<i32>, index1: usize, index2: usize)
    requires
        index1 < old(rows)@.len(),
        index2 < old(rows)@.len(),
        index1 * 2 + 1 <= usize::MAX,
        index2 * 2 + 1 <= usize::MAX,
    ensures
        final(rows)@ == swapped(old(rows)@, index1 as int, index2 as int),
        final(boundary)@ == if 2 * index1 + 1 < old(boundary)@.len() && 2 * index2 + 1 < old(
            boundary,
        )@.len() {
            swapped(
                swapped(old(boundary)@, 2 * index1, 2 * index2),
                2 * index1 + 1,
                2 * index2 + 1,
            )
        } else {
            old(boundary)@
        },
{
    if index1 != index2 {
        let (a, b) = if index1 < index2 {
            (index1, index2)
        } else {
            (index2, index1)
        };
        let ghost before = rows@;
        let row_b = rows.remove(b);
        let row_a = rows.remove(a);
        rows.insert(a, row_b);
        rows.insert(b, row_a);
        assert(rows@ =~= swapped(before, index1 as int, index2 as int));
    } else {
        assert(rows@ =~= swapped(rows@, index1 as int, index2 as int));
    }
    let i1 = index1 * 2;
    let i2 = index2 * 2;
    if i1 + 1 < boundary.len() && i2 + 1 < boundary.len() {
        let ghost before = boundary@;
        let x = boundary[i1];
        let y = boundary[i2];
        boundary.set(i1, y);
        boundary.set(i2, x);
        let x1 = boundary[i1 + 1];
        let y1 = boundary[i2 + 1];
        boundary.set(i1 + 1, y1);
        boundary.set(i2 + 1, x1);
        assert(boundary@ =~= swapped(
            swapped(before, 2 * index1, 2 * index2),
            2 * index1 + 1,
            2 * index2 + 1,
        ));
    }
}


/// Gaps between consecutive sections `i` and `i + 1`, for `i < k`, that are
/// bridged by interpolation: those whose unvoiced stretch (the frames
/// strictly between the end of one section and the start of the next) is
/// shorter than `threshold`. Each gap is given as the last frame of the
/// first section and the first frame of the next. Entries are ordered as
/// `usize` values, so a negative entry counts as a frame beyond any
/// contour, while the gap length is taken on the `i32` entries.
pub open spec fn interpolation_gaps_spec(boundary_list: Seq<i32>, threshold: int, k: int) -> Seq<
    (usize, usize),
>
    decreases k,
{
    if k <= 0 {
        Seq::empty()
    } else {
        let prev = interpolation_gaps_spec(boundary_list, threshold, k - 1);
        let end_curr = boundary_list[2 * (k - 1) + 1] as int;
        let start_next = boundary_list[2 * k] as int;
        if i32_as_usize_spec(start_next) > i32_as_usize_spec(end_curr) && start_next - end_curr - 1
            < threshold {
            prev.push((i32_as_usize_spec(end_curr) as usize, i32_as_usize_spec(start_next) as usize))
        } else {
            prev
        }
    }
}

/// The gap between section `k - 1` (ending at entry `2k - 1`) and section
/// `k` (starting at entry `2k`) is bridged: the next start, read as an
/// index, lies after the current end, the gap holds fewer than `threshold`
/// frames, and `g` is that (end, next start) pair of indices.
pub open spec fn is_bridged_gap(boundary_list: Seq<i32>, threshold: int, k: int, g: (usize, usize)) -> bool {
    let end_curr = boundary_list[2 * k - 1] as int;
    let start_next = boundary_list[2 * k] as int;
    &&& i32_as_usize_spec(start_next) > i32_as_usize_spec(end_curr)
    &&& start_next - end_curr - 1 < threshold
    &&& g.0 == i32_as_usize_spec(end_curr)
    &&& g.1 == i32_as_usize_spec(start_next)
}

proof fn lemma_gaps_members(boundary_list: Seq<i32>, threshold: int, k: int, g: (usize, usize))
    ensures
        interpolation_gaps_spec(boundary_list, threshold, k).contains(g) <==> exists|q: int|
            1 <= q <= k && #[trigger] is_bridged_gap(boundary_list, threshold, q, g),
    decreases k,
{
    if k > 0 {
        lemma_gaps_members(boundary_list, threshold, k - 1, g);
        let prev = interpolation_gaps_spec(boundary_list, threshold, k - 1);
        let cur = interpolation_gaps_spec(boundary_list, threshold, k);
        if cur.contains(g) {
            let i = choose|i: int| 0 <= i < cur.len() && cur[i] == g;
            if i < prev.len() {
                assert(prev[i] == g);
            } else {
                assert(is_bridged_gap(boundary_list, threshold, k, g));
            }
        }
        if exists|q: int| 1 <= q <= k && #[trigger] is_bridged_gap(boundary_list, threshold, q, g) {
            let q = choose|q: int| 1 <= q <= k && #[trigger] is_bridged_gap(boundary_list, threshold, q, g);
            if q < k {
                let i = choose|i: int| 0 <= i < prev.len() && prev[i] == g;
                assert(cur[i] == g);
            } else {
                assert(cur[cur.len() - 1] == g);
            }
        }
    } else {
        assert(interpolation_gaps_spec(boundary_list, threshold, k) =~= Seq::empty());
    }
}

/// The gap after section `k - 1` has an `i32` length (the two entries'
/// difference minus one does not go below `i32::MIN`) wherever it is
/// examined.
pub open spec fn gap_length_fits(boundary_list: Seq<i32>, k: int) -> bool {
    let end_curr = boundary_list[2 * k - 1] as int;
    let start_next = boundary_list[2 * k] as int;
    i32_as_usize_spec(start_next) > i32_as_usize_spec(end_curr) ==> start_next - end_curr - 1
        >= i32::MIN
}

/// The unvoiced gaps between consecutive voiced sections that the last
/// clean-up step bridges by linear interpolation: gaps of fewer than
/// `threshold` frames, in order.
pub fn interpolation_gaps(boundary_list: &Vec<i32>, number_of_boundaries: usize, threshold: i32) -> (r:
    Vec<(usize, usize)>)
    requires
        number_of_boundaries <= boundary_list@.len(),
        forall|k: int|
            1 <= k < number_of_boundaries / 2 ==> #[trigger] gap_length_fits(boundary_list@, k),
    ensures
        r@ == if number_of_boundaries / 2 < 2 {
            Seq::empty()
        } else {
            interpolation_gaps_spec(boundary_list@, threshold as int, number_of_boundaries / 2 - 1)
        },
        forall|g: (usize, usize)|
            r@.contains(g) <==> exists|k: int|
                1 <= k < number_of_boundaries / 2 && #[trigger] is_bridged_gap(
                    boundary_list@,
                    threshold as int,
                    k,
                    g,
                ),
{
    let sections = number_of_boundaries / 2;
    let mut r: Vec<(usize, usize)> = Vec::new();
    if sections < 2 {
        return r;
    }
    let bl_len = boundary_list.len();
    let mut i: usize = 0;
    while i < sections - 1
        invariant
            2 <= sections,
            sections * 2 <= bl_len,
            bl_len == boundary_list@.len(),
            forall|k: int| 1 <= k < sections ==> #[trigger] gap_length_fits(boundary_list@, k),
            i <= sections - 1,
            r@ == interpolation_gaps_spec(boundary_list@, threshold as int, i as int),
        decreases sections - 1 - i,
    {
        let end_curr = i32_as_usize(boundary_list[i * 2 + 1]);
        let start_next = i32_as_usize(boundary_list[(i + 1) * 2]);
        proof {
            assert(gap_length_fits(boundary_list@, i + 1));
        }
        if start_next > end_curr {
            let distance = boundary_list[(i + 1) * 2] - boundary_list[i * 2 + 1] - 1;
            if distance < threshold {
                r.push((end_curr, start_next));
            }
        }
        i = i + 1;
    }
    proof {
        assert forall|g: (usize, usize)|
            r@.contains(g) <==> exists|k: int|
                1 <= k < sections && #[trigger] is_bridged_gap(
                    boundary_list@,
                    threshold as int,
                    k,
                    g,
                ) by {
            lemma_gaps_members(boundary_list@, threshold as int, sections - 1, g);
        }
    }
    r
}

} // verus!
