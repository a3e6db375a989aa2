//! Choosing printable partitions of a segmented shell: boundaries `0..=end` are
//! joined into segments, each of which must fit the print volume.
//!
//! Which pairs of boundaries fit is decided beforehand and handed over as a table;
//! which of several printable partitions to keep is decided by a caller-supplied
//! preference between two candidate lists of cut boundaries.
use crate::shell::{
    lemma_segment_count_order_permutation, segment_count_order,
    segment_count_order_of, SegmentationError,
};
use vstd::prelude::*;

verus! {

/// The fit table as rows of booleans: entry `[i][j]` says whether the segment from
/// boundary `i` to boundary `j` fits.
pub open spec fn fit_rows(fits: Seq<Vec<bool>>) -> Seq<Seq<bool>> {
    fits.map_values(|row: Vec<bool>| row@)
}

/// Step `k` of the chain `p` goes up, starts before the last boundary `end`, and fits.
pub open spec fn step_ok(fits: Seq<Seq<bool>>, end: int, p: Seq<int>, k: int) -> bool {
    &&& p[k] < p[k + 1]
    &&& p[k] < end
    &&& fits[p[k]][p[k + 1]]
}

/// Whether `p` is a chain of boundaries from boundary 0 to boundary `j` whose every
/// step goes up, starts before the last boundary `end`, and fits.
pub open spec fn is_chain(fits: Seq<Seq<bool>>, end: int, p: Seq<int>, j: int) -> bool {
    &&& p.len() >= 1
    &&& p[0] == 0
    &&& p.last() == j
    &&& forall|k: int| 0 <= k < p.len() - 1 ==> #[trigger] step_ok(fits, end, p, k)
}

/// Whether the boundary list `p` partitions boundaries `0..=end` into `segments`
/// segments that all fit.
pub open spec fn is_partition(fits: Seq<Seq<bool>>, end: int, p: Seq<int>, segments: nat) -> bool {
    is_chain(fits, end, p, end) && p.len() == segments + 1
}

/// Whether some partition of boundaries `0..=end` into `segments` segments fits.
pub open spec fn partition_exists(fits: Seq<Seq<bool>>, end: int, segments: nat) -> bool {
    exists|p: Seq<int>| #[trigger] is_partition(fits, end, p, segments)
}

/// A list of boundary indices, as integers.
pub open spec fn ints(v: Seq<usize>) -> Seq<int> {
    v.map_values(|x: usize| x as int)
}

/// The chain that starts at boundary 0 and then visits the cuts `c`.
pub open spec fn cut_chain(c: Seq<usize>) -> Seq<int> {
    seq![0int] + ints(c)
}

/// Whether `fits` is a square table with at least one boundary.
pub open spec fn square_table(fits: Seq<Vec<bool>>) -> bool {
    &&& fits.len() >= 1
    &&& forall|i: int| 0 <= i < fits.len() ==> #[trigger] fits[i]@.len() == fits.len()
}

/// A table row of the layer for `used` segments: every kept cut list reaches its
/// boundary in `used` fitting steps.
pub open spec fn layer_sound(f: Seq<Seq<bool>>, end: int, layer: Seq<Option<Vec<usize>>>, used: nat) -> bool {
    forall|j: int|
        0 <= j < layer.len() ==> (#[trigger] layer[j] matches Some(c) ==> c@.len() == used
            && is_chain(f, end, cut_chain(c@), j))
}

/// Every boundary reachable in `used` fitting steps has a kept cut list.
pub open spec fn layer_complete(
    f: Seq<Seq<bool>>,
    end: int,
    layer: Seq<Option<Vec<usize>>>,
    used: nat,
) -> bool {
    forall|p: Seq<int>, j: int|
        0 <= j < layer.len() && #[trigger] is_chain(f, end, p, j) && p.len() == used + 1
            ==> layer[j] is Some
}

/// Whether `ans` gives every answer that `prefer` can give: whenever `prefer(a, b)`
/// returns `r`, `r` is `ans(a, b)`. A closure that answers by its arguments alone
/// has exactly one such function.
pub open spec fn answers_by<F: Fn(&Vec<usize>, &Vec<usize>) -> bool>(
    prefer: F,
    ans: spec_fn(Seq<usize>, Seq<usize>) -> bool,
) -> bool {
    forall|a: &Vec<usize>, b: &Vec<usize>, r: bool|
        #[trigger] prefer.ensures((a, b), r) ==> r == ans(a@, b@)
}

/// A layer of kept cut lists, by their views.
pub open spec fn layer_view(layer: Seq<Option<Vec<usize>>>) -> Seq<Option<Seq<usize>>> {
    layer.map_values(
        |o: Option<Vec<usize>>|
            match o {
                Some(c) => Some(c@),
                None => None,
            },
    )
}

/// The layer for no segments: only boundary 0 is reached, by the empty cut list.
pub open spec fn start_layer(n: nat) -> Seq<Option<Seq<usize>>> {
    Seq::new(n, |j: int| if j == 0 { Some(Seq::<usize>::empty()) } else { None })
}

/// Offers the candidate `c` extended to boundary `next` to the layer `kept`: it is
/// kept when nothing is kept at `next` yet or `ans` prefers it to what is kept.
pub open spec fn offer(
    f: Seq<Seq<bool>>,
    c: Seq<usize>,
    s: int,
    next: int,
    kept: Seq<Option<Seq<usize>>>,
    ans: spec_fn(Seq<usize>, Seq<usize>) -> bool,
) -> Seq<Option<Seq<usize>>> {
    if f[s][next] {
        let candidate = c.push(next as usize);
        match kept[next] {
            None => kept.update(next, Some(candidate)),
            Some(k) => if ans(candidate, k) {
                kept.update(next, Some(candidate))
            } else {
                kept
            },
        }
    } else {
        kept
    }
}

/// The layer after offering the cut list `c` at boundary `s` extended to each of the
/// next `count` boundaries `s + 1, s + 2, ...` in increasing order.
pub open spec fn offer_ends(
    f: Seq<Seq<bool>>,
    c: Seq<usize>,
    s: int,
    count: int,
    kept: Seq<Option<Seq<usize>>>,
    ans: spec_fn(Seq<usize>, Seq<usize>) -> bool,
) -> Seq<Option<Seq<usize>>>
    decreases count,
{
    if count <= 0 {
        kept
    } else {
        offer(f, c, s, s + count, offer_ends(f, c, s, count - 1, kept, ans), ans)
    }
}

/// The next layer built from the first `count` starts of `cur`, in increasing order.
pub open spec fn offer_starts(
    f: Seq<Seq<bool>>,
    end: int,
    cur: Seq<Option<Seq<usize>>>,
    count: int,
    ans: spec_fn(Seq<usize>, Seq<usize>) -> bool,
) -> Seq<Option<Seq<usize>>>
    decreases count,
{
    if count <= 0 {
        Seq::new(cur.len(), |j: int| None)
    } else {
        let before = offer_starts(f, end, cur, count - 1, ans);
        match cur[count - 1] {
            Some(c) => offer_ends(f, c, count - 1, end - (count - 1), before, ans),
            None => before,
        }
    }
}

/// The kept cut lists after `used` segments, when `ans` answers every preference.
pub open spec fn kept_layer(
    f: Seq<Seq<bool>>,
    n: nat,
    used: nat,
    ans: spec_fn(Seq<usize>, Seq<usize>) -> bool,
) -> Seq<Option<Seq<usize>>>
    decreases used,
{
    if used == 0 {
        start_layer(n)
    } else {
        offer_starts(f, n - 1, kept_layer(f, n, (used - 1) as nat, ans), n - 1, ans)
    }
}

/// The partition into `count` segments that the search keeps when `ans` answers
/// every preference: boundary 0, then the cut list kept at the last boundary.
pub open spec fn kept_partition(
    f: Seq<Seq<bool>>,
    n: nat,
    count: nat,
    ans: spec_fn(Seq<usize>, Seq<usize>) -> bool,
) -> Option<Seq<usize>> {
    match kept_layer(f, n, count, ans)[n - 1] {
        Some(c) => Some(seq![0usize] + c),
        None => None,
    }
}

/// An optional list of boundaries, by its view.
pub open spec fn opt_view(r: Option<Vec<usize>>) -> Option<Seq<usize>> {
    match r {
        Some(v) => Some(v@),
        None => None,
    }
}

/// Whether the search keeps the partition `p` into `count` segments for every
/// answer function of `prefer`.
pub open spec fn keeps<F: Fn(&Vec<usize>, &Vec<usize>) -> bool>(
    prefer: F,
    f: Seq<Seq<bool>>,
    n: nat,
    count: nat,
    p: Seq<usize>,
) -> bool {
    forall|ans: spec_fn(Seq<usize>, Seq<usize>) -> bool|
        #[trigger] answers_by(prefer, ans) ==> kept_partition(f, n, count, ans) == Some(p)
}

proof fn lemma_chain_last_step(f: Seq<Seq<bool>>, end: int, p: Seq<int>, j: int)
    requires
        is_chain(f, end, p, j),
        p.len() >= 2,
    ensures
        is_chain(f, end, p.drop_last(), p[p.len() - 2]),
        step_ok(f, end, p, p.len() - 2),
        p[p.len() - 2] < j,
        p[p.len() - 2] < end,
        f[p[p.len() - 2]][j],
{
    let q = p.drop_last();
    assert(step_ok(f, end, p, p.len() - 2));
    assert forall|k: int| 0 <= k < q.len() - 1 implies #[trigger] step_ok(f, end, q, k) by {
        assert(step_ok(f, end, p, k));
    }
}

proof fn lemma_chain_increasing(f: Seq<Seq<bool>>, end: int, p: Seq<int>, j: int, k: int)
    requires
        is_chain(f, end, p, j),
        0 <= k < p.len(),
    ensures
        p[k] >= k,
    decreases k,
{
    if k > 0 {
        lemma_chain_increasing(f, end, p, j, k - 1);
        assert(step_ok(f, end, p, k - 1));
    }
}

proof fn lemma_chain_extend(f: Seq<Seq<bool>>, end: int, c: Seq<usize>, start: int, next: usize)
    requires
        is_chain(f, end, cut_chain(c), start),
        start < next,
        start < end,
        f[start][next as int],
    ensures
        is_chain(f, end, cut_chain(c.push(next)), next as int),
        cut_chain(c.push(next)) == cut_chain(c).push(next as int),
{
    let p = cut_chain(c);
    let q = cut_chain(c.push(next));
    assert(ints(c.push(next)) =~= ints(c).push(next as int));
    assert(q =~= p.push(next as int));
    assert forall|k: int| 0 <= k < q.len() - 1 implies #[trigger] step_ok(f, end, q, k) by {
        if k < p.len() - 1 {
            assert(step_ok(f, end, p, k));
        }
    }
}

fn copy_indices(v: &Vec<usize>) -> (r: Vec<usize>)
    ensures
        r@ == v@,
{
    let mut r: Vec<usize> = Vec::new();
    let mut k: usize = 0;
    while k < v.len()
        invariant
            k <= v@.len(),
            r@ == v@.take(k as int),
        decreases v@.len() - k,
    {
        r.push(v[k]);
        proof {
            assert(v@.take(k + 1) =~= v@.take(k as int).push(v@[k as int]));
        }
        k = k + 1;
    }
    proof {
        assert(v@.take(v@.len() as int) =~= v@);
    }
    r
}

fn empty_layer(n: usize) -> (layer: Vec<Option<Vec<usize>>>)
    ensures
        layer@.len() == n,
        forall|j: int| 0 <= j < n ==> #[trigger] layer@[j] is None,
{
    let mut layer: Vec<Option<Vec<usize>>> = Vec::new();
    let mut j: usize = 0;
    while j < n
        invariant
            j <= n,
            layer@.len() == j,
            forall|i: int| 0 <= i < j ==> #[trigger] layer@[i] is None,
        decreases n - j,
    {
        layer.push(None);
        j = j + 1;
    }
    layer
}

fn first_layer(fits: &Vec<Vec<bool>>) -> (layer: Vec<Option<Vec<usize>>>)
    requires
        square_table(fits@),
    ensures
        layer@.len() == fits@.len(),
        layer_sound(fit_rows(fits@), fits@.len() - 1, layer@, 0),
        layer_complete(fit_rows(fits@), fits@.len() - 1, layer@, 0),
        layer_view(layer@) == start_layer(fits@.len()),
{
    let ghost f = fit_rows(fits@);
    let ghost e = fits@.len() - 1;
    let mut layer = empty_layer(fits.len());
    layer.set(0, Some(Vec::new()));
    proof {
        assert forall|j: int| 0 <= j < layer@.len() implies (#[trigger] layer@[j] matches Some(c)
            ==> c@.len() == 0 && is_chain(f, e, cut_chain(c@), j)) by {
            if j == 0 {
                let c = layer@[0]->0;
                assert(cut_chain(c@) =~= seq![0int]);
            }
        }
        assert forall|p: Seq<int>, j: int|
            0 <= j < layer@.len() && #[trigger] is_chain(f, e, p, j) && p.len() == 0nat + 1
                implies layer@[j] is Some by {
            assert(j == p[0]);
        }
        assert(layer_view(layer@) =~= start_layer(fits@.len()));
    }
    layer
}

fn chain_indices(cuts: &Vec<usize>) -> (indices: Vec<usize>)
    ensures
        ints(indices@) == cut_chain(cuts@),
        indices@ == seq![0usize] + cuts@,
{
    let mut indices: Vec<usize> = Vec::new();
    indices.push(0);
    proof {
        assert(ints(indices@) =~= cut_chain(cuts@).take(1));
    }
    let mut k: usize = 0;
    while k < cuts.len()
        invariant
            k <= cuts@.len(),
            ints(indices@) == cut_chain(cuts@).take(k + 1),
        decreases cuts@.len() - k,
    {
        let ghost before = indices@;
        indices.push(cuts[k]);
        proof {
            assert(indices@ == before.push(cuts@[k as int]));
            assert(ints(indices@) =~= ints(before).push(cuts@[k as int] as int));
            assert(cut_chain(cuts@)[k + 1] == cuts@[k as int] as int);
            assert(cut_chain(cuts@).take(k + 2) =~= cut_chain(cuts@).take(k + 1).push(
                cut_chain(cuts@)[k + 1],
            ));
        }
        k = k + 1;
    }
    proof {
        assert(cut_chain(cuts@).take(cuts@.len() + 1int) =~= cut_chain(cuts@));
        assert(indices@.len() == cuts@.len() + 1);
        assert forall|i: int| 0 <= i < indices@.len() implies indices@[i] == (seq![0usize] + cuts@)[i] by {
            assert(ints(indices@)[i] == cut_chain(cuts@)[i]);
        }
        assert(indices@ =~= seq![0usize] + cuts@);
    }
    indices
}

/// Extends every chain of the layer for `used` segments by one fitting step, keeping
/// for each boundary the candidate that `prefer` ranks above the one kept so far.
fn next_layer<F: Fn(&Vec<usize>, &Vec<usize>) -> bool>(
    fits: &Vec<Vec<bool>>,
    cur: &Vec<Option<Vec<usize>>>,
    used: usize,
    prefer: &F,
) -> (nxt: Vec<Option<Vec<usize>>>)
    requires
        square_table(fits@),
        cur@.len() == fits@.len(),
        used < usize::MAX,
        layer_sound(fit_rows(fits@), fits@.len() - 1, cur@, used as nat),
        layer_complete(fit_rows(fits@), fits@.len() - 1, cur@, used as nat),
        forall|a: &Vec<usize>, b: &Vec<usize>| #[trigger] prefer.requires((a, b)),
    ensures
        nxt@.len() == fits@.len(),
        layer_sound(fit_rows(fits@), fits@.len() - 1, nxt@, (used + 1) as nat),
        layer_complete(fit_rows(fits@), fits@.len() - 1, nxt@, (used + 1) as nat),
        forall|ans: spec_fn(Seq<usize>, Seq<usize>) -> bool|
            #[trigger] answers_by(*prefer, ans) ==> layer_view(nxt@) == offer_starts(
                fit_rows(fits@),
                fits@.len() - 1,
                layer_view(cur@),
                fits@.len() - 1,
                ans,
            ),
{
    let n = fits.len();
    let end = n - 1;
    let ghost f = fit_rows(fits@);
    let ghost e = end as int;
    let ghost cv = layer_view(cur@);
    let mut nxt = empty_layer(n);
    proof {
        assert forall|ans: spec_fn(Seq<usize>, Seq<usize>) -> bool|
            #[trigger] answers_by(*prefer, ans) implies layer_view(nxt@) == offer_starts(f, e, cv, 0, ans) by {
            assert(layer_view(nxt@) =~= offer_starts(f, e, cv, 0, ans));
        }
    }
    let mut start: usize = 0;
    proof {
        assert forall|p: Seq<int>, j: int|
            0 <= j < n && #[trigger] is_chain(f, e, p, j) && p.len() == used + 2 && p[used as int]
                < 0 implies nxt@[j] is Some by {
            lemma_chain_increasing(f, e, p, j, used as int);
        }
    }
    while start < end
        invariant
            n == fits@.len(),
            end == n - 1,
            e == end,
            f == fit_rows(fits@),
            square_table(fits@),
            cur@.len() == n,
            used < usize::MAX,
            layer_sound(f, e, cur@, used as nat),
            layer_complete(f, e, cur@, used as nat),
            forall|a: &Vec<usize>, b: &Vec<usize>| #[trigger] prefer.requires((a, b)),
            start <= end,
            nxt@.len() == n,
            layer_sound(f, e, nxt@, (used + 1) as nat),
            forall|p: Seq<int>, j: int|
                0 <= j < n && #[trigger] is_chain(f, e, p, j) && p.len() == used + 2 && p[used as int]
                    < start ==> nxt@[j] is Some,
            cv == layer_view(cur@),
            forall|ans: spec_fn(Seq<usize>, Seq<usize>) -> bool|
                #[trigger] answers_by(*prefer, ans) ==> layer_view(nxt@) == offer_starts(
                    f,
                    e,
                    cv,
                    start as int,
                    ans,
                ),
        decreases end - start,
    {
        match &cur[start] {
            Some(cuts) => {
                proof {
                    assert(cur@[start as int] matches Some(c) && c@.len() == used && is_chain(
                        f,
                        e,
                        cut_chain(c@),
                        start as int,
                    ));
                }
                let mut next: usize = start + 1;
                proof {
                    assert(cv[start as int] == Some(cuts@));
                    assert forall|ans: spec_fn(Seq<usize>, Seq<usize>) -> bool|
                        #[trigger] answers_by(*prefer, ans) implies layer_view(nxt@) == offer_ends(
                            f,
                            cuts@,
                            start as int,
                            next - start - 1,
                            offer_starts(f, e, cv, start as int, ans),
                            ans,
                        ) by {}
                }
                proof {
                    assert forall|p: Seq<int>, j: int|
                        0 <= j < n && #[trigger] is_chain(f, e, p, j) && p.len() == used + 2 && (
                        p[used as int] < start || (p[used as int] == start && j < next))
                            implies nxt@[j] is Some by {
                        if p[used as int] == start {
                            lemma_chain_last_step(f, e, p, j);
                        }
                    }
                }
                while next <= end
                    invariant
                        n == fits@.len(),
                        end == n - 1,
                        e == end,
                        f == fit_rows(fits@),
                        square_table(fits@),
                        cur@.len() == n,
                        used < usize::MAX,
                        start < end,
                        cuts@.len() == used,
                        is_chain(f, e, cut_chain(cuts@), start as int),
                        forall|a: &Vec<usize>, b: &Vec<usize>| #[trigger] prefer.requires((a, b)),
                        start + 1 <= next <= end + 1,
                        nxt@.len() == n,
                        layer_sound(f, e, nxt@, (used + 1) as nat),
                        forall|p: Seq<int>, j: int|
                            0 <= j < n && #[trigger] is_chain(f, e, p, j) && p.len() == used + 2 && (
                            p[used as int] < start || (p[used as int] == start && j < next))
                                ==> nxt@[j] is Some,
                        cv == layer_view(cur@),
                        cv[start as int] == Some(cuts@),
                        forall|ans: spec_fn(Seq<usize>, Seq<usize>) -> bool|
                            #[trigger] answers_by(*prefer, ans) ==> layer_view(nxt@) == offer_ends(
                                f,
                                cuts@,
                                start as int,
                                next - start - 1,
                                offer_starts(f, e, cv, start as int, ans),
                                ans,
                            ),
                    decreases end + 1 - next,
                {
                    proof {
                        assert(f[start as int] == fits@[start as int]@);
                    }
                    let ghost before = layer_view(nxt@);
                    let ghost k = next - start - 1;
                    if fits[start][next] {
                        let mut candidate = copy_indices(cuts);
                        candidate.push(next);
                        proof {
                            lemma_chain_extend(f, e, cuts@, start as int, next);
                        }
                        let replace = match &nxt[next] {
                            None => true,
                            Some(existing) => {
                                let r = prefer(&candidate, existing);
                                proof {
                                    assert(before[next as int] == Some(existing@));
                                    assert forall|ans: spec_fn(Seq<usize>, Seq<usize>) -> bool|
                                        #[trigger] answers_by(*prefer, ans) implies r == ans(
                                            candidate@,
                                            existing@,
                                        ) by {}
                                }
                                r
                            },
                        };
                        proof {
                            assert forall|ans: spec_fn(Seq<usize>, Seq<usize>) -> bool|
                                #[trigger] answers_by(*prefer, ans) implies replace == (match before[next as int] {
                                    None => true,
                                    Some(kept) => ans(cuts@.push(next), kept),
                                }) by {
                                assert(candidate@ == cuts@.push(next));
                            }
                        }
                        if replace {
                            nxt.set(next, Some(candidate));
                            proof {
                                assert(layer_view(nxt@) =~= before.update(next as int, Some(cuts@.push(next))));
                            }
                        }
                    }
                    proof {
                        assert forall|ans: spec_fn(Seq<usize>, Seq<usize>) -> bool|
                            #[trigger] answers_by(*prefer, ans) implies layer_view(nxt@) == offer_ends(
                                f,
                                cuts@,
                                start as int,
                                k + 1,
                                offer_starts(f, e, cv, start as int, ans),
                                ans,
                            ) by {
                            assert(start + (k + 1) == next);
                        }
                    }
                    proof {
                        assert forall|p: Seq<int>, j: int|
                            0 <= j < n && #[trigger] is_chain(f, e, p, j) && p.len() == used + 2 && (
                            p[used as int] < start || (p[used as int] == start && j < next + 1))
                                implies nxt@[j] is Some by {
                            if p[used as int] == start && j == next {
                                lemma_chain_last_step(f, e, p, j);
                            }
                        }
                    }
                    next = next + 1;
                }
                proof {
                    assert forall|ans: spec_fn(Seq<usize>, Seq<usize>) -> bool|
                        #[trigger] answers_by(*prefer, ans) implies layer_view(nxt@) == offer_starts(
                            f,
                            e,
                            cv,
                            start + 1,
                            ans,
                        ) by {
                        assert(next - start - 1 == e - start);
                    }
                }
            },
            None => {
                proof {
                    assert(cv[start as int] is None);
                    assert forall|ans: spec_fn(Seq<usize>, Seq<usize>) -> bool|
                        #[trigger] answers_by(*prefer, ans) implies layer_view(nxt@) == offer_starts(
                            f,
                            e,
                            cv,
                            start + 1,
                            ans,
                        ) by {}
                    assert forall|p: Seq<int>, j: int|
                        0 <= j < n && #[trigger] is_chain(f, e, p, j) && p.len() == used + 2
                            && p[used as int] < start + 1 implies nxt@[j] is Some by {
                        if p[used as int] == start {
                            lemma_chain_last_step(f, e, p, j);
                            assert(is_chain(f, e, p.drop_last(), start as int));
                            assert(cur@[start as int] is Some);
                        }
                    }
                }
            },
        }
        start = start + 1;
    }
    proof {
        assert forall|p: Seq<int>, j: int|
            0 <= j < n && #[trigger] is_chain(f, e, p, j) && p.len() == (used + 1) as nat + 1
                implies nxt@[j] is Some by {
            lemma_chain_last_step(f, e, p, j);
        }
    }
    nxt
}

/// Finds a partition of boundaries `0..=end` (`end` the last row of `fits`) into
/// exactly `segment_count` segments that all fit, if there is one. Where several
/// fit, each boundary keeps the cut list that `prefer(candidate, kept)` ranks above
/// the one found earlier, trying starts and then ends in increasing order; the
/// result is then [`kept_partition`] for the answers `prefer` gives.
pub fn best_partition<F: Fn(&Vec<usize>, &Vec<usize>) -> bool>(
    fits: &Vec<Vec<bool>>,
    segment_count: usize,
    prefer: &F,
) -> (result: Option<Vec<usize>>)
    requires
        square_table(fits@),
        forall|a: &Vec<usize>, b: &Vec<usize>| #[trigger] prefer.requires((a, b)),
    ensures
        result matches Some(ix) ==> is_partition(
            fit_rows(fits@),
            fits@.len() - 1,
            ints(ix@),
            segment_count as nat,
        ),
        result is None <==> !partition_exists(fit_rows(fits@), fits@.len() - 1, segment_count as nat),
        forall|ans: spec_fn(Seq<usize>, Seq<usize>) -> bool|
            #[trigger] answers_by(*prefer, ans) ==> opt_view(result) == kept_partition(
                fit_rows(fits@),
                fits@.len(),
                segment_count as nat,
                ans,
            ),
{
    let n = fits.len();
    let end = n - 1;
    let ghost f = fit_rows(fits@);
    let ghost e = end as int;
    let mut cur = first_layer(fits);
    let mut used: usize = 0;
    while used < segment_count
        invariant
            n == fits@.len(),
            end == n - 1,
            e == end,
            f == fit_rows(fits@),
            square_table(fits@),
            used <= segment_count,
            cur@.len() == n,
            layer_sound(f, e, cur@, used as nat),
            layer_complete(f, e, cur@, used as nat),
            forall|a: &Vec<usize>, b: &Vec<usize>| #[trigger] prefer.requires((a, b)),
            forall|ans: spec_fn(Seq<usize>, Seq<usize>) -> bool|
                #[trigger] answers_by(*prefer, ans) ==> layer_view(cur@) == kept_layer(
                    f,
                    n as nat,
                    used as nat,
                    ans,
                ),
        decreases segment_count - used,
    {
        cur = next_layer(fits, &cur, used, prefer);
        used = used + 1;
    }
    match &cur[end] {
        Some(cuts) => {
            let indices = chain_indices(cuts);
            proof {
                assert(is_partition(f, e, ints(indices@), segment_count as nat));
            }
            Some(indices)
        },
        None => {
            proof {
                assert forall|p: Seq<int>| !#[trigger] is_partition(f, e, p, segment_count as nat) by {
                    if is_partition(f, e, p, segment_count as nat) {
                        assert(is_chain(f, e, p, e));
                    }
                }
            }
            None
        },
    }
}

/// Whether no segment count among the first `k` of `order` admits a printable partition.
pub open spec fn none_fits_before(f: Seq<Seq<bool>>, end: int, order: Seq<nat>, k: int) -> bool {
    forall|k2: int| 0 <= k2 < k ==> !partition_exists(f, end, #[trigger] order[k2])
}

/// Finds the printable partition of the first segment count, in the order of
/// [`segment_count_order_of`], for which one exists: the one [`best_partition`]
/// keeps for that count.
pub fn plan_partition<F: Fn(&Vec<usize>, &Vec<usize>) -> bool>(
    fits: &Vec<Vec<bool>>,
    preferred_segment_count: Option<usize>,
    max_segment_count: usize,
    prefer: &F,
) -> (result: Result<Vec<usize>, SegmentationError>)
    requires
        square_table(fits@),
        max_segment_count >= 1,
        forall|a: &Vec<usize>, b: &Vec<usize>| #[trigger] prefer.requires((a, b)),
    ensures
        result matches Ok(ix) ==> exists|k: int|
            0 <= k < max_segment_count && #[trigger] is_partition(
                fit_rows(fits@),
                fits@.len() - 1,
                ints(ix@),
                segment_count_order_of(preferred_segment_count, max_segment_count as nat)[k],
            ) && none_fits_before(
                fit_rows(fits@),
                fits@.len() - 1,
                segment_count_order_of(preferred_segment_count, max_segment_count as nat),
                k,
            ) && keeps(
                *prefer,
                fit_rows(fits@),
                fits@.len(),
                segment_count_order_of(preferred_segment_count, max_segment_count as nat)[k],
                ix@,
            ),
        preferred_segment_count is None ==> (result matches Ok(ix) ==> forall|c: nat|
            1 <= c < ix@.len() - 1 ==> !#[trigger] partition_exists(fit_rows(fits@), fits@.len() - 1, c)),
        result is Err ==> result == Err::<Vec<usize>, SegmentationError>(
            SegmentationError::NoPrintablePartition,
        ) && forall|c: nat|
            1 <= c <= max_segment_count ==> !#[trigger] partition_exists(
                fit_rows(fits@),
                fits@.len() - 1,
                c,
            ),
{
    let ghost f = fit_rows(fits@);
    let ghost e = fits@.len() - 1;
    let ghost spec_order = segment_count_order_of(preferred_segment_count, max_segment_count as nat);
    proof {
        lemma_segment_count_order_permutation(preferred_segment_count, max_segment_count as nat);
    }
    let order = segment_count_order(preferred_segment_count, max_segment_count);
    let mut k: usize = 0;
    while k < order.len()
        invariant
            f == fit_rows(fits@),
            e == fits@.len() - 1,
            square_table(fits@),
            spec_order == segment_count_order_of(preferred_segment_count, max_segment_count as nat),
            spec_order.len() == max_segment_count,
            order@.len() == max_segment_count,
            forall|i: int| 0 <= i < order@.len() ==> order@[i] as nat == #[trigger] spec_order[i],
            k <= order@.len(),
            forall|k2: int| 0 <= k2 < k ==> !partition_exists(f, e, #[trigger] spec_order[k2]),
            forall|a: &Vec<usize>, b: &Vec<usize>| #[trigger] prefer.requires((a, b)),
        decreases order@.len() - k,
    {
        let count = order[k];
        proof {
            assert(count as nat == spec_order[k as int]);
        }
        match best_partition(fits, count, prefer) {
            Some(indices) => {
                proof {
                    assert(is_partition(f, e, ints(indices@), spec_order[k as int]));
                    assert(none_fits_before(f, e, spec_order, k as int));
                }
                let r: Result<Vec<usize>, SegmentationError> = Ok(indices);
                proof {
                    if preferred_segment_count is None {
                        assert forall|c: nat| 1 <= c < indices@.len() - 1 implies !#[trigger] partition_exists(f, e, c) by {
                            assert(spec_order[c - 1] == c);
                        }
                    }
                    let ix = r->Ok_0;
                    assert(ix@ == indices@);
                    assert(keeps(*prefer, f, fits@.len(), spec_order[k as int], ix@));
                    assert(is_partition(
                        fit_rows(fits@),
                        fits@.len() - 1,
                        ints(ix@),
                        segment_count_order_of(preferred_segment_count, max_segment_count as nat)[k as int],
                    ));
                }
                return r;
            },
            None => {},
        }
        k = k + 1;
    }
    proof {
        assert forall|c: nat| 1 <= c <= max_segment_count implies !#[trigger] partition_exists(f, e, c) by {
            assert(spec_order.contains(c));
            let i = choose|i: int| 0 <= i < spec_order.len() && spec_order[i] == c;
            assert(!partition_exists(f, e, spec_order[i]));
        }
    }
    Err(SegmentationError::NoPrintablePartition)
}

} // verus!
