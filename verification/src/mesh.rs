//! Triangle topology of the lofted and faceted solids built by the geometry layers.
//!
//! A loft is a stack of `ring_count` rings of `ring_len` vertices each; vertex `j` of
//! ring `s` has index `s * ring_len + j`. The functions here produce the vertex indices
//! of the triangles, three per triangle.
use vstd::prelude::*;

verus! {

/// The two triangles that join vertex `i` of ring start `a` to the next ring start `b`.
pub open spec fn loft_quad(a: int, b: int, i: int, n: int) -> Seq<int> {
    let next = (i + 1) % n;
    seq![a + i, b + i, b + next, a + i, b + next, a + next]
}

/// The quads joining the first `count` vertices of a ring starting at `a` to the ring starting at `b`.
pub open spec fn ring_band(a: int, b: int, n: int, count: nat) -> Seq<int>
    decreases count,
{
    if count == 0 {
        Seq::empty()
    } else {
        ring_band(a, b, n, (count - 1) as nat) + loft_quad(a, b, count - 1, n)
    }
}

/// The side wall joining the first `bands + 1` rings of length `n`.
pub open spec fn loft_sides(n: int, bands: nat) -> Seq<int>
    decreases bands,
{
    if bands == 0 {
        Seq::empty()
    } else {
        let s = bands - 1;
        loft_sides(n, (bands - 1) as nat) + ring_band(s * n, (s + 1) * n, n, n as nat)
    }
}

/// The fan that closes the first ring: triangles `(0, i, i + 1)` for `i` in `1..=count`.
pub open spec fn root_cap(count: nat) -> Seq<int>
    decreases count,
{
    if count == 0 {
        Seq::empty()
    } else {
        root_cap((count - 1) as nat) + seq![0, count as int, count as int + 1]
    }
}

/// The fan that closes the ring starting at `end`, wound opposite to the root cap:
/// triangles `(end, end + i + 1, end + i)` for `i` in `1..=count`.
pub open spec fn tip_cap(end: int, count: nat) -> Seq<int>
    decreases count,
{
    if count == 0 {
        Seq::empty()
    } else {
        tip_cap(end, (count - 1) as nat) + seq![end, end + count as int + 1, end + count as int]
    }
}

/// The number of fan triangles in one end cap of a ring of `n` vertices.
pub open spec fn cap_count(n: int) -> nat {
    if n >= 2 {
        (n - 2) as nat
    } else {
        0
    }
}

/// The triangles of a closed loft: the side wall, the root cap and the tip cap.
pub open spec fn closed_loft(ring_count: nat, n: nat) -> Seq<int> {
    loft_sides(n as int, (ring_count - 1) as nat) + root_cap(cap_count(n as int)) + tip_cap(
        (ring_count - 1) * n,
        cap_count(n as int),
    )
}

/// Whether every entry of `s` lies in `0..bound`.
pub open spec fn indices_below(s: Seq<int>, bound: int) -> bool {
    forall|k: int| 0 <= k < s.len() ==> 0 <= #[trigger] s[k] < bound
}

/// The values of a `u64` sequence, as integers.
pub open spec fn as_ints(s: Seq<u64>) -> Seq<int> {
    s.map_values(|v: u64| v as int)
}

fn push_quad(out: &mut Vec<u64>, a: u64, b: u64, i: u64, n: u64)
    requires
        n >= 1,
        i < n,
        b + n <= u64::MAX,
        a + n <= u64::MAX,
    ensures
        as_ints(final(out)@) == as_ints(old(out)@) + loft_quad(a as int, b as int, i as int, n as int),
{
    let next = (i + 1) % n;
    out.push(a + i);
    out.push(b + i);
    out.push(b + next);
    out.push(a + i);
    out.push(b + next);
    out.push(a + next);
    proof {
        assert(as_ints(out@) =~= as_ints(old(out)@) + loft_quad(a as int, b as int, i as int, n as int));
    }
}

proof fn lemma_ring_offsets(s: nat, rings: nat, n: nat)
    requires
        s + 1 < rings,
    ensures
        (s + 1) * n + n <= rings * n,
        s * n + n == (s + 1) * n,
        s * n <= (s + 1) * n,
{
    assert((s + 1) * n + n == (s + 2) * n) by (nonlinear_arith);
    assert((s + 2) * n <= rings * n) by (nonlinear_arith)
        requires
            s + 2 <= rings,
    ;
    assert(s * n + n == (s + 1) * n) by (nonlinear_arith);
}

/// The triangles of a closed loft of `ring_count` rings of `ring_len` vertices: for
/// each pair of neighbouring rings, two triangles per ring vertex, then a fan over the
/// first ring and an oppositely wound fan over the last ring.
pub fn closed_loft_triangles(ring_count: usize, ring_len: usize) -> (triangles: Vec<u64>)
    requires
        ring_count >= 1,
        ring_len >= 1,
        ring_count * ring_len <= usize::MAX,
        ring_count * ring_len <= u64::MAX,
    ensures
        as_ints(triangles@) == closed_loft(ring_count as nat, ring_len as nat),
        indices_below(as_ints(triangles@), (ring_count * ring_len) as int),
        triangles@.len() == 6 * ring_len * (ring_count - 1) + 6 * cap_count(ring_len as int),
{
    let mut out: Vec<u64> = Vec::new();
    let n = ring_len as u64;
    let mut s: usize = 0;
    proof {
        assert(as_ints(out@) =~= loft_sides(n as int, 0));
    }
    while s + 1 < ring_count
        invariant
            ring_count >= 1,
            ring_len >= 1,
            n == ring_len,
            s + 1 <= ring_count,
            ring_count * ring_len <= usize::MAX,
            ring_count * ring_len <= u64::MAX,
            as_ints(out@) == loft_sides(n as int, s as nat),
        decreases ring_count - s,
    {
        proof {
            lemma_ring_offsets(s as nat, ring_count as nat, ring_len as nat);
        }
        let a = (s * ring_len) as u64;
        let b = ((s + 1) * ring_len) as u64;
        let ghost before = as_ints(out@);
        let mut i: u64 = 0;
        proof {
            assert(as_ints(out@) =~= before + ring_band(a as int, b as int, n as int, 0));
        }
        while i < n
            invariant
                n >= 1,
                i <= n,
                a + n <= u64::MAX,
                b + n <= u64::MAX,
                as_ints(out@) == before + ring_band(a as int, b as int, n as int, i as nat),
            decreases n - i,
        {
            let ghost prev = as_ints(out@);
            push_quad(&mut out, a, b, i, n);
            proof {
                assert(as_ints(out@) =~= before + ring_band(a as int, b as int, n as int, (i + 1) as nat));
            }
            i = i + 1;
        }
        proof {
            assert(as_ints(out@) =~= loft_sides(n as int, (s + 1) as nat));
        }
        s = s + 1;
    }
    let ghost sides = as_ints(out@);
    let caps: u64 = if n >= 2 { n - 2 } else { 0 };
    let mut i: u64 = 1;
    proof {
        assert(as_ints(out@) =~= sides + root_cap(0));
    }
    while i <= caps
        invariant
            1 <= i <= caps + 1,
            caps == cap_count(n as int),
            caps + 2 <= n || caps == 0,
            as_ints(out@) == sides + root_cap((i - 1) as nat),
        decreases caps + 1 - i,
    {
        let ghost prev = out@;
        out.push(0);
        out.push(i);
        out.push(i + 1);
        proof {
            assert(out@ =~= prev.push(0).push(i).push((i + 1) as u64));
            assert(as_ints(out@) =~= as_ints(prev) + seq![0int, i as int, i as int + 1]);
            assert(as_ints(out@) =~= sides + root_cap(i as nat));
        }
        i = i + 1;
    }
    let ghost with_root = as_ints(out@);
    proof {
        assert(((ring_count - 1) * ring_len) + ring_len == ring_count * ring_len) by (nonlinear_arith);
    }
    let end = ((ring_count - 1) * ring_len) as u64;
    let mut j: u64 = 1;
    proof {
        assert(as_ints(out@) =~= with_root + tip_cap(end as int, 0));
    }
    while j <= caps
        invariant
            1 <= j <= caps + 1,
            caps + 2 <= n || caps == 0,
            end + n <= u64::MAX,
            as_ints(out@) == with_root + tip_cap(end as int, (j - 1) as nat),
        decreases caps + 1 - j,
    {
        let ghost prev = out@;
        out.push(end);
        out.push(end + j + 1);
        out.push(end + j);
        proof {
            assert(out@ =~= prev.push(end).push((end + j + 1) as u64).push((end + j) as u64));
            assert(as_ints(out@) =~= as_ints(prev) + seq![end as int, end + j + 1, end + j]);
            assert(as_ints(out@) =~= with_root + tip_cap(end as int, j as nat));
        }
        j = j + 1;
    }
    proof {
        assert(end as int == (ring_count as int - 1) * ring_len as int);
        assert(as_ints(out@) =~= closed_loft(ring_count as nat, ring_len as nat));
        lemma_closed_loft_well_formed(ring_count as nat, ring_len as nat);
        assert(as_ints(out@).len() == out@.len());
    }
    out
}


proof fn lemma_ring_band_facts(a: int, b: int, n: int, count: nat, bound: int)
    requires
        n >= 1,
        count <= n,
        a >= 0,
        b >= 0,
        a + n <= bound,
        b + n <= bound,
    ensures
        ring_band(a, b, n, count).len() == 6 * count,
        indices_below(ring_band(a, b, n, count), bound),
    decreases count,
{
    if count > 0 {
        lemma_ring_band_facts(a, b, n, (count - 1) as nat, bound);
        let i = count - 1;
        let next = (i + 1) % n;
        assert(0 <= next < n);
        let prev = ring_band(a, b, n, (count - 1) as nat);
        let q = loft_quad(a, b, i, n);
        let all = ring_band(a, b, n, count);
        assert forall|k: int| 0 <= k < all.len() implies 0 <= #[trigger] all[k] < bound by {
            if k < prev.len() {
                assert(all[k] == prev[k]);
            } else {
                assert(all[k] == q[k - prev.len()]);
            }
        }
    }
}

proof fn lemma_loft_sides_facts(n: int, bands: nat)
    requires
        n >= 1,
    ensures
        loft_sides(n, bands).len() == 6 * n * bands,
        indices_below(loft_sides(n, bands), (bands + 1) * n),
    decreases bands,
{
    if bands == 0 {
        assert(6 * n * bands == 0);
    } else {
        let s = bands - 1;
        lemma_loft_sides_facts(n, s as nat);
        assert((s + 1) * n + n == (bands + 1) * n) by (nonlinear_arith)
            requires
                s + 1 == bands,
        ;
        assert(s * n + n == bands * n) by (nonlinear_arith)
            requires
                s + 1 == bands,
        ;
        assert(0 <= s * n) by (nonlinear_arith)
            requires
                s >= 0,
                n >= 1,
        ;
        assert(bands * n <= (bands + 1) * n) by (nonlinear_arith)
            requires
                n >= 1,
        ;
        lemma_ring_band_facts(s * n, (s + 1) * n, n, n as nat, (bands + 1) * n);
        assert(6 * n * s + 6 * n == 6 * n * bands) by (nonlinear_arith)
            requires
                s + 1 == bands,
        ;
        let prev = loft_sides(n, s as nat);
        let band = ring_band(s * n, (s + 1) * n, n, n as nat);
        let all = loft_sides(n, bands);
        assert(all == prev + band);
        assert(prev.len() == 6 * n * s);
        assert(band.len() == 6 * n);
        assert(all.len() == 6 * n * bands);
        assert forall|k: int| 0 <= k < all.len() implies 0 <= #[trigger] all[k] < (bands + 1) * n by {
            if k < prev.len() {
                assert(all[k] == prev[k]);
                assert(s * n <= (bands + 1) * n) by (nonlinear_arith)
                    requires
                        s <= bands + 1,
                        n >= 1,
                ;
                assert((s + 1) * n <= (bands + 1) * n) by (nonlinear_arith)
                    requires
                        s + 1 <= bands + 1,
                        n >= 1,
                ;
            } else {
                assert(all[k] == band[k - prev.len()]);
            }
        }
    }
}

proof fn lemma_root_cap_facts(count: nat)
    ensures
        root_cap(count).len() == 3 * count,
        indices_below(root_cap(count), count as int + 2),
    decreases count,
{
    if count > 0 {
        lemma_root_cap_facts((count - 1) as nat);
        let prev = root_cap((count - 1) as nat);
        let all = root_cap(count);
        assert forall|k: int| 0 <= k < all.len() implies 0 <= #[trigger] all[k] < count as int + 2 by {
            if k < prev.len() {
                assert(all[k] == prev[k]);
            }
        }
    }
}

proof fn lemma_tip_cap_facts(end: int, count: nat)
    requires
        end >= 0,
    ensures
        tip_cap(end, count).len() == 3 * count,
        indices_below(tip_cap(end, count), end + count + 2),
    decreases count,
{
    if count > 0 {
        lemma_tip_cap_facts(end, (count - 1) as nat);
        let prev = tip_cap(end, (count - 1) as nat);
        let all = tip_cap(end, count);
        assert forall|k: int| 0 <= k < all.len() implies 0 <= #[trigger] all[k] < end + count + 2 by {
            if k < prev.len() {
                assert(all[k] == prev[k]);
            }
        }
    }
}

proof fn lemma_indices_below_concat(a: Seq<int>, b: Seq<int>, bound: int)
    requires
        indices_below(a, bound),
        indices_below(b, bound),
    ensures
        indices_below(a + b, bound),
{
    let all = a + b;
    assert forall|k: int| 0 <= k < all.len() implies 0 <= #[trigger] all[k] < bound by {
        if k < a.len() {
            assert(all[k] == a[k]);
        } else {
            assert(all[k] == b[k - a.len()]);
        }
    }
}

proof fn lemma_indices_below_weaken(a: Seq<int>, small: int, bound: int)
    requires
        indices_below(a, small),
        small <= bound,
    ensures
        indices_below(a, bound),
{
}

/// A closed loft refers only to existing vertices: every index is below
/// `ring_count * ring_len`. It holds two triangles per vertex of every ring but the
/// last, plus `ring_len - 2` fan triangles at each end.
pub proof fn lemma_closed_loft_well_formed(ring_count: nat, ring_len: nat)
    requires
        ring_count >= 1,
        ring_len >= 1,
    ensures
        indices_below(closed_loft(ring_count, ring_len), (ring_count * ring_len) as int),
        closed_loft(ring_count, ring_len).len() == 6 * ring_len * (ring_count - 1) + 6 * cap_count(
            ring_len as int,
        ),
{
    let n = ring_len as int;
    let bands = (ring_count - 1) as nat;
    let total: int = (ring_count * ring_len) as int;
    lemma_loft_sides_facts(n, bands);
    assert((bands + 1) * n == total);
    let caps = cap_count(n);
    lemma_root_cap_facts(caps);
    let end = bands * n;
    assert(end >= 0) by (nonlinear_arith)
        requires
            end == bands * n,
            bands >= 0,
            n >= 1,
    ;
    lemma_tip_cap_facts(end, caps);
    assert(end + n == total) by (nonlinear_arith)
        requires
            total == ring_count * ring_len,
            bands + 1 == ring_count,
            n == ring_len,
            end == bands * n,
    ;
    assert(n <= total) by (nonlinear_arith)
        requires
            total == ring_count * ring_len,
            ring_count >= 1,
            n == ring_len,
            n >= 1,
    ;
    if n >= 2 {
        lemma_indices_below_weaken(root_cap(caps), caps as int + 2, total);
        lemma_indices_below_weaken(tip_cap(end, caps), end + caps as int + 2, total);
    } else {
        assert(root_cap(0) =~= Seq::<int>::empty());
        assert(tip_cap(end, 0) =~= Seq::<int>::empty());
    }
    lemma_indices_below_concat(loft_sides(n, bands), root_cap(caps), total);
    lemma_indices_below_concat(loft_sides(n, bands) + root_cap(caps), tip_cap(end, caps), total);
    assert(end == (ring_count - 1) * ring_len);
}

/// The triangles joining a ring of four vertices starting at `lower` to the ring of
/// four starting at `upper`, for the first `count` vertices.
pub open spec fn quad_ring_walls(lower: int, upper: int, count: nat) -> Seq<int>
    decreases count,
{
    if count == 0 {
        Seq::empty()
    } else {
        let i = count - 1;
        let next = (i + 1) % 4;
        quad_ring_walls(lower, upper, (count - 1) as nat) + seq![
            lower + i,
            upper + next,
            upper + i,
            lower + i,
            lower + next,
            upper + next,
        ]
    }
}

/// The triangles of a faceted diamond with a base quad `0..4` and a top quad `4..8`:
/// four walls joining the quads and two triangles closing each quad.
pub open spec fn diamond() -> Seq<int> {
    quad_ring_walls(0, 4, 4) + seq![0, 2, 1, 0, 3, 2] + seq![4, 5, 6, 4, 6, 7]
}

/// Appends the wall triangles joining the four-vertex ring at `lower` to the one at `upper`.
pub fn connect_quad_rings(out: &mut Vec<u64>, lower: u64, upper: u64)
    requires
        lower + 4 <= u64::MAX,
        upper + 4 <= u64::MAX,
    ensures
        as_ints(final(out)@) == as_ints(old(out)@) + quad_ring_walls(lower as int, upper as int, 4),
{
    let ghost start = as_ints(out@);
    let mut i: u64 = 0;
    proof {
        assert(as_ints(out@) =~= start + quad_ring_walls(lower as int, upper as int, 0));
    }
    while i < 4
        invariant
            i <= 4,
            lower + 4 <= u64::MAX,
            upper + 4 <= u64::MAX,
            as_ints(out@) == start + quad_ring_walls(lower as int, upper as int, i as nat),
        decreases 4 - i,
    {
        let next = (i + 1) % 4;
        let ghost prev = out@;
        out.push(lower + i);
        out.push(upper + next);
        out.push(upper + i);
        out.push(lower + i);
        out.push(lower + next);
        out.push(upper + next);
        proof {
            assert(as_ints(out@) =~= as_ints(prev) + seq![
                lower + i,
                upper + next,
                upper + i,
                lower + i,
                lower + next,
                upper + next,
            ]);
            assert(as_ints(out@) =~= start + quad_ring_walls(lower as int, upper as int, (i + 1) as nat));
        }
        i = i + 1;
    }
}

/// The triangles of a faceted diamond: the walls between its base and top quads,
/// then the base quad closed by triangles `(0, 2, 1)` and `(0, 3, 2)` and the top quad
/// by `(4, 5, 6)` and `(4, 6, 7)`.
pub fn diamond_triangles() -> (triangles: Vec<u64>)
    ensures
        as_ints(triangles@) == diamond(),
        triangles@.len() == 36,
        indices_below(diamond(), 8),
{
    let mut out: Vec<u64> = Vec::new();
    proof {
        assert(as_ints(out@) =~= Seq::<int>::empty());
    }
    connect_quad_rings(&mut out, 0, 4);
    let ghost walls = out@;
    out.push(0);
    out.push(2);
    out.push(1);
    out.push(0);
    out.push(3);
    out.push(2);
    out.push(4);
    out.push(5);
    out.push(6);
    out.push(4);
    out.push(6);
    out.push(7);
    proof {
        reveal_with_fuel(quad_ring_walls, 5);
        assert(as_ints(out@) =~= as_ints(walls) + seq![0, 2, 1, 0, 3, 2] + seq![4, 5, 6, 4, 6, 7]);
        assert(as_ints(out@) =~= diamond());
        let d = diamond();
        assert(d =~= seq![
            0, 5, 4, 0, 1, 5,
            1, 6, 5, 1, 2, 6,
            2, 7, 6, 2, 3, 7,
            3, 4, 7, 3, 0, 4,
            0, 2, 1, 0, 3, 2,
            4, 5, 6, 4, 6, 7
        ]);
    }
    out
}

/// The closed outline of a profile sampled along its upper and lower surfaces from
/// leading to trailing edge: the upper surface walked from trailing to leading edge,
/// then the lower surface from just behind the leading edge to just before the
/// trailing edge, so the shared edge points appear once each.
pub open spec fn surface_loop_of<T>(upper: Seq<T>, lower: Seq<T>) -> Seq<T> {
    upper.reverse() + lower.subrange(1, lower.len() - 1)
}

/// Joins upper and lower surface samples into one closed outline; see [`surface_loop_of`].
pub fn surface_loop<T: Copy>(upper: &Vec<T>, lower: &Vec<T>) -> (outline: Vec<T>)
    requires
        upper@.len() == lower@.len(),
        upper@.len() >= 2,
    ensures
        outline@ == surface_loop_of(upper@, lower@),
        outline@.len() == 2 * upper@.len() - 2,
{
    let n = upper.len();
    let mut out: Vec<T> = Vec::new();
    let mut i: usize = 0;
    while i < n
        invariant
            n == upper@.len(),
            i <= n,
            out@ =~= upper@.reverse().take(i as int),
        decreases n - i,
    {
        out.push(upper[n - 1 - i]);
        proof {
            assert(upper@.reverse().take(i + 1) =~= upper@.reverse().take(i as int).push(upper@[n - 1 - i]));
        }
        i = i + 1;
    }
    let ghost reversed = out@;
    let mut j: usize = 1;
    while j + 1 < n
        invariant
            n == upper@.len(),
            n == lower@.len(),
            n >= 2,
            1 <= j <= n - 1,
            reversed =~= upper@.reverse(),
            out@ =~= reversed + lower@.subrange(1, j as int),
        decreases n - j,
    {
        out.push(lower[j]);
        proof {
            assert(lower@.subrange(1, j + 1) =~= lower@.subrange(1, j as int).push(lower@[j as int]));
        }
        j = j + 1;
    }
    out
}

} // verus!
