//! Closedness of lofted meshes: every edge of a closed loft is shared with a
//! neighbouring triangle that runs along it the other way, so the triangles bound a
//! consistently oriented, watertight surface.
use crate::mesh::{closed_loft, loft_quad, loft_sides, ring_band, root_cap, tip_cap, cap_count};
use vstd::prelude::*;

verus! {

/// Whether triangle `t` of the index list `s` runs along the directed edge `u -> v`.
pub open spec fn triangle_has_edge(s: Seq<int>, t: int, u: int, v: int) -> bool {
    ||| (s[3 * t] == u && s[3 * t + 1] == v)
    ||| (s[3 * t + 1] == u && s[3 * t + 2] == v)
    ||| (s[3 * t + 2] == u && s[3 * t] == v)
}

/// Whether some triangle of `s` runs along the directed edge `u -> v`.
pub open spec fn has_edge(s: Seq<int>, u: int, v: int) -> bool {
    exists|t: int| 0 <= t < s.len() / 3 && #[trigger] triangle_has_edge(s, t, u, v)
}

/// Whether every edge of every triangle of `s` is also run along the other way by
/// some triangle of `s`.
pub open spec fn edges_paired(s: Seq<int>) -> bool {
    forall|t: int|
        0 <= t < s.len() / 3 ==> {
            &&& has_edge(s, #[trigger] s[3 * t + 1], s[3 * t])
            &&& has_edge(s, s[3 * t + 2], s[3 * t + 1])
            &&& has_edge(s, s[3 * t], s[3 * t + 2])
        }
}

proof fn lemma_ring_band_at(a: int, b: int, n: int, count: nat, i: int, r: int)
    requires
        0 <= i < count,
        0 <= r < 6,
    ensures
        ring_band(a, b, n, count).len() == 6 * count,
        ring_band(a, b, n, count)[6 * i + r] == loft_quad(a, b, i, n)[r],
    decreases count,
{
    let prev = ring_band(a, b, n, (count - 1) as nat);
    if count > 1 {
        if i < count - 1 {
            lemma_ring_band_at(a, b, n, (count - 1) as nat, i, r);
        } else {
            lemma_ring_band_at(a, b, n, (count - 1) as nat, 0, 0);
        }
    } else {
        assert(prev =~= Seq::<int>::empty());
    }
    assert(prev.len() == 6 * (count - 1));
    assert(ring_band(a, b, n, count) == prev + loft_quad(a, b, count - 1, n));
}

proof fn lemma_mul_bounds(s: int, n: int, i: int, bands: int)
    requires
        0 <= s < bands,
        0 <= i < n,
    ensures
        s * n + i < bands * n,
        0 <= s * n,
        (s + 1) * n == s * n + n,
        s < bands - 1 ==> s * n + i < (bands - 1) * n,
        s == bands - 1 ==> s * n == (bands - 1) * n,
{
    assert(s * n + i < (s + 1) * n) by (nonlinear_arith)
        requires
            i < n,
    ;
    assert((s + 1) * n <= bands * n) by (nonlinear_arith)
        requires
            s + 1 <= bands,
            n >= 0,
    ;
    assert(0 <= s * n) by (nonlinear_arith)
        requires
            s >= 0,
            n >= 0,
    ;
    assert((s + 1) * n == s * n + n) by (nonlinear_arith);
    if s < bands - 1 {
        assert((s + 1) * n <= (bands - 1) * n) by (nonlinear_arith)
            requires
                s + 1 <= bands - 1,
                n >= 0,
        ;
    }
}

proof fn lemma_loft_sides_at(n: int, bands: nat, s: int, i: int, r: int)
    requires
        n >= 1,
        0 <= s < bands,
        0 <= i < n,
        0 <= r < 6,
    ensures
        loft_sides(n, bands).len() == 6 * n * bands,
        loft_sides(n, bands)[6 * (s * n + i) + r] == loft_quad(s * n, (s + 1) * n, i, n)[r],
    decreases bands,
{
    let last = bands - 1;
    let prev = loft_sides(n, (bands - 1) as nat);
    let band = ring_band(last * n, (last + 1) * n, n, n as nat);
    lemma_mul_bounds(s, n, i, bands as int);
    if bands > 1 {
        if s < bands - 1 {
            lemma_loft_sides_at(n, (bands - 1) as nat, s, i, r);
        } else {
            lemma_loft_sides_at(n, (bands - 1) as nat, 0, 0, 0);
        }
    } else {
        assert(prev =~= Seq::<int>::empty());
        assert(6 * n * 0 == 0);
    }
    assert(prev.len() == 6 * n * (bands - 1));
    lemma_ring_band_at(last * n, (last + 1) * n, n, n as nat, i, r);
    assert(loft_sides(n, bands) == prev + band);
    assert(6 * n * (bands - 1) + 6 * n == 6 * n * bands) by (nonlinear_arith);
    assert(6 * (s * n + i) + r == 6 * (s * n) + 6 * i + r);
    assert(6 * n * (bands - 1) == 6 * ((bands - 1) * n)) by (nonlinear_arith);
    if s < bands - 1 {
        assert(6 * (s * n + i) + r < 6 * n * (bands - 1));
    } else {
        assert(6 * (s * n + i) + r - prev.len() == 6 * i + r);
    }
}

proof fn lemma_root_cap_at(count: nat, k: int, r: int)
    requires
        1 <= k <= count,
        0 <= r < 3,
    ensures
        root_cap(count).len() == 3 * count,
        root_cap(count)[3 * (k - 1) + r] == seq![0, k, k + 1][r],
    decreases count,
{
    let prev = root_cap((count - 1) as nat);
    if count > 1 {
        if k < count {
            lemma_root_cap_at((count - 1) as nat, k, r);
        } else {
            lemma_root_cap_at((count - 1) as nat, 1, 0);
        }
    } else {
        assert(prev =~= Seq::<int>::empty());
    }
    assert(prev.len() == 3 * (count - 1));
    assert(root_cap(count) == prev + seq![0, count as int, count as int + 1]);
}

proof fn lemma_tip_cap_at(end: int, count: nat, k: int, r: int)
    requires
        1 <= k <= count,
        0 <= r < 3,
    ensures
        tip_cap(end, count).len() == 3 * count,
        tip_cap(end, count)[3 * (k - 1) + r] == seq![end, end + k + 1, end + k][r],
    decreases count,
{
    let prev = tip_cap(end, (count - 1) as nat);
    if count > 1 {
        if k < count {
            lemma_tip_cap_at(end, (count - 1) as nat, k, r);
        } else {
            lemma_tip_cap_at(end, (count - 1) as nat, 1, 0);
        }
    } else {
        assert(prev =~= Seq::<int>::empty());
    }
    assert(prev.len() == 3 * (count - 1));
    assert(tip_cap(end, count) == prev + seq![end, end + count as int + 1, end + count as int]);
}

/// The index of the first cap triangle of a loft: two side triangles per ring vertex
/// of every band.
pub open spec fn side_triangles(rings: nat, n: nat) -> int {
    2 * n * (rings - 1)
}

/// The three corners of side triangle `h` (0 or 1) of quad `i` in band `s`, and of
/// root fan `k` and tip fan `k`, as they appear in a closed loft.
proof fn lemma_closed_loft_triangles(rings: nat, n: nat)
    requires
        rings >= 1,
        n >= 3,
    ensures
        closed_loft(rings, n).len() == 3 * (side_triangles(rings, n) + 2 * (n - 2)),
        forall|s: int, i: int, r: int|
            0 <= s < rings - 1 && 0 <= i < n && 0 <= r < 6 ==> #[trigger] closed_loft(rings, n)[6
                * (s * n + i) + r] == loft_quad(s * n, (s + 1) * n, i, n as int)[r],
        forall|k: int, r: int|
            1 <= k <= n - 2 && 0 <= r < 3 ==> #[trigger] closed_loft(rings, n)[3 * side_triangles(
                rings,
                n,
            ) + 3 * (k - 1) + r] == seq![0, k, k + 1][r],
        forall|k: int, r: int|
            1 <= k <= n - 2 && 0 <= r < 3 ==> #[trigger] closed_loft(rings, n)[3 * side_triangles(
                rings,
                n,
            ) + 3 * (n - 2) + 3 * (k - 1) + r] == seq![
                (rings - 1) * n,
                (rings - 1) * n + k + 1,
                (rings - 1) * n + k,
            ][r],
{
    let bands = (rings - 1) as nat;
    let sides = loft_sides(n as int, bands);
    let caps = cap_count(n as int);
    let end = (rings - 1) * n;
    let root = root_cap(caps);
    let tip = tip_cap(end as int, caps);
    crate::mesh::lemma_closed_loft_well_formed(rings, n);
    assert(caps == n - 2);
    assert(sides.len() == 6 * n * bands) by {
        if bands > 0 {
            lemma_loft_sides_at(n as int, bands, 0, 0, 0);
        } else {
            assert(sides =~= Seq::<int>::empty());
            assert(6 * n * 0 == 0);
        }
    }
    lemma_root_cap_at(caps, 1, 0);
    lemma_tip_cap_at(end as int, caps, 1, 0);
    assert(closed_loft(rings, n) == sides + root + tip);
    assert(3 * side_triangles(rings, n) == sides.len()) by (nonlinear_arith)
        requires
            sides.len() == 6 * n * bands,
            bands == rings - 1,
    ;
    assert forall|s: int, i: int, r: int|
        0 <= s < rings - 1 && 0 <= i < n && 0 <= r < 6 implies #[trigger] closed_loft(rings, n)[6 * (s
        * n + i) + r] == loft_quad(s * n, (s + 1) * n, i, n as int)[r] by {
        lemma_loft_sides_at(n as int, bands, s, i, r);
        lemma_mul_bounds(s, n as int, i, bands as int);
        assert(6 * (s * n + i) + r < 6 * (bands * n));
        assert(6 * (bands * n) == 6 * n * bands) by (nonlinear_arith);
    }
    assert forall|k: int, r: int| 1 <= k <= n - 2 && 0 <= r < 3 implies #[trigger] closed_loft(
        rings,
        n,
    )[3 * side_triangles(rings, n) + 3 * (k - 1) + r] == seq![0, k, k + 1][r] by {
        lemma_root_cap_at(caps, k, r);
    }
    assert forall|k: int, r: int| 1 <= k <= n - 2 && 0 <= r < 3 implies #[trigger] closed_loft(
        rings,
        n,
    )[3 * side_triangles(rings, n) + 3 * (n - 2) + 3 * (k - 1) + r] == seq![
        (rings - 1) * n,
        (rings - 1) * n + k + 1,
        (rings - 1) * n + k,
    ][r] by {
        lemma_tip_cap_at(end as int, caps, k, r);
    }
}

proof fn lemma_loft_layout(rings: nat, n: nat)
    requires
        rings >= 1,
        n >= 3,
    ensures
        closed_loft(rings, n) == loft_sides(n as int, (rings - 1) as nat) + root_cap(
            (n - 2) as nat,
        ) + tip_cap(((rings - 1) * n) as int, (n - 2) as nat),
        loft_sides(n as int, (rings - 1) as nat).len() == 3 * side_triangles(rings, n),
        root_cap((n - 2) as nat).len() == 3 * (n - 2),
        tip_cap(((rings - 1) * n) as int, (n - 2) as nat).len() == 3 * (n - 2),
        closed_loft(rings, n).len() == 3 * (side_triangles(rings, n) + 2 * (n - 2)),
{
    lemma_closed_loft_triangles(rings, n);
    let bands = (rings - 1) as nat;
    crate::mesh::lemma_closed_loft_well_formed(rings, n);
    lemma_root_cap_at((n - 2) as nat, 1, 0);
    lemma_tip_cap_at(((rings - 1) * n) as int, (n - 2) as nat, 1, 0);
    if bands > 0 {
        lemma_loft_sides_at(n as int, bands, 0, 0, 0);
    } else {
        assert(loft_sides(n as int, bands) =~= Seq::<int>::empty());
    }
    assert(6 * n * bands == 3 * (2 * n * bands)) by (nonlinear_arith);
}

/// Corner `r` of side triangle `h` of quad `i` in band `s`.
pub open spec fn side_corner(n: int, s: int, i: int, h: int, r: int) -> int {
    loft_quad(s * n, (s + 1) * n, i, n)[3 * h + r]
}

proof fn lemma_side_triangle(rings: nat, n: nat, s: int, i: int, h: int)
    requires
        rings >= 1,
        n >= 3,
        0 <= s < rings - 1,
        0 <= i < n,
        0 <= h < 2,
    ensures
        0 <= 2 * (s * n + i) + h < side_triangles(rings, n),
        forall|r: int|
            0 <= r < 3 ==> closed_loft(rings, n)[3 * (2 * (s * n + i) + h) + r] == side_corner(
                n as int,
                s,
                i,
                h,
                r,
            ),
{
    lemma_mul_bounds(s, n as int, i, (rings - 1) as int);
    assert(2 * (s * n + i) + h < 2 * n * (rings - 1)) by (nonlinear_arith)
        requires
            s * n + i < (rings - 1) * n,
            h < 2,
    ;
    lemma_closed_loft_triangles(rings, n);
    assert forall|r: int| 0 <= r < 3 implies closed_loft(rings, n)[3 * (2 * (s * n + i) + h) + r]
        == side_corner(n as int, s, i, h, r) by {
        let rr = 3 * h + r;
        assert(3 * (2 * (s * n + i) + h) + r == 6 * (s * n + i) + rr);
        assert(closed_loft(rings, n)[6 * (s * n + i) + rr] == loft_quad(
            s * n,
            (s + 1) * n,
            i,
            n as int,
        )[rr]);
    }
}

proof fn lemma_root_triangle(rings: nat, n: nat, k: int)
    requires
        rings >= 1,
        n >= 3,
        1 <= k <= n - 2,
    ensures
        closed_loft(rings, n)[3 * (side_triangles(rings, n) + k - 1)] == 0,
        closed_loft(rings, n)[3 * (side_triangles(rings, n) + k - 1) + 1] == k,
        closed_loft(rings, n)[3 * (side_triangles(rings, n) + k - 1) + 2] == k + 1,
{
    lemma_closed_loft_triangles(rings, n);
    let base = 3 * side_triangles(rings, n);
    assert(closed_loft(rings, n)[base + 3 * (k - 1) + 0] == seq![0, k, k + 1][0]);
    assert(closed_loft(rings, n)[base + 3 * (k - 1) + 1] == seq![0, k, k + 1][1]);
    assert(closed_loft(rings, n)[base + 3 * (k - 1) + 2] == seq![0, k, k + 1][2]);
}

/// The index of the first vertex of the last ring.
pub open spec fn last_ring(rings: nat, n: nat) -> int {
    (rings - 1) * n
}

proof fn lemma_tip_triangle(rings: nat, n: nat, k: int)
    requires
        rings >= 1,
        n >= 3,
        1 <= k <= n - 2,
    ensures
        closed_loft(rings, n)[3 * (side_triangles(rings, n) + n - 2 + k - 1)] == last_ring(rings, n),
        closed_loft(rings, n)[3 * (side_triangles(rings, n) + n - 2 + k - 1) + 1] == last_ring(
            rings,
            n,
        ) + k + 1,
        closed_loft(rings, n)[3 * (side_triangles(rings, n) + n - 2 + k - 1) + 2] == last_ring(
            rings,
            n,
        ) + k,
{
    lemma_closed_loft_triangles(rings, n);
    let base = 3 * side_triangles(rings, n);
    let e = (rings - 1) * n;
    assert(closed_loft(rings, n)[base + 3 * (n - 2) + 3 * (k - 1) + 0] == seq![e, e + k + 1, e + k][0]);
    assert(closed_loft(rings, n)[base + 3 * (n - 2) + 3 * (k - 1) + 1] == seq![e, e + k + 1, e + k][1]);
    assert(closed_loft(rings, n)[base + 3 * (n - 2) + 3 * (k - 1) + 2] == seq![e, e + k + 1, e + k][2]);
}

proof fn lemma_next(i: int, n: int)
    requires
        0 <= i < n,
    ensures
        i + 1 < n ==> (i + 1) % n == i + 1,
        i + 1 == n ==> (i + 1) % n == 0,
{
    if i + 1 < n {
        vstd::arithmetic::div_mod::lemma_small_mod((i + 1) as nat, n as nat);
    } else {
        vstd::arithmetic::div_mod::lemma_mod_self_0(n);
    }
}

proof fn lemma_witness(s: Seq<int>, t: int, u: int, v: int)
    requires
        0 <= t < s.len() / 3,
        triangle_has_edge(s, t, u, v),
    ensures
        has_edge(s, u, v),
{
}

/// Whether side triangle `h` of quad `i` in band `s` runs along `u -> v`.
pub open spec fn side_has_edge(n: int, s: int, i: int, h: int, u: int, v: int) -> bool {
    ||| (side_corner(n, s, i, h, 0) == u && side_corner(n, s, i, h, 1) == v)
    ||| (side_corner(n, s, i, h, 1) == u && side_corner(n, s, i, h, 2) == v)
    ||| (side_corner(n, s, i, h, 2) == u && side_corner(n, s, i, h, 0) == v)
}

proof fn lemma_side_edge(rings: nat, n: nat, s: int, i: int, h: int, u: int, v: int)
    requires
        rings >= 1,
        n >= 3,
        0 <= s < rings - 1,
        0 <= i < n,
        0 <= h < 2,
        side_has_edge(n as int, s, i, h, u, v),
    ensures
        has_edge(closed_loft(rings, n), u, v),
{
    lemma_side_triangle(rings, n, s, i, h);
    lemma_loft_layout(rings, n);
    let t = 2 * (s * n + i) + h;
    let l = closed_loft(rings, n);
    assert(l[3 * t + 0] == side_corner(n as int, s, i, h, 0));
    assert(l[3 * t + 1] == side_corner(n as int, s, i, h, 1));
    assert(l[3 * t + 2] == side_corner(n as int, s, i, h, 2));
    assert(triangle_has_edge(l, t, u, v));
    lemma_witness(l, t, u, v);
}

proof fn lemma_root_edge(rings: nat, n: nat, k: int, u: int, v: int)
    requires
        rings >= 1,
        n >= 3,
        1 <= k <= n - 2,
        (u == 0 && v == k) || (u == k && v == k + 1) || (u == k + 1 && v == 0),
    ensures
        has_edge(closed_loft(rings, n), u, v),
{
    lemma_root_triangle(rings, n, k);
    lemma_loft_layout(rings, n);
    let t = side_triangles(rings, n) + k - 1;
    let l = closed_loft(rings, n);
    assert(3 * (side_triangles(rings, n) + k - 1) == 3 * t);
    assert(triangle_has_edge(l, t, u, v));
    lemma_witness(l, t, u, v);
}

proof fn lemma_tip_edge(rings: nat, n: nat, k: int, u: int, v: int)
    requires
        rings >= 1,
        n >= 3,
        1 <= k <= n - 2,
        ({
            let e = last_ring(rings, n);
            (u == e && v == e + k + 1) || (u == e + k + 1 && v == e + k) || (u == e + k && v == e)
        }),
    ensures
        has_edge(closed_loft(rings, n), u, v),
{
    lemma_tip_triangle(rings, n, k);
    lemma_loft_layout(rings, n);
    let t = side_triangles(rings, n) + n - 2 + k - 1;
    let l = closed_loft(rings, n);
    assert(triangle_has_edge(l, t, u, v));
    lemma_witness(l, t, u, v);
}

proof fn lemma_band_start(s: int, n: int)
    ensures
        (s + 1) * n == s * n + n,
        (s - 1 + 1) * n == s * n,
        (s + 1 + 1) * n == (s + 1) * n + n,
{
    assert((s + 1) * n == s * n + n) by (nonlinear_arith);
    assert((s + 1 + 1) * n == (s + 1) * n + n) by (nonlinear_arith);
}

proof fn lemma_side_paired(rings: nat, n: nat, s: int, i: int, h: int)
    requires
        rings >= 2,
        n >= 3,
        0 <= s < rings - 1,
        0 <= i < n,
        0 <= h < 2,
    ensures
        has_edge(closed_loft(rings, n), side_corner(n as int, s, i, h, 1), side_corner(n as int, s, i, h, 0)),
        has_edge(closed_loft(rings, n), side_corner(n as int, s, i, h, 2), side_corner(n as int, s, i, h, 1)),
        has_edge(closed_loft(rings, n), side_corner(n as int, s, i, h, 0), side_corner(n as int, s, i, h, 2)),
{
    let ni = n as int;
    let a = s * ni;
    let b = (s + 1) * ni;
    lemma_band_start(s, ni);
    lemma_next(i, ni);
    let j = (i + 1) % ni;
    assert(0 <= j < ni);
    if h == 0 {
        // (a + i, b + i, b + j)
        let ip = if i > 0 { i - 1 } else { ni - 1 };
        lemma_next(ip, ni);
        assert((ip + 1) % ni == i);
        lemma_side_edge(rings, n, s, ip, 1, b + i, a + i);
        if s + 1 < rings - 1 {
            lemma_band_start(s + 1, ni);
            lemma_side_edge(rings, n, s + 1, i, 1, b + j, b + i);
        } else {
            let e = last_ring(rings, n);
            assert(e == b);
            if i == 0 {
                lemma_tip_edge(rings, n, 1, e + 1, e);
            } else if i == ni - 1 {
                lemma_tip_edge(rings, n, ni - 2, e, e + ni - 1);
            } else {
                lemma_tip_edge(rings, n, i, e + i + 1, e + i);
            }
        }
        lemma_side_edge(rings, n, s, i, 1, a + i, b + j);
    } else {
        // (a + i, b + j, a + j)
        lemma_side_edge(rings, n, s, i, 0, b + j, a + i);
        lemma_next(j, ni);
        lemma_side_edge(rings, n, s, j, 0, a + j, b + j);
        if s > 0 {
            lemma_band_start(s - 1, ni);
            lemma_side_edge(rings, n, s - 1, i, 0, a + i, a + j);
        } else {
            assert(a == 0) by (nonlinear_arith)
                requires
                    s == 0,
                    a == s * ni,
            ;
            if i == 0 {
                lemma_root_edge(rings, n, 1, 0, 1);
            } else if i == ni - 1 {
                lemma_root_edge(rings, n, ni - 2, ni - 1, 0);
            } else {
                lemma_root_edge(rings, n, i, i, i + 1);
            }
        }
    }
}


proof fn lemma_root_paired(rings: nat, n: nat, k: int)
    requires
        rings >= 1,
        n >= 3,
        1 <= k <= n - 2,
    ensures
        has_edge(closed_loft(rings, n), k, 0),
        has_edge(closed_loft(rings, n), k + 1, k),
        has_edge(closed_loft(rings, n), 0, k + 1),
{
    let ni = n as int;
    if rings == 1 {
        assert(last_ring(rings, n) == 0);
        lemma_tip_edge(rings, n, k, k + 1, k);
        lemma_tip_edge(rings, n, k, 0, k + 1);
        if k >= 2 {
            lemma_root_edge(rings, n, k - 1, k, 0);
        } else {
            lemma_tip_edge(rings, n, 1, 1, 0);
        }
    } else {
        lemma_band_start(0, ni);
        assert(0 * ni == 0);
        if k >= 2 {
            lemma_root_edge(rings, n, k - 1, k, 0);
        } else {
            lemma_next(0, ni);
            lemma_side_edge(rings, n, 0, 0, 1, 1, 0);
        }
        lemma_next(k, ni);
        lemma_side_edge(rings, n, 0, k, 1, k + 1, k);
        if k + 1 <= ni - 2 {
            lemma_root_edge(rings, n, k + 1, 0, k + 1);
        } else {
            lemma_next(ni - 1, ni);
            lemma_side_edge(rings, n, 0, ni - 1, 1, 0, ni - 1);
        }
    }
}

proof fn lemma_tip_paired(rings: nat, n: nat, k: int)
    requires
        rings >= 1,
        n >= 3,
        1 <= k <= n - 2,
    ensures
        ({
            let e = last_ring(rings, n);
            &&& has_edge(closed_loft(rings, n), e + k + 1, e)
            &&& has_edge(closed_loft(rings, n), e + k, e + k + 1)
            &&& has_edge(closed_loft(rings, n), e, e + k)
        }),
{
    let ni = n as int;
    let e = last_ring(rings, n);
    if rings == 1 {
        assert(e == 0) by (nonlinear_arith)
            requires
                e == (rings - 1) * n,
                rings == 1,
        ;
        lemma_root_edge(rings, n, k, k, k + 1);
        if k + 1 <= ni - 2 {
            lemma_tip_edge(rings, n, k + 1, e + k + 1, e);
        } else {
            lemma_root_edge(rings, n, ni - 2, ni - 1, 0);
        }
        if k >= 2 {
            lemma_tip_edge(rings, n, k - 1, e, e + k);
        } else {
            lemma_root_edge(rings, n, 1, 0, 1);
        }
    } else {
        let s = rings - 2;
        lemma_band_start(s, ni);
        assert((s + 1) * ni == e);
        if k + 1 <= ni - 2 {
            lemma_tip_edge(rings, n, k + 1, e + k + 1, e);
        } else {
            lemma_next(ni - 1, ni);
            lemma_side_edge(rings, n, s, ni - 1, 0, e + ni - 1, e);
        }
        lemma_next(k, ni);
        lemma_side_edge(rings, n, s, k, 0, e + k, e + k + 1);
        if k >= 2 {
            lemma_tip_edge(rings, n, k - 1, e, e + k);
        } else {
            lemma_next(0, ni);
            lemma_side_edge(rings, n, s, 0, 0, e, e + 1);
        }
    }
}


proof fn lemma_side_index(rings: nat, n: nat, t: int) -> (sih: (int, int, int))
    requires
        rings >= 1,
        n >= 3,
        0 <= t < side_triangles(rings, n),
    ensures
        rings >= 2,
        0 <= sih.0 < rings - 1,
        0 <= sih.1 < n,
        0 <= sih.2 < 2,
        t == 2 * (sih.0 * n + sih.1) + sih.2,
{
    let q = t / 2;
    let h = t % 2;
    let ni = n as int;
    vstd::arithmetic::div_mod::lemma_fundamental_div_mod(q, ni);
    let s = q / ni;
    let i = q % ni;
    vstd::arithmetic::div_mod::lemma_fundamental_div_mod(t, 2);
    assert(2 * n * (rings - 1) == 2 * (ni * (rings - 1))) by (nonlinear_arith)
        requires
            ni == n,
    ;
    assert(q < ni * (rings - 1));
    assert(0 <= s < rings - 1) by (nonlinear_arith)
        requires
            q == ni * s + i,
            0 <= i < ni,
            0 <= q < ni * (rings - 1),
            ni > 0,
    ;
    assert(ni * s == s * ni) by (nonlinear_arith);
    (s, i, h)
}

proof fn lemma_triangle_paired(rings: nat, n: nat, t: int)
    requires
        rings >= 1,
        n >= 3,
        0 <= t < side_triangles(rings, n) + 2 * (n - 2),
    ensures
        ({
            let l = closed_loft(rings, n);
            &&& has_edge(l, l[3 * t + 1], l[3 * t])
            &&& has_edge(l, l[3 * t + 2], l[3 * t + 1])
            &&& has_edge(l, l[3 * t], l[3 * t + 2])
        }),
{
    let l = closed_loft(rings, n);
    let first_cap = side_triangles(rings, n);
    if t < first_cap {
        let (s, i, h) = lemma_side_index(rings, n, t);
        lemma_side_triangle(rings, n, s, i, h);
        assert(l[3 * t] == side_corner(n as int, s, i, h, 0));
        assert(l[3 * t + 1] == side_corner(n as int, s, i, h, 1));
        assert(l[3 * t + 2] == side_corner(n as int, s, i, h, 2));
        lemma_side_paired(rings, n, s, i, h);
    } else if t < first_cap + n - 2 {
        let k = t - first_cap + 1;
        lemma_root_triangle(rings, n, k);
        lemma_root_paired(rings, n, k);
    } else {
        let k = t - first_cap - (n - 2) + 1;
        lemma_tip_triangle(rings, n, k);
        lemma_tip_paired(rings, n, k);
    }
}

/// A closed loft of at least one ring of at least three vertices is watertight and
/// consistently wound: every directed edge of every triangle is run along the other
/// way by some triangle of the same loft.
pub proof fn lemma_closed_loft_is_closed(rings: nat, n: nat)
    requires
        rings >= 1,
        n >= 3,
    ensures
        edges_paired(closed_loft(rings, n)),
{
    lemma_loft_layout(rings, n);
    let l = closed_loft(rings, n);
    assert forall|t: int| 0 <= t < l.len() / 3 implies {
        &&& has_edge(l, #[trigger] l[3 * t + 1], l[3 * t])
        &&& has_edge(l, l[3 * t + 2], l[3 * t + 1])
        &&& has_edge(l, l[3 * t], l[3 * t + 2])
    } by {
        lemma_triangle_paired(rings, n, t);
    }
}


/// The faceted registration diamond is watertight and consistently wound: every
/// directed edge of each of its triangles is run along the other way by another.
pub proof fn lemma_diamond_is_closed()
    ensures
        edges_paired(crate::mesh::diamond()),
{
    let d = crate::mesh::diamond();
    reveal_with_fuel(crate::mesh::quad_ring_walls, 5);
    assert(d =~= seq![
        0, 5, 4, 0, 1, 5,
        1, 6, 5, 1, 2, 6,
        2, 7, 6, 2, 3, 7,
        3, 4, 7, 3, 0, 4,
        0, 2, 1, 0, 3, 2,
        4, 5, 6, 4, 6, 7
    ]);
    assert(d.len() / 3 == 12);
    assert(triangle_has_edge(d, 0, 0, 5));
    assert(triangle_has_edge(d, 0, 5, 4));
    assert(triangle_has_edge(d, 0, 4, 0));
    assert(triangle_has_edge(d, 1, 0, 1));
    assert(triangle_has_edge(d, 1, 1, 5));
    assert(triangle_has_edge(d, 1, 5, 0));
    assert(triangle_has_edge(d, 2, 1, 6));
    assert(triangle_has_edge(d, 2, 6, 5));
    assert(triangle_has_edge(d, 2, 5, 1));
    assert(triangle_has_edge(d, 3, 1, 2));
    assert(triangle_has_edge(d, 3, 2, 6));
    assert(triangle_has_edge(d, 3, 6, 1));
    assert(triangle_has_edge(d, 4, 2, 7));
    assert(triangle_has_edge(d, 4, 7, 6));
    assert(triangle_has_edge(d, 4, 6, 2));
    assert(triangle_has_edge(d, 5, 2, 3));
    assert(triangle_has_edge(d, 5, 3, 7));
    assert(triangle_has_edge(d, 5, 7, 2));
    assert(triangle_has_edge(d, 6, 3, 4));
    assert(triangle_has_edge(d, 6, 4, 7));
    assert(triangle_has_edge(d, 6, 7, 3));
    assert(triangle_has_edge(d, 7, 3, 0));
    assert(triangle_has_edge(d, 7, 0, 4));
    assert(triangle_has_edge(d, 7, 4, 3));
    assert(triangle_has_edge(d, 8, 0, 2));
    assert(triangle_has_edge(d, 8, 2, 1));
    assert(triangle_has_edge(d, 8, 1, 0));
    assert(triangle_has_edge(d, 9, 0, 3));
    assert(triangle_has_edge(d, 9, 3, 2));
    assert(triangle_has_edge(d, 9, 2, 0));
    assert(triangle_has_edge(d, 10, 4, 5));
    assert(triangle_has_edge(d, 10, 5, 6));
    assert(triangle_has_edge(d, 10, 6, 4));
    assert(triangle_has_edge(d, 11, 4, 6));
    assert(triangle_has_edge(d, 11, 6, 7));
    assert(triangle_has_edge(d, 11, 7, 4));
    assert forall|t: int| 0 <= t < d.len() / 3 implies {
        &&& has_edge(d, #[trigger] d[3 * t + 1], d[3 * t])
        &&& has_edge(d, d[3 * t + 2], d[3 * t + 1])
        &&& has_edge(d, d[3 * t], d[3 * t + 2])
    } by {
        if t == 0 {
            assert(d[3 * t] == 0 && d[3 * t + 1] == 5 && d[3 * t + 2] == 4);
        } else if t == 1 {
            assert(d[3 * t] == 0 && d[3 * t + 1] == 1 && d[3 * t + 2] == 5);
        } else if t == 2 {
            assert(d[3 * t] == 1 && d[3 * t + 1] == 6 && d[3 * t + 2] == 5);
        } else if t == 3 {
            assert(d[3 * t] == 1 && d[3 * t + 1] == 2 && d[3 * t + 2] == 6);
        } else if t == 4 {
            assert(d[3 * t] == 2 && d[3 * t + 1] == 7 && d[3 * t + 2] == 6);
        } else if t == 5 {
            assert(d[3 * t] == 2 && d[3 * t + 1] == 3 && d[3 * t + 2] == 7);
        } else if t == 6 {
            assert(d[3 * t] == 3 && d[3 * t + 1] == 4 && d[3 * t + 2] == 7);
        } else if t == 7 {
            assert(d[3 * t] == 3 && d[3 * t + 1] == 0 && d[3 * t + 2] == 4);
        } else if t == 8 {
            assert(d[3 * t] == 0 && d[3 * t + 1] == 2 && d[3 * t + 2] == 1);
        } else if t == 9 {
            assert(d[3 * t] == 0 && d[3 * t + 1] == 3 && d[3 * t + 2] == 2);
        } else if t == 10 {
            assert(d[3 * t] == 4 && d[3 * t + 1] == 5 && d[3 * t + 2] == 6);
        } else if t == 11 {
            assert(d[3 * t] == 4 && d[3 * t + 1] == 6 && d[3 * t + 2] == 7);
        }
    }
}

} // verus!
