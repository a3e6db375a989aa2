//! Names of the files and assembly objects that a wing mold generation writes.
use crate::decimal::{is_digit, push_zero_padded, zero_padded};
use crate::shell::FlangeEdge;
use crate::wing::{spec_edge_name, spec_surface_name, WingSurface, edge_name, wing_surface_name};
use vstd::prelude::*;

verus! {

/// A one-based ordinal padded to two digits, as artifact names number their parts.
pub open spec fn ordinal(index: nat) -> Seq<char> {
    zero_padded(index + 1, 2)
}

/// `registration-insert-sSS-EDGE-II`: the registration insert between edge
/// fasteners `index` and `index + 1` of `edge` in segment `segment`.
pub open spec fn edge_insert_name_of(segment: nat, edge: FlangeEdge, index: nat) -> Seq<char> {
    "registration-insert-s"@ + ordinal(segment) + "-"@ + spec_edge_name(edge) + "-"@ + ordinal(index)
}

/// `registration-insert-transverse-sSS-SURFACE-cCC-FF`: fixture `fixture` of chord
/// range `chord` on `surface` at the seam after segment `seam`.
pub open spec fn transverse_insert_name_of(
    seam: nat,
    surface: WingSurface,
    chord: nat,
    fixture: nat,
) -> Seq<char> {
    "registration-insert-transverse-s"@ + ordinal(seam) + "-"@ + spec_surface_name(surface) + "-c"@
        + ordinal(chord) + "-"@ + ordinal(fixture)
}

/// `registration-insert-longitudinal-sSS-SURFACE-cCC-FF`: fixture `fixture` on the
/// split flange `chord` of segment `section` on `surface`.
pub open spec fn longitudinal_insert_name_of(
    section: nat,
    surface: WingSurface,
    chord: nat,
    fixture: nat,
) -> Seq<char> {
    "registration-insert-longitudinal-s"@ + ordinal(section) + "-"@ + spec_surface_name(surface)
        + "-c"@ + ordinal(chord) + "-"@ + ordinal(fixture)
}

/// `registration-insert-base-SURFACE-cTT-FF`: fixture `fixture` of root tile `tile` on `surface`.
pub open spec fn base_insert_name_of(surface: WingSurface, tile: nat, fixture: nat) -> Seq<char> {
    "registration-insert-base-"@ + spec_surface_name(surface) + "-c"@ + ordinal(tile) + "-"@
        + ordinal(fixture)
}

/// `mold-SURFACE-II`: mold piece `index` of the half on `surface`.
pub open spec fn mold_piece_name_of(surface: WingSurface, index: nat) -> Seq<char> {
    "mold-"@ + spec_surface_name(surface) + "-"@ + ordinal(index)
}

fn push_ordinal(out: &mut String, index: usize)
    requires
        index < usize::MAX,
    ensures
        final(out)@ == old(out)@ + ordinal(index as nat),
{
    push_zero_padded(out, (index + 1) as u64, 2);
}

/// Names the registration insert between edge fasteners `index` and `index + 1`.
pub fn edge_insert_name(segment: usize, edge: FlangeEdge, index: usize) -> (name: String)
    requires
        segment < usize::MAX,
        index < usize::MAX,
    ensures
        name@ == edge_insert_name_of(segment as nat, edge, index as nat),
{
    let mut name = String::from_str("registration-insert-s");
    push_ordinal(&mut name, segment);
    name.append("-");
    name.append(edge_name(edge));
    name.append("-");
    push_ordinal(&mut name, index);
    name
}

/// Names a registration fixture on a transverse segment join.
pub fn transverse_insert_name(seam: usize, surface: WingSurface, chord: usize, fixture: usize) -> (name: String)
    requires
        seam < usize::MAX,
        chord < usize::MAX,
        fixture < usize::MAX,
    ensures
        name@ == transverse_insert_name_of(seam as nat, surface, chord as nat, fixture as nat),
{
    let mut name = String::from_str("registration-insert-transverse-s");
    push_ordinal(&mut name, seam);
    name.append("-");
    name.append(wing_surface_name(surface));
    name.append("-c");
    push_ordinal(&mut name, chord);
    name.append("-");
    push_ordinal(&mut name, fixture);
    name
}

/// Names a registration fixture on a longitudinal split flange.
pub fn longitudinal_insert_name(section: usize, surface: WingSurface, chord: usize, fixture: usize) -> (name: String)
    requires
        section < usize::MAX,
        chord < usize::MAX,
        fixture < usize::MAX,
    ensures
        name@ == longitudinal_insert_name_of(section as nat, surface, chord as nat, fixture as nat),
{
    let mut name = String::from_str("registration-insert-longitudinal-s");
    push_ordinal(&mut name, section);
    name.append("-");
    name.append(wing_surface_name(surface));
    name.append("-c");
    push_ordinal(&mut name, chord);
    name.append("-");
    push_ordinal(&mut name, fixture);
    name
}

/// Names a registration fixture on the base flange.
pub fn base_insert_name(surface: WingSurface, tile: usize, fixture: usize) -> (name: String)
    requires
        tile < usize::MAX,
        fixture < usize::MAX,
    ensures
        name@ == base_insert_name_of(surface, tile as nat, fixture as nat),
{
    let mut name = String::from_str("registration-insert-base-");
    name.append(wing_surface_name(surface));
    name.append("-c");
    push_ordinal(&mut name, tile);
    name.append("-");
    push_ordinal(&mut name, fixture);
    name
}

/// Names mold piece `index` of the half on `surface`.
pub fn mold_piece_name(surface: WingSurface, index: usize) -> (name: String)
    requires
        index < usize::MAX,
    ensures
        name@ == mold_piece_name_of(surface, index as nat),
{
    let mut name = String::from_str("mold-");
    name.append(wing_surface_name(surface));
    name.append("-");
    push_ordinal(&mut name, index);
    name
}

/// The STL file name of an artifact: its name with `.stl` appended.
pub fn stl_file_name(name: &str) -> (file: String)
    ensures
        file@ == name@ + ".stl"@,
{
    let mut file = String::from_str(name);
    file.append(".stl");
    file
}

/// The file name of the 3MF assembly written for `stem`.
pub fn assembly_file_name(stem: &str) -> (file: String)
    ensures
        file@ == stem@ + "-mold-assembly.3mf"@,
{
    let mut file = String::from_str(stem);
    file.append("-mold-assembly.3mf");
    file
}

/// The label of the socket cut for a registration insert.
pub fn socket_label(name: &str) -> (label: String)
    ensures
        label@ == name@ + " socket"@,
{
    let mut label = String::from_str(name);
    label.append(" socket");
    label
}

/// Whether every character of `s` is a decimal digit.
pub open spec fn all_digits(s: Seq<char>) -> bool {
    forall|i: int| 0 <= i < s.len() ==> #[trigger] is_digit(s[i])
}

/// An ordinal is a non-empty run of digits that gives back its index.
pub proof fn lemma_ordinal_digits(index: nat)
    ensures
        all_digits(ordinal(index)),
        ordinal(index).len() >= 2,
{
    crate::decimal::lemma_zero_padded_value(index + 1, 2);
    crate::decimal::lemma_decimal_digits(index + 1);
    let d = crate::decimal::decimal(index + 1);
    let p = ordinal(index);
    if d.len() < 2 {
        let z = crate::decimal::zeros((2 - d.len()) as nat);
        assert forall|i: int| 0 <= i < p.len() implies #[trigger] is_digit(p[i]) by {
            if i < z.len() {
                assert(p[i] == '0');
            } else {
                assert(p[i] == d[i - z.len()]);
            }
        }
    }
}

/// When a prefix is followed by a run of digits and then a text that does not start
/// with a digit, the run and the rest are determined by the whole.
pub proof fn lemma_split_after_digits(p: Seq<char>, x1: Seq<char>, r1: Seq<char>, x2: Seq<char>, r2: Seq<char>)
    requires
        all_digits(x1),
        all_digits(x2),
        r1.len() >= 1,
        r2.len() >= 1,
        !is_digit(r1[0]),
        !is_digit(r2[0]),
        p + x1 + r1 == p + x2 + r2,
    ensures
        x1 == x2,
        r1 == r2,
{
    let s = p + x1 + r1;
    let t = p + x2 + r2;
    if x1.len() < x2.len() {
        assert(s[(p.len() + x1.len()) as int] == r1[0]);
        assert(t[(p.len() + x1.len()) as int] == x2[x1.len() as int]);
        assert(false);
    } else if x2.len() < x1.len() {
        assert(t[(p.len() + x2.len()) as int] == r2[0]);
        assert(s[(p.len() + x2.len()) as int] == x1[x2.len() as int]);
        assert(false);
    }
    assert(x1 =~= s.subrange(p.len() as int, (p.len() + x1.len()) as int));
    assert(x2 =~= t.subrange(p.len() as int, (p.len() + x2.len()) as int));
    assert(r1 =~= s.subrange((p.len() + x1.len()) as int, s.len() as int));
    assert(r2 =~= t.subrange((p.len() + x2.len()) as int, t.len() as int));
}

proof fn lemma_ordinal_injective(a: nat, b: nat)
    requires
        ordinal(a) == ordinal(b),
    ensures
        a == b,
{
    crate::decimal::lemma_zero_padded_value(a + 1, 2);
    crate::decimal::lemma_zero_padded_value(b + 1, 2);
}

/// Distinct edge registration inserts get distinct names, so their files do not
/// overwrite one another.
pub proof fn lemma_edge_insert_names_distinct(
    s1: nat,
    e1: FlangeEdge,
    i1: nat,
    s2: nat,
    e2: FlangeEdge,
    i2: nat,
)
    requires
        edge_insert_name_of(s1, e1, i1) == edge_insert_name_of(s2, e2, i2),
    ensures
        s1 == s2 && e1 == e2 && i1 == i2,
{
    reveal_strlit("registration-insert-s");
    reveal_strlit("-");
    reveal_strlit("leading");
    reveal_strlit("trailing");
    let p = "registration-insert-s"@;
    lemma_ordinal_digits(s1);
    lemma_ordinal_digits(s2);
    let r1 = "-"@ + spec_edge_name(e1) + "-"@ + ordinal(i1);
    let r2 = "-"@ + spec_edge_name(e2) + "-"@ + ordinal(i2);
    assert(edge_insert_name_of(s1, e1, i1) =~= p + ordinal(s1) + r1);
    assert(edge_insert_name_of(s2, e2, i2) =~= p + ordinal(s2) + r2);
    assert(r1[0] == '-');
    assert(r2[0] == '-');
    lemma_split_after_digits(p, ordinal(s1), r1, ordinal(s2), r2);
    lemma_ordinal_injective(s1, s2);
    if e1 != e2 {
        assert(r1[1] != r2[1]);
    }
    let q = "-"@ + spec_edge_name(e1) + "-"@;
    assert(r1 =~= q + ordinal(i1));
    assert(r2 =~= q + ordinal(i2));
    assert(ordinal(i1) =~= r1.subrange(q.len() as int, r1.len() as int));
    assert(ordinal(i2) =~= r2.subrange(q.len() as int, r2.len() as int));
    lemma_ordinal_injective(i1, i2);
}

/// Distinct mold pieces get distinct names, so their files do not overwrite one another.
pub proof fn lemma_mold_piece_names_distinct(h1: WingSurface, i1: nat, h2: WingSurface, i2: nat)
    requires
        mold_piece_name_of(h1, i1) == mold_piece_name_of(h2, i2),
    ensures
        h1 == h2 && i1 == i2,
{
    reveal_strlit("mold-");
    reveal_strlit("-");
    reveal_strlit("lower");
    reveal_strlit("upper");
    let n1 = mold_piece_name_of(h1, i1);
    let n2 = mold_piece_name_of(h2, i2);
    if h1 != h2 {
        assert(n1[5] != n2[5]);
    }
    let q = "mold-"@ + spec_surface_name(h1) + "-"@;
    assert(n1 =~= q + ordinal(i1));
    assert(n2 =~= q + ordinal(i2));
    assert(ordinal(i1) =~= n1.subrange(q.len() as int, n1.len() as int));
    assert(ordinal(i2) =~= n2.subrange(q.len() as int, n2.len() as int));
    lemma_ordinal_injective(i1, i2);
}

/// The two print tiles, on one mold half, that a segment registration fixture joins.
#[derive(Debug, Clone, Copy)]
pub struct RegistrationMating {
    pub surface: WingSurface,
    pub tile_indices: [usize; 2],
}

/// Checks that a segment registration fixture names two different existing tiles of
/// a half that has `piece_count` pieces, before its sockets are cut.
pub fn check_mating(mating: Option<RegistrationMating>, piece_count: usize) -> (result: Result<
    RegistrationMating,
    &'static str,
>)
    ensures
        mating is None ==> result == Err::<RegistrationMating, &'static str>(
            "segment registration fixture is missing its mating tiles",
        ),
        mating matches Some(m) ==> {
            &&& m.tile_indices[0] == m.tile_indices[1] ==> result == Err::<
                RegistrationMating,
                &'static str,
            >("segment registration fixture targets the same tile twice")
            &&& m.tile_indices[0] != m.tile_indices[1] && (m.tile_indices[0] >= piece_count
                || m.tile_indices[1] >= piece_count) ==> result == Err::<
                RegistrationMating,
                &'static str,
            >("segment registration fixture targets a missing tile")
            &&& m.tile_indices[0] != m.tile_indices[1] && m.tile_indices[0] < piece_count
                && m.tile_indices[1] < piece_count ==> result == Ok::<
                RegistrationMating,
                &'static str,
            >(m)
        },
{
    match mating {
        None => Err("segment registration fixture is missing its mating tiles"),
        Some(m) => {
            if m.tile_indices[0] == m.tile_indices[1] {
                Err("segment registration fixture targets the same tile twice")
            } else if m.tile_indices[0] >= piece_count || m.tile_indices[1] >= piece_count {
                Err("segment registration fixture targets a missing tile")
            } else {
                Ok(m)
            }
        },
    }
}

/// The object names of the 3MF assembly, in order: the wing, the base sealing
/// profile, the lower mold pieces, the upper mold pieces, then the registration inserts.
pub open spec fn assembly_names_of(lower: nat, upper: nat, inserts: Seq<Seq<char>>) -> Seq<Seq<char>> {
    seq!["wing"@, "base-sealing-profile"@] + Seq::new(
        lower,
        |i: int| mold_piece_name_of(WingSurface::Lower, i as nat),
    ) + Seq::new(upper, |i: int| mold_piece_name_of(WingSurface::Upper, i as nat)) + inserts
}

fn push_piece_names(names: &mut Vec<String>, surface: WingSurface, count: usize)
    ensures
        final(names)@.len() == old(names)@.len() + count,
        forall|i: int| 0 <= i < old(names)@.len() ==> #[trigger] final(names)@[i] == old(names)@[i],
        forall|i: int|
            0 <= i < count ==> (#[trigger] final(names)@[old(names)@.len() + i])@
                == mold_piece_name_of(surface, i as nat),
{
    let ghost start = names@;
    let mut i: usize = 0;
    while i < count
        invariant
            i <= count,
            names@.len() == start.len() + i,
            forall|k: int| 0 <= k < start.len() ==> #[trigger] names@[k] == start[k],
            forall|k: int|
                0 <= k < i ==> (#[trigger] names@[start.len() + k])@ == mold_piece_name_of(
                    surface,
                    k as nat,
                ),
        decreases count - i,
    {
        names.push(mold_piece_name(surface, i));
        i = i + 1;
    }
}

/// Names the objects of the 3MF assembly; see [`assembly_names_of`].
pub fn assembly_object_names(lower: usize, upper: usize, inserts: &Vec<String>) -> (names: Vec<String>)
    ensures
        names@.len() == assembly_names_of(lower as nat, upper as nat, crate::cli::views(inserts@)).len(),
        forall|i: int|
            0 <= i < names@.len() ==> (#[trigger] names@[i])@ == assembly_names_of(
                lower as nat,
                upper as nat,
                crate::cli::views(inserts@),
            )[i],
{
    let mut names: Vec<String> = Vec::new();
    names.push(String::from_str("wing"));
    names.push(String::from_str("base-sealing-profile"));
    let ghost g0 = names@;
    push_piece_names(&mut names, WingSurface::Lower, lower);
    let ghost g1 = names@;
    push_piece_names(&mut names, WingSurface::Upper, upper);
    let ghost before = names@;
    let mut k: usize = 0;
    while k < inserts.len()
        invariant
            k <= inserts@.len(),
            names@.len() == before.len() + k,
            forall|j: int| 0 <= j < before.len() ==> #[trigger] names@[j] == before[j],
            forall|j: int| 0 <= j < k ==> (#[trigger] names@[before.len() + j])@ == inserts@[j]@,
        decreases inserts@.len() - k,
    {
        names.push(inserts[k].clone());
        k = k + 1;
    }
    proof {
        let spec_names = assembly_names_of(lower as nat, upper as nat, crate::cli::views(inserts@));
        let fixed = seq!["wing"@, "base-sealing-profile"@];
        let lows = Seq::new(lower as nat, |i: int| mold_piece_name_of(WingSurface::Lower, i as nat));
        let ups = Seq::new(upper as nat, |i: int| mold_piece_name_of(WingSurface::Upper, i as nat));
        let ins = crate::cli::views(inserts@);
        assert(spec_names == fixed + lows + ups + ins);
        assert forall|i: int| 0 <= i < names@.len() implies (#[trigger] names@[i])@ == spec_names[i] by {
            if i < 2 {
                assert(names@[i] == before[i]);
                assert(before[i] == g1[i]);
                assert(g1[i] == g0[i]);
                assert(spec_names[i] == fixed[i]);
            } else if i < 2 + lower {
                assert(names@[i] == before[i]);
                assert(before[i] == g1[i]);
                assert(g1[g0.len() + (i - 2)]@ == mold_piece_name_of(WingSurface::Lower, (i - 2) as nat));
                assert(spec_names[i] == lows[i - 2]);
            } else if i < 2 + lower + upper {
                assert(names@[i] == before[i]);
                assert(before[g1.len() + (i - 2 - lower)]@ == mold_piece_name_of(
                    WingSurface::Upper,
                    (i - 2 - lower) as nat,
                ));
                assert(spec_names[i] == ups[i - 2 - lower]);
            } else {
                assert(names@[before.len() + (i - 2 - lower - upper)]@ == inserts@[i - 2 - lower - upper]@);
                assert(ins[i - 2 - lower - upper] == inserts@[i - 2 - lower - upper]@);
                assert(spec_names[i] == ins[i - 2 - lower - upper]);
            }
        }
    }
    names
}

} // verus!
