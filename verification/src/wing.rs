//! Wing vocabulary shared by the geometry and mold layers: edges, surfaces, errors,
//! NACA 4-digit codes and the names of the preset wings.
use crate::decimal::{digit_value, is_digit};
use crate::shell::FlangeEdge;
use crate::text::text_equals;
use vstd::prelude::*;

verus! {

/// Calls into the standard library hand back this error type; it is carried, never inspected.
#[verifier::external_type_specification]
#[verifier::external_body]
pub struct ExIoError(std::io::Error);

/// The leading or trailing edge of a wing.
#[derive(Debug, Clone, Copy, PartialEq, Eq, Structural)]
pub enum WingEdge {
    Leading,
    Trailing,
}

/// The lower or upper surface of a wing.
#[derive(Debug, Clone, Copy, PartialEq, Eq, Structural)]
pub enum WingSurface {
    Lower,
    Upper,
}

/// Why a wing or its geometry could not be built.
#[derive(Debug)]
pub enum WingError {
    InvalidAirfoil(String),
    InvalidSpec(&'static str),
    Io(std::io::Error),
    Geometry(String),
}

impl WingError {
    /// The human-readable description of the error.
    pub fn describe(&self) -> (text: String)
        ensures
            self matches WingError::InvalidAirfoil(code) ==> text@
                == "invalid NACA 4-digit airfoil: "@ + code@,
            self matches WingError::InvalidSpec(message) ==> text@
                == "invalid wing specification: "@ + message@,
            self matches WingError::Geometry(message) ==> text@
                == "generated geometry is invalid: "@ + message@,
            self matches WingError::Io(error) ==> vstd::string::to_string_from_display_ensures::<
                std::io::Error,
            >(&error, text),
    {
        match self {
            WingError::InvalidAirfoil(code) => {
                let mut text = String::from_str("invalid NACA 4-digit airfoil: ");
                text.append(code.as_str());
                text
            },
            WingError::InvalidSpec(message) => {
                let mut text = String::from_str("invalid wing specification: ");
                text.append(message);
                text
            },
            WingError::Io(error) => error.to_string(),
            WingError::Geometry(message) => {
                let mut text = String::from_str("generated geometry is invalid: ");
                text.append(message.as_str());
                text
            },
        }
    }
}

/// The error for a generated mesh that the solid kernel rejected: the mesh's label
/// and the kernel's status text.
pub fn invalid_mesh_error(label: &str, status: &str) -> (error: WingError)
    ensures
        error matches WingError::Geometry(message) && message@ == "invalid "@ + label@ + ": "@
            + status@,
{
    let mut message = String::from_str("invalid ");
    message.append(label);
    message.append(": ");
    message.append(status);
    WingError::Geometry(message)
}

/// A NACA 4-digit airfoil, held exactly as its code gives it: the maximum camber in
/// hundredths of the chord, its position in tenths of the chord, and the maximum
/// thickness in hundredths of the chord.
#[derive(Debug, Clone, Copy, PartialEq, Eq, Structural)]
pub struct Naca4 {
    pub max_camber_percent: u32,
    pub camber_position_tenths: u32,
    pub thickness_percent: u32,
}

/// Whether `code` is a NACA 4-digit code: exactly four decimal digits.
pub open spec fn is_naca4_code(code: Seq<char>) -> bool {
    code.len() == 4 && forall|i: int| 0 <= i < 4 ==> #[trigger] is_digit(code[i])
}

/// The value of the decimal digit at position `i` of `code`.
pub open spec fn digit_at(code: Seq<char>, i: int) -> nat {
    match digit_value(code[i]) {
        Some(d) => d,
        None => 0,
    }
}

/// The airfoil that a valid NACA 4-digit code names.
pub open spec fn naca4_of(code: Seq<char>) -> Naca4 {
    Naca4 {
        max_camber_percent: digit_at(code, 0) as u32,
        camber_position_tenths: digit_at(code, 1) as u32,
        thickness_percent: (digit_at(code, 2) * 10 + digit_at(code, 3)) as u32,
    }
}

fn char_digit(c: char) -> (d: Option<u32>)
    ensures
        match digit_value(c) {
            Some(v) => d == Some(v as u32),
            None => d is None,
        },
{
    match c {
        '0' => Some(0),
        '1' => Some(1),
        '2' => Some(2),
        '3' => Some(3),
        '4' => Some(4),
        '5' => Some(5),
        '6' => Some(6),
        '7' => Some(7),
        '8' => Some(8),
        '9' => Some(9),
        _ => None,
    }
}

impl Naca4 {
    /// Parses a NACA 4-digit code such as `2412`.
    pub fn parse(code: &str) -> (result: Result<Naca4, WingError>)
        ensures
            is_naca4_code(code@) ==> result == Ok::<Naca4, WingError>(naca4_of(code@)),
            !is_naca4_code(code@) ==> (result matches Err(WingError::InvalidAirfoil(c)) && c@
                == code@),
    {
        if code.unicode_len() != 4 {
            return Err(WingError::InvalidAirfoil(String::from_str(code)));
        }
        let mut digits: Vec<u32> = Vec::new();
        let mut i: usize = 0;
        while i < 4
            invariant
                code@.len() == 4,
                i <= 4,
                digits@.len() == i,
                forall|j: int| 0 <= j < i ==> #[trigger] is_digit(code@[j]),
                forall|j: int| 0 <= j < i ==> digits@[j] == digit_at(code@, j),
            decreases 4 - i,
        {
            let c = code.get_char(i);
            match char_digit(c) {
                Some(d) => digits.push(d),
                None => {
                    proof {
                        assert(!is_digit(code@[i as int]));
                    }
                    return Err(WingError::InvalidAirfoil(String::from_str(code)));
                },
            }
            i = i + 1;
        }
        proof {
            assert(is_naca4_code(code@));
        }
        Ok(
            Naca4 {
                max_camber_percent: digits[0],
                camber_position_tenths: digits[1],
                thickness_percent: digits[2] * 10 + digits[3],
            },
        )
    }
}

/// The wing shapes that [`preset_shape`] knows by name.
#[derive(Debug, Clone, Copy, PartialEq, Eq, Structural)]
pub enum PresetShape {
    Rectangular,
    Tapered,
    Swept,
    Dihedral,
    Twisted,
    Gull,
}

/// The preset shape that `name` names, if any.
pub open spec fn preset_named(name: Seq<char>) -> Option<PresetShape> {
    if name == "rectangular"@ {
        Some(PresetShape::Rectangular)
    } else if name == "tapered"@ {
        Some(PresetShape::Tapered)
    } else if name == "swept"@ {
        Some(PresetShape::Swept)
    } else if name == "dihedral"@ {
        Some(PresetShape::Dihedral)
    } else if name == "twisted"@ {
        Some(PresetShape::Twisted)
    } else if name == "gull"@ {
        Some(PresetShape::Gull)
    } else {
        None
    }
}

/// The name under which a preset shape is known.
pub open spec fn preset_name(shape: PresetShape) -> Seq<char> {
    match shape {
        PresetShape::Rectangular => "rectangular"@,
        PresetShape::Tapered => "tapered"@,
        PresetShape::Swept => "swept"@,
        PresetShape::Dihedral => "dihedral"@,
        PresetShape::Twisted => "twisted"@,
        PresetShape::Gull => "gull"@,
    }
}

/// Every preset is found under its own name and under no other: looking a name up
/// gives the shape of that name, and two names that give the same shape are the same
/// name.
pub proof fn lemma_presets_found_by_their_names(shape: PresetShape, a: Seq<char>, b: Seq<char>)
    ensures
        preset_named(preset_name(shape)) == Some(shape),
        preset_named(a) matches Some(s) ==> preset_name(s) == a,
        preset_named(a) is Some && preset_named(a) == preset_named(b) ==> a == b,
{
    reveal_strlit("rectangular");
    reveal_strlit("tapered");
    reveal_strlit("swept");
    reveal_strlit("dihedral");
    reveal_strlit("twisted");
    reveal_strlit("gull");
    let r = "rectangular"@;
    let t = "tapered"@;
    let w = "swept"@;
    let d = "dihedral"@;
    let x = "twisted"@;
    let g = "gull"@;
    assert(r.len() == 11 && t.len() == 7 && w.len() == 5 && d.len() == 8 && x.len() == 7 && g.len() == 4);
    assert(t[1] != x[1]);
    assert(t != x);
    match shape {
        PresetShape::Rectangular => {},
        PresetShape::Tapered => {},
        PresetShape::Swept => {},
        PresetShape::Dihedral => {},
        PresetShape::Twisted => {},
        PresetShape::Gull => {},
    }
}

/// Looks up a preset wing by name; an unknown name is an invalid specification.
pub fn preset_shape(name: &str) -> (result: Result<PresetShape, WingError>)
    ensures
        preset_named(name@) matches Some(shape) ==> result == Ok::<PresetShape, WingError>(shape),
        preset_named(name@) is None ==> (result matches Err(WingError::InvalidSpec(m)) && m
            == "unknown preset"),
        result matches Ok(shape) ==> preset_name(shape) == name@,
{
    proof {
        lemma_presets_found_by_their_names(PresetShape::Gull, name@, name@);
    }
    if text_equals(name, "rectangular") {
        Ok(PresetShape::Rectangular)
    } else if text_equals(name, "tapered") {
        Ok(PresetShape::Tapered)
    } else if text_equals(name, "swept") {
        Ok(PresetShape::Swept)
    } else if text_equals(name, "dihedral") {
        Ok(PresetShape::Dihedral)
    } else if text_equals(name, "twisted") {
        Ok(PresetShape::Twisted)
    } else if text_equals(name, "gull") {
        Ok(PresetShape::Gull)
    } else {
        Err(WingError::InvalidSpec("unknown preset"))
    }
}

/// The wing edge that carries a flange edge.
pub open spec fn spec_wing_edge(edge: FlangeEdge) -> WingEdge {
    match edge {
        FlangeEdge::Leading => WingEdge::Leading,
        FlangeEdge::Trailing => WingEdge::Trailing,
    }
}

/// The wing edge that carries `edge`.
pub fn wing_edge(edge: FlangeEdge) -> (r: WingEdge)
    ensures
        r == spec_wing_edge(edge),
{
    match edge {
        FlangeEdge::Leading => WingEdge::Leading,
        FlangeEdge::Trailing => WingEdge::Trailing,
    }
}

/// The name of a flange edge in artifact names.
pub open spec fn spec_edge_name(edge: FlangeEdge) -> Seq<char> {
    match edge {
        FlangeEdge::Leading => "leading"@,
        FlangeEdge::Trailing => "trailing"@,
    }
}

/// The name of `edge` in artifact names: `leading` or `trailing`.
pub fn edge_name(edge: FlangeEdge) -> (name: &'static str)
    ensures
        name@ == spec_edge_name(edge),
{
    match edge {
        FlangeEdge::Leading => "leading",
        FlangeEdge::Trailing => "trailing",
    }
}

/// The name of a wing surface in artifact names.
pub open spec fn spec_surface_name(surface: WingSurface) -> Seq<char> {
    match surface {
        WingSurface::Lower => "lower"@,
        WingSurface::Upper => "upper"@,
    }
}

/// The name of `surface` in artifact names: `lower` or `upper`.
pub fn wing_surface_name(surface: WingSurface) -> (name: &'static str)
    ensures
        name@ == spec_surface_name(surface),
{
    match surface {
        WingSurface::Lower => "lower",
        WingSurface::Upper => "upper",
    }
}

/// Checks the counts of a wing specification before lofting it, in this order: at
/// least two stations, at least eight profile points, strictly increasing spans.
pub fn check_wing_spec(station_count: usize, profile_points: usize, spans_increasing: bool) -> (result:
    Result<(), WingError>)
    ensures
        station_count < 2 ==> (result matches Err(WingError::InvalidSpec(m)) && m
            == "at least two stations are required"),
        station_count >= 2 && profile_points < 8 ==> (result matches Err(WingError::InvalidSpec(m))
            && m == "profile_points must be at least 8"),
        station_count >= 2 && profile_points >= 8 && !spans_increasing ==> (result matches Err(
            WingError::InvalidSpec(m),
        ) && m == "station spans must strictly increase"),
        result is Ok <==> (station_count >= 2 && profile_points >= 8 && spans_increasing),
{
    if station_count < 2 {
        return Err(WingError::InvalidSpec("at least two stations are required"));
    }
    if profile_points < 8 {
        return Err(WingError::InvalidSpec("profile_points must be at least 8"));
    }
    if !spans_increasing {
        return Err(WingError::InvalidSpec("station spans must strictly increase"));
    }
    Ok(())
}

/// Different NACA 4-digit codes name different airfoils: parsing loses no digit.
pub proof fn lemma_naca4_codes_distinct(a: Seq<char>, b: Seq<char>)
    requires
        is_naca4_code(a),
        is_naca4_code(b),
        naca4_of(a) == naca4_of(b),
    ensures
        a == b,
{
    assert forall|i: int| 0 <= i < 4 implies digit_at(a, i) < 10 && digit_at(b, i) < 10 by {
        assert(is_digit(a[i]));
        assert(is_digit(b[i]));
    }
    assert(digit_at(a, 2) == digit_at(b, 2) && digit_at(a, 3) == digit_at(b, 3));
    assert forall|i: int| 0 <= i < 4 implies a[i] == b[i] by {
        assert(is_digit(a[i]));
        assert(is_digit(b[i]));
        assert(digit_at(a, i) == digit_at(b, i));
    }
    assert(a =~= b);
}

} // verus!
