//! Mold results and the registration plan of sectioned two-part molds.
use crate::axis::Axis;
use vstd::prelude::*;

verus! {

/// A single-piece mold.
#[derive(Debug, Clone)]
pub struct Mold<S> {
    pub body: S,
}

/// A mold split into two halves along a split axis.
#[derive(Debug, Clone)]
pub struct TwoPartMold<S> {
    /// Mold part on the negative side of the split axis.
    pub negative: S,
    /// Mold part on the positive side of the split axis.
    pub positive: S,
}

/// A two-part mold whose halves are each cut into ordered sections.
#[derive(Debug, Clone)]
pub struct SectionedTwoPartMold<S> {
    /// Ordered sections on the negative side of the split axis.
    pub negative: Vec<S>,
    /// Ordered sections on the positive side of the split axis.
    pub positive: Vec<S>,
}

/// Which registration features a section carries at its two section interfaces.
#[derive(Debug, Clone, Copy, PartialEq, Eq, Structural)]
pub struct SectionRegistrationRoles {
    /// Male keys protrude from the section's upper interface into the next section.
    pub male_keys: bool,
    /// Female sockets are cut into the section's lower interface for the previous section's keys.
    pub female_sockets: bool,
}

/// Whether sections are keyed together at all: registration is requested and the
/// sections are cut across the split axis rather than along it.
pub open spec fn keyed(registered: bool, split_axis: Axis, section_axis: Axis) -> bool {
    registered && split_axis != section_axis
}

/// The registration features of section `index` of `section_count`: keys on every
/// section but the last, sockets on every section but the first.
pub open spec fn roles_of(
    index: nat,
    section_count: nat,
    registered: bool,
    split_axis: Axis,
    section_axis: Axis,
) -> SectionRegistrationRoles {
    SectionRegistrationRoles {
        male_keys: keyed(registered, split_axis, section_axis) && index + 1 < section_count,
        female_sockets: keyed(registered, split_axis, section_axis) && index > 0,
    }
}

/// Decides which registration features section `index` of `section_count` carries.
pub fn section_registration_roles(
    index: usize,
    section_count: usize,
    registered: bool,
    split_axis: Axis,
    section_axis: Axis,
) -> (roles: SectionRegistrationRoles)
    requires
        index < section_count,
    ensures
        roles == roles_of(index as nat, section_count as nat, registered, split_axis, section_axis),
        registered && split_axis != section_axis ==> (roles.male_keys <==> index + 1 < section_count)
            && (roles.female_sockets <==> index > 0),
        !registered || split_axis == section_axis ==> !roles.male_keys && !roles.female_sockets,
{
    let keyed = registered && split_axis != section_axis;
    SectionRegistrationRoles { male_keys: keyed && index + 1 < section_count, female_sockets: keyed && index > 0 }
}

/// Registration is decided by the request and the axes alone: when it is requested
/// and the sections are cut across the split axis (any two different axes), every
/// section but the last carries keys and every section but the first carries
/// sockets; otherwise no section carries either.
pub proof fn lemma_sections_keyed_across_the_split(
    section_count: nat,
    registered: bool,
    split_axis: Axis,
    section_axis: Axis,
)
    ensures
        forall|i: nat|
            i < section_count ==> (#[trigger] roles_of(
                i,
                section_count,
                registered,
                split_axis,
                section_axis,
            )).male_keys == (registered && split_axis != section_axis && i + 1 < section_count),
        forall|i: nat|
            i < section_count ==> (#[trigger] roles_of(
                i,
                section_count,
                registered,
                split_axis,
                section_axis,
            )).female_sockets == (registered && split_axis != section_axis && i > 0),
        section_count >= 2 && registered && split_axis != section_axis ==> roles_of(
            0,
            section_count,
            registered,
            split_axis,
            section_axis,
        ).male_keys && roles_of(
            (section_count - 1) as nat,
            section_count,
            registered,
            split_axis,
            section_axis,
        ).female_sockets,
{
}

/// Keys and sockets mate: at every interface between neighbouring sections, the lower
/// section carries keys exactly when the upper section carries sockets; the outer
/// faces of the first and last sections carry neither.
pub proof fn lemma_registration_mates(
    section_count: nat,
    registered: bool,
    split_axis: Axis,
    section_axis: Axis,
)
    requires
        section_count >= 1,
    ensures
        forall|i: nat|
            i + 1 < section_count ==> #[trigger] roles_of(
                i,
                section_count,
                registered,
                split_axis,
                section_axis,
            ).male_keys == roles_of(
                i + 1,
                section_count,
                registered,
                split_axis,
                section_axis,
            ).female_sockets,
        !roles_of(0, section_count, registered, split_axis, section_axis).female_sockets,
        !roles_of(
            (section_count - 1) as nat,
            section_count,
            registered,
            split_axis,
            section_axis,
        ).male_keys,
{
}

} // verus!
