//! The general plan as a land-use overlay: painted districts constrain what
//! may be sited in them and surface mismatches, and never cause a building
//! to exist. Which district contains which point is geometry, decided by
//! the caller; what the plan makes of it is here.
use vstd::prelude::*;
use crate::buildings::BuildingKind;

verus! {

#[derive(Clone, Copy, PartialEq, Eq, Debug, Structural)]
pub enum ZoneKind {
    Residential,
    Industrial,
}

/// Which building kinds a district of this use accepts.
pub open spec fn spec_admits(zone: ZoneKind, kind: BuildingKind) -> bool {
    match zone {
        ZoneKind::Residential => kind == BuildingKind::Dwelling || kind == BuildingKind::BusStop,
        ZoneKind::Industrial => kind != BuildingKind::Dwelling,
    }
}

impl ZoneKind {
    /// Which building kinds a district of this use accepts. Anything goes
    /// on unzoned land — zoning constrains, it never demands.
    pub fn admits(self, kind: BuildingKind) -> (r: bool)
        ensures
            r == spec_admits(self, kind),
    {
        match self {
            ZoneKind::Residential => match kind {
                BuildingKind::Dwelling | BuildingKind::BusStop => true,
                _ => false,
            },
            ZoneKind::Industrial => match kind {
                BuildingKind::Dwelling => false,
                _ => true,
            },
        }
    }
}

/// What each district use admits: a residential district takes homes and
/// the bus stops that serve them and nothing else; an industrial district
/// takes everything but homes. So every kind is admitted somewhere, only
/// bus stops are admitted by both uses, and a dwelling only where people
/// are meant to live.
pub proof fn law_district_uses(kind: BuildingKind)
    ensures
        spec_admits(ZoneKind::Residential, kind) <==> (kind == BuildingKind::Dwelling || kind == BuildingKind::BusStop),
        spec_admits(ZoneKind::Industrial, kind) <==> kind != BuildingKind::Dwelling,
        spec_admits(ZoneKind::Residential, kind) || spec_admits(ZoneKind::Industrial, kind),
        (spec_admits(ZoneKind::Residential, kind) && spec_admits(ZoneKind::Industrial, kind)) <==> kind
            == BuildingKind::BusStop,
{
}

#[derive(Clone, Copy, PartialEq, Eq, Debug, Structural)]
pub struct ZoneId(pub u64);

/// The zone id counter: ids are never reused.
pub struct ZoneIds {
    pub next: u64,
}

impl ZoneIds {
    pub fn allocate(&mut self) -> (r: ZoneId)
        requires
            old(self).next < u64::MAX,
        ensures
            final(self).next == old(self).next + 1,
            r.0 == final(self).next,
    {
        self.next = self.next + 1;
        ZoneId(self.next)
    }
}

/// The siting gate: `containing` are the uses of the districts that contain
/// the placement, in district order. The first one that does not admit the
/// kind refuses it and is named; unzoned land admits anything.
pub fn siting_allowed(kind: BuildingKind, containing: &Vec<ZoneKind>) -> (r: Result<(), ZoneKind>)
    ensures
        r is Ok <==> forall|i: int| 0 <= i < containing.len() ==> spec_admits(#[trigger] containing@[i], kind),
        r matches Err(z) ==> exists|i: int|
            0 <= i < containing.len() && containing@[i] == z && !spec_admits(z, kind) && forall|j: int|
                0 <= j < i ==> spec_admits(#[trigger] containing@[j], kind),
{
    let mut i: usize = 0;
    while i < containing.len()
        invariant
            i <= containing.len(),
            forall|j: int| 0 <= j < i ==> spec_admits(#[trigger] containing@[j], kind),
        decreases containing.len() - i,
    {
        let zone = containing[i];
        if !zone.admits(kind) {
            return Err(zone);
        }
        i = i + 1;
    }
    Ok(())
}

/// Whether a district of use `zone` holds a building it admits, among the
/// kinds of the buildings standing in it.
pub open spec fn spec_fulfilled(zone: ZoneKind, inside: Seq<BuildingKind>) -> bool {
    exists|i: int| 0 <= i < inside.len() && spec_admits(zone, #[trigger] inside[i])
}

/// Districts with no admitted building inside, among `zones`.
pub open spec fn spec_unfulfilled(zones: Seq<(ZoneKind, Vec<BuildingKind>)>) -> nat
    decreases zones.len(),
{
    if zones.len() == 0 {
        0
    } else {
        spec_unfulfilled(zones.drop_last()) + if spec_fulfilled(zones.last().0, zones.last().1@) {
            0nat
        } else {
            1nat
        }
    }
}

fn fulfilled(zone: ZoneKind, inside: &Vec<BuildingKind>) -> (r: bool)
    ensures
        r == spec_fulfilled(zone, inside@),
{
    let mut i: usize = 0;
    while i < inside.len()
        invariant
            i <= inside.len(),
            forall|j: int| 0 <= j < i ==> !spec_admits(zone, #[trigger] inside@[j]),
        decreases inside.len() - i,
    {
        if zone.admits(inside[i]) {
            return true;
        }
        i = i + 1;
    }
    false
}

/// The plan backlog: (districts, districts not yet fulfilled). Each entry
/// is a district's use and the kinds of the buildings standing inside it.
pub fn unfulfilled_zones(zones: &Vec<(ZoneKind, Vec<BuildingKind>)>) -> (r: (usize, usize))
    ensures
        r.0 == zones.len(),
        r.1 == spec_unfulfilled(zones@),
{
    let mut n: usize = 0;
    let mut i: usize = 0;
    while i < zones.len()
        invariant
            i <= zones.len(),
            n == spec_unfulfilled(zones@.subrange(0, i as int)),
            n <= i,
        decreases zones.len() - i,
    {
        proof {
            assert(zones@.subrange(0, i as int + 1).drop_last() =~= zones@.subrange(0, i as int));
        }
        if !fulfilled(zones[i].0, &zones[i].1) {
            n = n + 1;
        }
        i = i + 1;
    }
    proof {
        assert(zones@.subrange(0, zones.len() as int) =~= zones@);
    }
    (zones.len(), n)
}

/// The backlog never exceeds the number of districts, and a district
/// holding any admitted building is never part of it.
pub proof fn law_backlog_within_districts(zones: Seq<(ZoneKind, Vec<BuildingKind>)>)
    ensures
        spec_unfulfilled(zones) <= zones.len(),
        (forall|i: int| 0 <= i < zones.len() ==> spec_fulfilled((#[trigger] zones[i]).0, zones[i].1@))
            ==> spec_unfulfilled(zones) == 0,
    decreases zones.len(),
{
    if zones.len() > 0 {
        law_backlog_within_districts(zones.drop_last());
        if forall|i: int| 0 <= i < zones.len() ==> spec_fulfilled((#[trigger] zones[i]).0, zones[i].1@) {
            assert forall|i: int| 0 <= i < zones.drop_last().len() implies spec_fulfilled(
                (#[trigger] zones.drop_last()[i]).0,
                zones.drop_last()[i].1@,
            ) by {
                assert(zones.drop_last()[i] == zones[i]);
            }
            assert(spec_fulfilled(zones[zones.len() - 1].0, zones[zones.len() - 1].1@));
        }
    }
}

} // verus!
