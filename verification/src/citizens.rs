//! Persistent per-citizen identity as a flat value. Entities are referred to
//! by their stable `u64` bits.
use vstd::prelude::*;

verus! {

#[derive(Clone, Copy, PartialEq, Eq, Hash, Debug, Structural)]
pub struct CitizenId(pub u64);

/// Education tier (one tier for now; the schema allows more later).
#[derive(Clone, Copy, PartialEq, Eq, PartialOrd, Ord, Debug, Structural)]
pub struct EducationTier(pub u8);

/// Where the citizen physically is.
#[derive(Clone, Copy, PartialEq, Eq, Debug, Structural)]
pub enum CitizenLocation {
    AtHome,
    ToWork,
    AtWork,
    ToHome,
}

/// Flat per-citizen state. `home` mirrors the household's dwelling; the
/// household is the only writer of it.
#[derive(Clone, Copy, PartialEq, Eq, Debug, Structural)]
pub struct Citizen {
    pub id: CitizenId,
    pub household: u64,
    pub home: Option<u64>,
    /// Fixed workplace binding; persists until reassignment or building loss.
    pub work: Option<u64>,
    /// 0..=100
    pub health: u8,
    /// 0..=100
    pub wellbeing: u8,
    pub education: EducationTier,
    pub location: CitizenLocation,
}

impl Citizen {
    /// A newly arrived citizen: unhoused, unemployed, healthy, at home.
    pub fn new(id: CitizenId, household: u64) -> (r: Self)
        ensures
            r == (Citizen {
                id,
                household,
                home: None,
                work: None,
                health: 100,
                wellbeing: 70,
                education: EducationTier(0),
                location: CitizenLocation::AtHome,
            }),
    {
        Citizen {
            id,
            household,
            home: None,
            work: None,
            health: 100,
            wellbeing: 70,
            education: EducationTier(0),
            location: CitizenLocation::AtHome,
        }
    }
}

/// The citizen id counter: ids are never reused.
pub struct CitizenIds {
    /// Last allocated id (the save loader restores it).
    pub next: u64,
}

impl CitizenIds {
    pub fn allocate(&mut self) -> (r: CitizenId)
        requires
            old(self).next < u64::MAX,
        ensures
            final(self).next == old(self).next + 1,
            r.0 == final(self).next,
    {
        self.next = self.next + 1;
        CitizenId(self.next)
    }
}

/// A citizen entity paired with its record.
pub struct CitizenEntry {
    pub entity: u64,
    pub citizen: Citizen,
}

} // verus!
