//! Placed physical assets: the building kinds and their stable ids.
use vstd::prelude::*;
use crate::households::{Dwelling, DWELLING_FLATS};
use crate::zoning::{siting_allowed, spec_admits, ZoneKind};

verus! {

#[derive(Clone, Copy, PartialEq, Eq, Debug, Structural)]
pub struct BuildingId(pub u64);

#[derive(Clone, Copy, PartialEq, Eq, Hash, Debug, Structural)]
pub enum BuildingKind {
    Mine,
    Quarry,
    PowerPlant,
    Factory,
    /// Residential block; carries a flat table.
    Dwelling,
    /// Player-placeable storage.
    Warehouse,
    /// Fleet home: physical parking slots bound the owned fleet.
    Depot,
    /// Transit stop: bus lines are ordered loops of these.
    BusStop,
    /// Home of the construction machine fleet.
    ConstructionOffice,
    WaterPump,
    SewagePlant,
    HeatPlant,
    /// Border customs: imported vehicles enter here, exports sell here.
    CustomsOffice,
}

/// Position of a kind in `BuildingKind::ALL` (its catalogue row).
pub open spec fn spec_kind_index(kind: BuildingKind) -> int {
    match kind {
        BuildingKind::Mine => 0,
        BuildingKind::Quarry => 1,
        BuildingKind::PowerPlant => 2,
        BuildingKind::Factory => 3,
        BuildingKind::Dwelling => 4,
        BuildingKind::Warehouse => 5,
        BuildingKind::Depot => 6,
        BuildingKind::BusStop => 7,
        BuildingKind::ConstructionOffice => 8,
        BuildingKind::WaterPump => 9,
        BuildingKind::SewagePlant => 10,
        BuildingKind::HeatPlant => 11,
        BuildingKind::CustomsOffice => 12,
    }
}

impl BuildingKind {
    pub const COUNT: usize = 13;

    /// Every kind, in catalogue order.
    pub fn all() -> (r: [BuildingKind; 13])
        ensures
            forall|i: int| 0 <= i < 13 ==> spec_kind_index(#[trigger] r@[i]) == i,
    {
        [
            BuildingKind::Mine,
            BuildingKind::Quarry,
            BuildingKind::PowerPlant,
            BuildingKind::Factory,
            BuildingKind::Dwelling,
            BuildingKind::Warehouse,
            BuildingKind::Depot,
            BuildingKind::BusStop,
            BuildingKind::ConstructionOffice,
            BuildingKind::WaterPump,
            BuildingKind::SewagePlant,
            BuildingKind::HeatPlant,
            BuildingKind::CustomsOffice,
        ]
    }

    /// The kind's catalogue row.
    pub fn index(self) -> (r: usize)
        ensures
            r == spec_kind_index(self),
            r < Self::COUNT,
    {
        match self {
            BuildingKind::Mine => 0,
            BuildingKind::Quarry => 1,
            BuildingKind::PowerPlant => 2,
            BuildingKind::Factory => 3,
            BuildingKind::Dwelling => 4,
            BuildingKind::Warehouse => 5,
            BuildingKind::Depot => 6,
            BuildingKind::BusStop => 7,
            BuildingKind::ConstructionOffice => 8,
            BuildingKind::WaterPump => 9,
            BuildingKind::SewagePlant => 10,
            BuildingKind::HeatPlant => 11,
            BuildingKind::CustomsOffice => 12,
        }
    }
}

/// Whether the building's electricity gate is satisfied this tick.
#[derive(Clone, Copy, PartialEq, Eq, Debug, Structural)]
pub struct Powered(pub bool);

/// Spawned finished: the construction pass skips this building.
pub struct Prebuilt;

/// The building id counter: ids are never reused.
pub struct BuildingIds {
    pub next: u64,
}

impl BuildingIds {
    pub fn allocate(&mut self) -> (r: BuildingId)
        requires
            old(self).next < u64::MAX,
        ensures
            final(self).next == old(self).next + 1,
            r.0 == final(self).next,
    {
        self.next = self.next + 1;
        BuildingId(self.next)
    }
}

/// What a freshly placed building is fitted with besides its yard: power
/// plants report an output, factories and dwellings carry a grid gate
/// (unserved until the grid says otherwise), dwellings get a flat table.
#[derive(Clone, Copy, PartialEq, Eq, Debug, Structural)]
pub struct Fitting {
    pub generates_power: bool,
    pub grid_gate: Option<Powered>,
    pub flats: Option<Dwelling>,
}

pub open spec fn spec_fitting(kind: BuildingKind) -> Fitting {
    Fitting {
        generates_power: kind == BuildingKind::PowerPlant,
        grid_gate: if kind == BuildingKind::Factory || kind == BuildingKind::Dwelling {
            Some(Powered(false))
        } else {
            None
        },
        flats: if kind == BuildingKind::Dwelling {
            Some(Dwelling { flats: DWELLING_FLATS, occupied: 0 })
        } else {
            None
        },
    }
}

pub fn fitting(kind: BuildingKind) -> (r: Fitting)
    ensures
        r == spec_fitting(kind),
{
    match kind {
        BuildingKind::PowerPlant => Fitting { generates_power: true, grid_gate: None, flats: None },
        BuildingKind::Factory => Fitting { generates_power: false, grid_gate: Some(Powered(false)), flats: None },
        BuildingKind::Dwelling => Fitting {
            generates_power: false,
            grid_gate: Some(Powered(false)),
            flats: Some(Dwelling { flats: DWELLING_FLATS, occupied: 0 }),
        },
        _ => Fitting { generates_power: false, grid_gate: None, flats: None },
    }
}

/// A placement: refused by the first containing district (`containing`,
/// in district order) that does not admit the kind, which is named;
/// otherwise the building takes the next id.
pub fn place_building(kind: BuildingKind, containing: &Vec<ZoneKind>, ids: &mut BuildingIds) -> (r: Result<
    BuildingId,
    ZoneKind,
>)
    requires
        old(ids).next < u64::MAX,
    ensures
        r is Ok <==> forall|i: int| 0 <= i < containing.len() ==> spec_admits(#[trigger] containing@[i], kind),
        r matches Ok(id) ==> id.0 == old(ids).next + 1 && final(ids).next == old(ids).next + 1,
        r matches Err(z) ==> final(ids).next == old(ids).next && exists|i: int|
            0 <= i < containing.len() && containing@[i] == z && !spec_admits(z, kind) && forall|j: int|
                0 <= j < i ==> spec_admits(#[trigger] containing@[j], kind),
{
    match siting_allowed(kind, containing) {
        Err(z) => Err(z),
        Ok(()) => Ok(ids.allocate()),
    }
}

} // verus!
