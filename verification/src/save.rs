//! The save format's discrete core. Each entity table is written as rows
//! sorted by stable id, cross-references are stored as indices into the
//! sorted sibling tables, and enums are stored as append-only `u8` codes.
//! Runtime entities (here their `u64` bits) never reach the disk: a load
//! spawns one fresh shell per row and resolves every index through them.
use vstd::prelude::*;
use crate::buildings::{BuildingKind, spec_kind_index};
use crate::citizens::CitizenLocation;
use crate::dispatch::FreightPhase;
use crate::resources::{ResourceKind, TransportClass, spec_resource_index};
use crate::roads::RoadClass;
use crate::wires::NetKind;

verus! {

/// Bumped whenever a column layout changes: the byte format is not
/// self-describing, so an old file must be rejected, never misparsed.
pub const SAVE_VERSION: u32 = 5;

/// Accept a decoded save only at the current layout; the error carries the
/// version found.
pub fn check_version(version: u32) -> (r: Result<(), u32>)
    ensures
        r is Ok <==> version == SAVE_VERSION,
        r matches Err(found) ==> found == version,
{
    if version == SAVE_VERSION {
        Ok(())
    } else {
        Err(version)
    }
}

// -- discriminant codes (append-only; the order is serialized) --------------

pub fn kind_to_u8(kind: BuildingKind) -> (r: u8)
    ensures
        r as int == spec_kind_index(kind),
{
    match kind {
        BuildingKind::Mine => 0,
        BuildingKind::Quarry => 1,
        BuildingKind::PowerPlant => 2,
        BuildingKind::Factory => 3,
        BuildingKind::Dwelling => 4,
        BuildingKind::Warehouse => 5,
        BuildingKind::Depot => 6,
        BuildingKind::BusStop => 7,
        BuildingKind::ConstructionOffice => 8,
        BuildingKind::WaterPump => 9,
        BuildingKind::SewagePlant => 10,
        BuildingKind::HeatPlant => 11,
        BuildingKind::CustomsOffice => 12,
    }
}

pub fn kind_from_u8(v: u8) -> (r: Option<BuildingKind>)
    ensures
        r matches Some(k) ==> spec_kind_index(k) == v as int,
        r is None <==> v >= 13,
{
    match v {
        0 => Some(BuildingKind::Mine),
        1 => Some(BuildingKind::Quarry),
        2 => Some(BuildingKind::PowerPlant),
        3 => Some(BuildingKind::Factory),
        4 => Some(BuildingKind::Dwelling),
        5 => Some(BuildingKind::Warehouse),
        6 => Some(BuildingKind::Depot),
        7 => Some(BuildingKind::BusStop),
        8 => Some(BuildingKind::ConstructionOffice),
        9 => Some(BuildingKind::WaterPump),
        10 => Some(BuildingKind::SewagePlant),
        11 => Some(BuildingKind::HeatPlant),
        12 => Some(BuildingKind::CustomsOffice),
        _ => None,
    }
}

pub open spec fn spec_class_code(class: RoadClass) -> u8 {
    match class {
        RoadClass::Dirt => 0,
        RoadClass::Paved => 1,
    }
}

pub fn class_to_u8(class: RoadClass) -> (r: u8)
    ensures
        r == spec_class_code(class),
{
    match class {
        RoadClass::Dirt => 0,
        RoadClass::Paved => 1,
    }
}

pub fn class_from_u8(v: u8) -> (r: Option<RoadClass>)
    ensures
        r matches Some(c) ==> spec_class_code(c) == v,
        r is None <==> v >= 2,
{
    match v {
        0 => Some(RoadClass::Dirt),
        1 => Some(RoadClass::Paved),
        _ => None,
    }
}

pub open spec fn spec_location_code(location: CitizenLocation) -> u8 {
    match location {
        CitizenLocation::AtHome => 0,
        CitizenLocation::ToWork => 1,
        CitizenLocation::AtWork => 2,
        CitizenLocation::ToHome => 3,
    }
}

pub fn location_to_u8(location: CitizenLocation) -> (r: u8)
    ensures
        r == spec_location_code(location),
{
    match location {
        CitizenLocation::AtHome => 0,
        CitizenLocation::ToWork => 1,
        CitizenLocation::AtWork => 2,
        CitizenLocation::ToHome => 3,
    }
}

/// A traveller's pawn is never saved, so only "at work" survives a load;
/// every other code comes back at home.
pub fn location_from_u8(v: u8) -> (r: CitizenLocation)
    ensures
        r == (if v == 2 { CitizenLocation::AtWork } else { CitizenLocation::AtHome }),
{
    match v {
        2 => CitizenLocation::AtWork,
        _ => CitizenLocation::AtHome,
    }
}

/// Where a citizen is written down as: travellers are normalized home.
pub open spec fn spec_saved_location(location: CitizenLocation) -> CitizenLocation {
    match location {
        CitizenLocation::ToWork | CitizenLocation::ToHome => CitizenLocation::AtHome,
        other => other,
    }
}

pub fn saved_location(location: CitizenLocation) -> (r: CitizenLocation)
    ensures
        r == spec_saved_location(location),
{
    match location {
        CitizenLocation::ToWork | CitizenLocation::ToHome => CitizenLocation::AtHome,
        other => other,
    }
}

pub fn resource_to_u8(kind: ResourceKind) -> (r: u8)
    ensures
        r as int == spec_resource_index(kind),
{
    match kind {
        ResourceKind::Coal => 0,
        ResourceKind::Gravel => 1,
        ResourceKind::Goods => 2,
    }
}

pub fn resource_from_u8(v: u8) -> (r: Option<ResourceKind>)
    ensures
        r matches Some(k) ==> spec_resource_index(k) == v as int,
        r is None <==> v >= 3,
{
    match v {
        0 => Some(ResourceKind::Coal),
        1 => Some(ResourceKind::Gravel),
        2 => Some(ResourceKind::Goods),
        _ => None,
    }
}

pub open spec fn spec_transport_code(class: TransportClass) -> u8 {
    match class {
        TransportClass::Bulk => 0,
        TransportClass::Covered => 1,
        TransportClass::Passenger => 2,
        TransportClass::Machine => 3,
    }
}

pub fn transport_class_to_u8(class: TransportClass) -> (r: u8)
    ensures
        r == spec_transport_code(class),
{
    match class {
        TransportClass::Bulk => 0,
        TransportClass::Covered => 1,
        TransportClass::Passenger => 2,
        TransportClass::Machine => 3,
    }
}

pub fn transport_class_from_u8(v: u8) -> (r: Option<TransportClass>)
    ensures
        r matches Some(c) ==> spec_transport_code(c) == v,
        r is None <==> v >= 4,
{
    match v {
        0 => Some(TransportClass::Bulk),
        1 => Some(TransportClass::Covered),
        2 => Some(TransportClass::Passenger),
        3 => Some(TransportClass::Machine),
        _ => None,
    }
}

pub open spec fn spec_phase_code(phase: FreightPhase) -> u8 {
    match phase {
        FreightPhase::ToPickup => 0,
        FreightPhase::Loading => 1,
        FreightPhase::ToDropoff => 2,
        FreightPhase::Unloading => 3,
        FreightPhase::ReturnToDepot => 4,
    }
}

pub fn phase_to_u8(phase: FreightPhase) -> (r: u8)
    ensures
        r == spec_phase_code(phase),
{
    match phase {
        FreightPhase::ToPickup => 0,
        FreightPhase::Loading => 1,
        FreightPhase::ToDropoff => 2,
        FreightPhase::Unloading => 3,
        FreightPhase::ReturnToDepot => 4,
    }
}

/// Unknown codes fall back to the start of a trip.
pub fn phase_from_u8(v: u8) -> (r: FreightPhase)
    ensures
        v < 5 ==> spec_phase_code(r) == v,
        v >= 5 ==> r == FreightPhase::ToPickup,
{
    match v {
        1 => FreightPhase::Loading,
        2 => FreightPhase::ToDropoff,
        3 => FreightPhase::Unloading,
        4 => FreightPhase::ReturnToDepot,
        _ => FreightPhase::ToPickup,
    }
}

pub open spec fn spec_net_code(kind: NetKind) -> u8 {
    match kind {
        NetKind::Power => 0,
        NetKind::Water => 1,
        NetKind::Heat => 2,
    }
}

pub fn net_kind_to_u8(kind: NetKind) -> (r: u8)
    ensures
        r == spec_net_code(kind),
{
    match kind {
        NetKind::Power => 0,
        NetKind::Water => 1,
        NetKind::Heat => 2,
    }
}

/// Unknown codes fall back to the power net.
pub fn net_kind_from_u8(v: u8) -> (r: NetKind)
    ensures
        v < 3 ==> spec_net_code(r) == v,
        v >= 3 ==> r == NetKind::Power,
{
    match v {
        1 => NetKind::Water,
        2 => NetKind::Heat,
        _ => NetKind::Power,
    }
}

/// Every enum code reads back as what was written, except that a
/// traveller reads back at home.
pub proof fn law_codes_round_trip(
    kind: BuildingKind,
    class: RoadClass,
    location: CitizenLocation,
    resource: ResourceKind,
    transport: TransportClass,
    phase: FreightPhase,
    net: NetKind,
    k2: BuildingKind,
    r2: ResourceKind,
    c2: RoadClass,
    t2: TransportClass,
)
    ensures
        spec_kind_index(k2) == spec_kind_index(kind) ==> k2 == kind,
        spec_resource_index(r2) == spec_resource_index(resource) ==> r2 == resource,
        spec_class_code(c2) == spec_class_code(class) ==> c2 == class,
        spec_transport_code(t2) == spec_transport_code(transport) ==> t2 == transport,
        spec_kind_index(kind) < 13,
        spec_resource_index(resource) < 3,
        spec_class_code(class) < 2,
        spec_transport_code(transport) < 4,
        forall|p: FreightPhase| spec_phase_code(p) == spec_phase_code(phase) ==> p == phase,
        spec_phase_code(phase) < 5,
        forall|n: NetKind| spec_net_code(n) == spec_net_code(net) ==> n == net,
        spec_net_code(net) < 3,
        (if spec_location_code(spec_saved_location(location)) == 2 {
            CitizenLocation::AtWork
        } else {
            CitizenLocation::AtHome
        }) == spec_saved_location(location),
{
}

// -- id tables ---------------------------------------------------------------

/// Lexicographic order on (stable id, entity) rows.
pub open spec fn row_le(x: (u64, u64), y: (u64, u64)) -> bool {
    x.0 < y.0 || (x.0 == y.0 && x.1 <= y.1)
}

/// The entity column of a table.
pub open spec fn entity_column(rows: Seq<(u64, u64)>) -> Seq<u64> {
    Seq::new(rows.len(), |i: int| rows[i].1)
}

/// Position of the first occurrence of `e` in `s`, or -1.
pub open spec fn first_index(s: Seq<u64>, e: u64) -> int
    decreases s.len(),
{
    if s.len() == 0 {
        -1
    } else {
        let p = first_index(s.drop_last(), e);
        if p >= 0 {
            p
        } else if s.last() == e {
            s.len() - 1
        } else {
            -1
        }
    }
}

/// The indices `refs` are written as: each reference that resolves to a
/// table entity becomes its row index; the others are dropped.
pub open spec fn spec_remap(column: Seq<u64>, refs: Seq<u64>) -> Seq<u32>
    decreases refs.len(),
{
    if refs.len() == 0 {
        Seq::empty()
    } else {
        let rest = spec_remap(column, refs.drop_last());
        let p = first_index(column, refs.last());
        if p >= 0 {
            rest.push(p as u32)
        } else {
            rest
        }
    }
}

/// The entities `idxs` are read back as: each index inside the table
/// becomes that row's shell; the others are dropped.
pub open spec fn spec_resolve(shells: Seq<u64>, idxs: Seq<u32>) -> Seq<u64>
    decreases idxs.len(),
{
    if idxs.len() == 0 {
        Seq::empty()
    } else {
        let rest = spec_resolve(shells, idxs.drop_last());
        if (idxs.last() as int) < shells.len() {
            rest.push(shells[idxs.last() as int])
        } else {
            rest
        }
    }
}

/// `refs` with the references outside `column` dropped, order kept.
pub open spec fn spec_present(column: Seq<u64>, refs: Seq<u64>) -> Seq<u64>
    decreases refs.len(),
{
    if refs.len() == 0 {
        Seq::empty()
    } else {
        let rest = spec_present(column, refs.drop_last());
        if column.contains(refs.last()) {
            rest.push(refs.last())
        } else {
            rest
        }
    }
}

pub proof fn lemma_first_index(s: Seq<u64>, e: u64)
    ensures
        -1 <= first_index(s, e) < s.len(),
        first_index(s, e) >= 0 <==> s.contains(e),
        first_index(s, e) >= 0 ==> s[first_index(s, e)] == e,
        forall|k: int| 0 <= k < first_index(s, e) ==> s[k] != e,
        first_index(s, e) < 0 ==> forall|k: int| 0 <= k < s.len() ==> s[k] != e,
    decreases s.len(),
{
    if s.len() > 0 {
        let t = s.drop_last();
        lemma_first_index(t, e);
        assert forall|k: int| 0 <= k < t.len() implies t[k] == s[k] by {}
        if s.contains(e) && first_index(s, e) < 0 {
            let k = choose|k: int| 0 <= k < s.len() && s[k] == e;
            if k < t.len() {
                assert(t[k] == e);
            }
        }
        if first_index(s, e) >= 0 {
            assert(s[first_index(s, e)] == e);
        }
    }
}

pub proof fn lemma_first_index_at(s: Seq<u64>, e: u64, i: int)
    requires
        0 <= i < s.len(),
        s[i] == e,
        forall|k: int| 0 <= k < i ==> s[k] != e,
    ensures
        first_index(s, e) == i,
{
    lemma_first_index(s, e);
    assert(s.contains(e));
}

/// A table of (stable id, entity) rows, kept sorted by id then entity.
pub struct IdTable {
    pub rows: Vec<(u64, u64)>,
}

impl IdTable {
    /// Whether the rows are in table order.
    pub open spec fn sorted(&self) -> bool {
        forall|j: int, k: int| 0 <= j < k < self.rows@.len() ==> row_le(#[trigger] self.rows@[j], #[trigger] self.rows@[k])
    }

    /// Build the table from the live rows, in any order: the result holds
    /// the same rows, sorted.
    pub fn from_rows(rows: &Vec<(u64, u64)>) -> (r: IdTable)
        ensures
            r.sorted(),
            r.rows@.len() == rows@.len(),
            r.rows@.to_multiset() =~= rows@.to_multiset(),
    {
        let mut out: Vec<(u64, u64)> = Vec::new();
        let mut i: usize = 0;
        assert(out@ =~= rows@.subrange(0, 0));
        while i < rows.len()
            invariant
                i <= rows.len(),
                out@.len() == i,
                out@.to_multiset() =~= rows@.subrange(0, i as int).to_multiset(),
                forall|j: int, k: int| 0 <= j < k < out@.len() ==> row_le(#[trigger] out@[j], #[trigger] out@[k]),
            decreases rows.len() - i,
        {
            let row = rows[i];
            let mut pos: usize = out.len();
            while pos > 0 && !(out[pos - 1].0 < row.0 || (out[pos - 1].0 == row.0 && out[pos - 1].1 <= row.1))
                invariant
                    pos <= out@.len(),
                    forall|k: int| pos <= k < out@.len() ==> !row_le(#[trigger] out@[k], row),
                decreases pos,
            {
                pos = pos - 1;
            }
            let ghost before = out@;
            out.insert(pos, row);
            proof {
                broadcast use vstd::seq_lib::group_to_multiset_ensures;

                assert(out@ =~= before.insert(pos as int, row));
                before.insert_ensures(pos as int, row);
                assert(rows@.subrange(0, i as int + 1) =~= rows@.subrange(0, i as int).push(row));
                lemma_insert_multiset(before, pos as int, row);
                assert forall|j: int, k: int| 0 <= j < k < out@.len() implies row_le(#[trigger] out@[j], #[trigger] out@[k]) by {
                    if j < pos && k == pos {
                        assert(row_le(before[pos - 1], row));
                        if j < pos - 1 {
                            assert(row_le(before[j], before[pos - 1]));
                        }
                    } else if j == pos && k > pos {
                        assert(!row_le(before[k - 1], row));
                    } else if j < pos && k > pos {
                        assert(row_le(before[j], before[k - 1]));
                    } else if j > pos {
                        assert(row_le(before[j - 1], before[k - 1]));
                    }
                }
            }
            i = i + 1;
        }
        proof {
            assert(rows@.subrange(0, rows.len() as int) =~= rows@);
        }
        IdTable { rows: out }
    }

    /// The entity of every row, in table order: the shells a load spawns
    /// stand in the same order.
    pub fn entities(&self) -> (r: Vec<u64>)
        ensures
            r@ == entity_column(self.rows@),
    {
        let mut out: Vec<u64> = Vec::new();
        let mut i: usize = 0;
        while i < self.rows.len()
            invariant
                i <= self.rows.len(),
                out@ =~= entity_column(self.rows@).subrange(0, i as int),
            decreases self.rows.len() - i,
        {
            out.push(self.rows[i].1);
            i = i + 1;
        }
        out
    }

    /// The row index `entity` is written as, if it is in the table.
    pub fn index_of(&self, entity: u64) -> (r: Option<u32>)
        requires
            self.rows@.len() <= u32::MAX,
        ensures
            r matches Some(i) ==> i as int == first_index(entity_column(self.rows@), entity),
            r is None <==> !entity_column(self.rows@).contains(entity),
    {
        let ghost column = entity_column(self.rows@);
        let mut i: usize = 0;
        while i < self.rows.len()
            invariant
                i <= self.rows.len(),
                self.rows@.len() <= u32::MAX,
                column == entity_column(self.rows@),
                forall|k: int| 0 <= k < i ==> column[k] != entity,
            decreases self.rows.len() - i,
        {
            if self.rows[i].1 == entity {
                proof {
                    assert(column[i as int] == entity);
                    lemma_first_index_at(column, entity, i as int);
                }
                return Some(i as u32);
            }
            i = i + 1;
        }
        proof {
            lemma_first_index(column, entity);
        }
        None
    }

    /// Write a list of references as row indices, dropping those outside
    /// the table.
    pub fn remap(&self, refs: &Vec<u64>) -> (r: Vec<u32>)
        requires
            self.rows@.len() <= u32::MAX,
        ensures
            r@ == spec_remap(entity_column(self.rows@), refs@),
    {
        let ghost column = entity_column(self.rows@);
        let mut out: Vec<u32> = Vec::new();
        let mut i: usize = 0;
        while i < refs.len()
            invariant
                i <= refs.len(),
                self.rows@.len() <= u32::MAX,
                column == entity_column(self.rows@),
                out@ == spec_remap(column, refs@.subrange(0, i as int)),
            decreases refs.len() - i,
        {
            proof {
                assert(refs@.subrange(0, i as int + 1).drop_last() =~= refs@.subrange(0, i as int));
                lemma_first_index(column, refs@[i as int]);
            }
            match self.index_of(refs[i]) {
                Some(k) => out.push(k),
                None => {},
            }
            i = i + 1;
        }
        proof {
            assert(refs@.subrange(0, refs.len() as int) =~= refs@);
        }
        out
    }
}

proof fn lemma_insert_multiset(s: Seq<(u64, u64)>, pos: int, x: (u64, u64))
    requires
        0 <= pos <= s.len(),
    ensures
        s.insert(pos, x).to_multiset() =~= s.to_multiset().insert(x),
{
    broadcast use vstd::seq_lib::group_to_multiset_ensures, vstd::multiset::group_multiset_axioms;

    let left = s.subrange(0, pos);
    let right = s.subrange(pos, s.len() as int);
    assert(s =~= left + right);
    assert(s.insert(pos, x) =~= left.push(x) + right);
    vstd::seq_lib::lemma_multiset_commutative(left.push(x), right);
    vstd::seq_lib::lemma_multiset_commutative(left, right);
}

/// Read a list of row indices back as entities through the freshly
/// spawned shells, dropping indices outside the table.
pub fn resolve(shells: &Vec<u64>, idxs: &Vec<u32>) -> (r: Vec<u64>)
    ensures
        r@ == spec_resolve(shells@, idxs@),
{
    let mut out: Vec<u64> = Vec::new();
    let mut i: usize = 0;
    while i < idxs.len()
        invariant
            i <= idxs.len(),
            out@ == spec_resolve(shells@, idxs@.subrange(0, i as int)),
        decreases idxs.len() - i,
    {
        proof {
            assert(idxs@.subrange(0, i as int + 1).drop_last() =~= idxs@.subrange(0, i as int));
        }
        let k = idxs[i] as usize;
        if k < shells.len() {
            out.push(shells[k]);
        }
        i = i + 1;
    }
    proof {
        assert(idxs@.subrange(0, idxs.len() as int) =~= idxs@);
    }
    out
}

/// Read one row index back as its shell.
pub fn resolve_one(shells: &Vec<u64>, idx: u32) -> (r: Option<u64>)
    ensures
        r == (if (idx as int) < shells@.len() { Some(shells@[idx as int]) } else { None::<u64> }),
{
    let k = idx as usize;
    if k < shells.len() {
        Some(shells[k])
    } else {
        None
    }
}

/// References survive a save and a load: writing a reference list against
/// a table and reading it back through the table's own entity column gives
/// back exactly the references into the table, in order.
pub proof fn law_references_round_trip(column: Seq<u64>, refs: Seq<u64>)
    requires
        column.len() <= u32::MAX,
    ensures
        spec_resolve(column, spec_remap(column, refs)) == spec_present(column, refs),
    decreases refs.len(),
{
    if refs.len() > 0 {
        let t = refs.drop_last();
        law_references_round_trip(column, t);
        lemma_first_index(column, refs.last());
        let p = first_index(column, refs.last());
        if p >= 0 {
            let m = spec_remap(column, t).push(p as u32);
            assert(m.drop_last() =~= spec_remap(column, t));
            assert(m.last() == p as u32);
        }
    }
}

/// A span endpoint by table, not by entity.
#[derive(Clone, Copy, PartialEq, Eq, Debug, Structural)]
pub enum EndRef {
    Building(u32),
    Pole(u32),
}

/// How a span endpoint is written: as a building row if it is a building,
/// else as a pole row; `None` if it is neither (the span is then dropped).
pub fn end_ref(buildings: &IdTable, poles: &IdTable, entity: u64) -> (r: Option<EndRef>)
    requires
        buildings.rows@.len() <= u32::MAX,
        poles.rows@.len() <= u32::MAX,
    ensures
        entity_column(buildings.rows@).contains(entity) ==> r == Some(
            EndRef::Building(first_index(entity_column(buildings.rows@), entity) as u32),
        ),
        !entity_column(buildings.rows@).contains(entity) && entity_column(poles.rows@).contains(entity)
            ==> r == Some(EndRef::Pole(first_index(entity_column(poles.rows@), entity) as u32)),
        !entity_column(buildings.rows@).contains(entity) && !entity_column(poles.rows@).contains(entity)
            ==> r is None,
{
    match buildings.index_of(entity) {
        Some(i) => Some(EndRef::Building(i)),
        None => match poles.index_of(entity) {
            Some(i) => Some(EndRef::Pole(i)),
            None => None,
        },
    }
}

/// Read a span endpoint back through the building and pole shells.
pub fn resolve_end(buildings: &Vec<u64>, poles: &Vec<u64>, end: EndRef) -> (r: Option<u64>)
    ensures
        end matches EndRef::Building(i) ==> r == (if (i as int) < buildings@.len() {
            Some(buildings@[i as int])
        } else {
            None::<u64>
        }),
        end matches EndRef::Pole(i) ==> r == (if (i as int) < poles@.len() {
            Some(poles@[i as int])
        } else {
            None::<u64>
        }),
{
    match end {
        EndRef::Building(i) => resolve_one(buildings, i),
        EndRef::Pole(i) => resolve_one(poles, i),
    }
}

} // verus!
