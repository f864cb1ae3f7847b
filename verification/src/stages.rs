//! The fixed order of the simulation tick: its stages, and inside command
//! application the order in which the edit appliers run.
use vstd::prelude::*;

verus! {

/// The stages of one tick, in execution order.
#[derive(Clone, Copy, PartialEq, Eq, Hash, Debug, Structural)]
pub enum SimStage {
    ApplyCommands,
    CalendarEdges,
    NeedsAndServiceDemand,
    AllocationAndDispatch,
    Routing,
    MovementAndTransfers,
    ProductionAndUtilities,
    CommitInventoriesAndCondition,
    AccountingAndCausalHistory,
    BuildDerivedIndicesAndPresentation,
}

/// Position of a stage in the tick.
pub open spec fn spec_stage_rank(stage: SimStage) -> int {
    match stage {
        SimStage::ApplyCommands => 0,
        SimStage::CalendarEdges => 1,
        SimStage::NeedsAndServiceDemand => 2,
        SimStage::AllocationAndDispatch => 3,
        SimStage::Routing => 4,
        SimStage::MovementAndTransfers => 5,
        SimStage::ProductionAndUtilities => 6,
        SimStage::CommitInventoriesAndCondition => 7,
        SimStage::AccountingAndCausalHistory => 8,
        SimStage::BuildDerivedIndicesAndPresentation => 9,
    }
}

impl SimStage {
    /// Every stage, in the order the tick runs them.
    pub fn in_order() -> (r: [SimStage; 10])
        ensures
            forall|i: int| 0 <= i < 10 ==> spec_stage_rank(#[trigger] r@[i]) == i,
    {
        [
            SimStage::ApplyCommands,
            SimStage::CalendarEdges,
            SimStage::NeedsAndServiceDemand,
            SimStage::AllocationAndDispatch,
            SimStage::Routing,
            SimStage::MovementAndTransfers,
            SimStage::ProductionAndUtilities,
            SimStage::CommitInventoriesAndCondition,
            SimStage::AccountingAndCausalHistory,
            SimStage::BuildDerivedIndicesAndPresentation,
        ]
    }

    /// Whether this stage runs before `other` within a tick.
    pub fn runs_before(self, other: SimStage) -> (r: bool)
        ensures
            r == (spec_stage_rank(self) < spec_stage_rank(other)),
    {
        self.rank() < other.rank()
    }

    fn rank(self) -> (r: u8)
        ensures
            r as int == spec_stage_rank(self),
    {
        match self {
            SimStage::ApplyCommands => 0,
            SimStage::CalendarEdges => 1,
            SimStage::NeedsAndServiceDemand => 2,
            SimStage::AllocationAndDispatch => 3,
            SimStage::Routing => 4,
            SimStage::MovementAndTransfers => 5,
            SimStage::ProductionAndUtilities => 6,
            SimStage::CommitInventoriesAndCondition => 7,
            SimStage::AccountingAndCausalHistory => 8,
            SimStage::BuildDerivedIndicesAndPresentation => 9,
        }
    }
}

/// The edit appliers inside `ApplyCommands`, in execution order: zones
/// before roads before buildings (the siting gate reads zones, placement
/// reads roads), and so on down to transit.
#[derive(Clone, Copy, PartialEq, Eq, Hash, Debug, Structural)]
pub enum ApplierOrder {
    Zones,
    Roads,
    Buildings,
    Policy,
    Wires,
    Households,
    Vehicles,
    Transit,
}

pub open spec fn spec_applier_rank(a: ApplierOrder) -> int {
    match a {
        ApplierOrder::Zones => 0,
        ApplierOrder::Roads => 1,
        ApplierOrder::Buildings => 2,
        ApplierOrder::Policy => 3,
        ApplierOrder::Wires => 4,
        ApplierOrder::Households => 5,
        ApplierOrder::Vehicles => 6,
        ApplierOrder::Transit => 7,
    }
}

impl ApplierOrder {
    /// Every applier, in the order they run.
    pub fn in_order() -> (r: [ApplierOrder; 8])
        ensures
            forall|i: int| 0 <= i < 8 ==> spec_applier_rank(#[trigger] r@[i]) == i,
    {
        [
            ApplierOrder::Zones,
            ApplierOrder::Roads,
            ApplierOrder::Buildings,
            ApplierOrder::Policy,
            ApplierOrder::Wires,
            ApplierOrder::Households,
            ApplierOrder::Vehicles,
            ApplierOrder::Transit,
        ]
    }
}

/// The stage order is a strict chain: every stage has its own slot, and
/// "runs before" is a strict total order over them.
pub proof fn law_stages_form_a_chain(a: SimStage, b: SimStage, c: SimStage)
    ensures
        spec_stage_rank(a) == spec_stage_rank(b) ==> a == b,
        spec_stage_rank(a) < spec_stage_rank(b) || spec_stage_rank(b) < spec_stage_rank(a) || a == b,
        spec_stage_rank(a) < spec_stage_rank(b) && spec_stage_rank(b) < spec_stage_rank(c) ==> spec_stage_rank(a)
            < spec_stage_rank(c),
        !(spec_stage_rank(a) < spec_stage_rank(a)),
{
}

} // verus!
