//! Phased construction's discrete side: the phase sequence, which machine
//! skill a phase wants, a machine's duty at a site, and why a phase is not
//! progressing. Quantities of material and work are fractional and are
//! stepped by the caller.
use vstd::prelude::*;
use crate::dispatch::Progress;
use crate::vehicles::VehicleKind;

verus! {

#[derive(Clone, Copy, PartialEq, Eq, Debug, Structural)]
pub enum PhaseKind {
    Earthworks,
    Structure,
    Finishing,
}

/// Machine skill classes, matched against the construction fleet.
#[derive(Clone, Copy, PartialEq, Eq, Debug, Structural)]
pub enum Skill {
    Groundworks,
    Crane,
}

/// Why the current phase is not progressing this tick.
#[derive(Clone, Copy, PartialEq, Eq, Debug, Structural)]
pub enum Bottleneck {
    NoMaterial,
    NoMachine,
}

/// The phases every site goes through, in order, with the skill each
/// wants: earthworks by groundworks machines, then structure and finishing
/// by cranes.
pub open spec fn spec_phase_skill(kind: PhaseKind) -> Skill {
    match kind {
        PhaseKind::Earthworks => Skill::Groundworks,
        _ => Skill::Crane,
    }
}

pub fn phase_plan() -> (r: [(PhaseKind, Skill); 3])
    ensures
        r@[0] == (PhaseKind::Earthworks, Skill::Groundworks),
        r@[1] == (PhaseKind::Structure, Skill::Crane),
        r@[2] == (PhaseKind::Finishing, Skill::Crane),
        forall|i: int| 0 <= i < 3 ==> (#[trigger] r@[i]).1 == spec_phase_skill(r@[i].0),
{
    [
        (PhaseKind::Earthworks, Skill::Groundworks),
        (PhaseKind::Structure, Skill::Crane),
        (PhaseKind::Finishing, Skill::Crane),
    ]
}

/// The skill a fleet vehicle brings to a site, if it is a machine.
pub open spec fn spec_machine_skill(kind: VehicleKind) -> Option<Skill> {
    match kind {
        VehicleKind::Excavator => Some(Skill::Groundworks),
        VehicleKind::Crane => Some(Skill::Crane),
        _ => None,
    }
}

pub fn machine_skill(kind: VehicleKind) -> (r: Option<Skill>)
    ensures
        r == spec_machine_skill(kind),
{
    match kind {
        VehicleKind::Excavator => Some(Skill::Groundworks),
        VehicleKind::Crane => Some(Skill::Crane),
        _ => None,
    }
}

/// Whether a parked, idle machine can take a duty at a site whose current
/// phase wants `wanted` (`None`: the site is finished).
pub fn machine_wanted(kind: VehicleKind, on_road: bool, on_duty: bool, wanted: Option<Skill>) -> (r: bool)
    ensures
        r == (!on_road && !on_duty && spec_machine_skill(kind) is Some && wanted == spec_machine_skill(kind)),
{
    if on_road || on_duty {
        return false;
    }
    match machine_skill(kind) {
        None => false,
        Some(skill) => match wanted {
            Some(w) => w == skill,
            None => false,
        },
    }
}

/// What holds a phase back this site tick: it stalls on material while its bill is
/// outstanding, else on machines when no skill was poured in this pass;
/// otherwise it progresses (`None`).
pub fn phase_stall(material_short: bool, throughput_positive: bool) -> (r: Option<Bottleneck>)
    ensures
        material_short ==> r == Some(Bottleneck::NoMaterial),
        !material_short && !throughput_positive ==> r == Some(Bottleneck::NoMachine),
        !material_short && throughput_positive ==> r is None,
{
    if material_short {
        Some(Bottleneck::NoMaterial)
    } else if !throughput_positive {
        Some(Bottleneck::NoMachine)
    } else {
        None
    }
}

/// Where a site is in its phase sequence.
#[derive(Clone, Copy, PartialEq, Eq, Debug, Structural)]
pub struct SiteProgress {
    pub current: usize,
    pub phases: usize,
}

impl SiteProgress {
    pub fn complete(self) -> (r: bool)
        ensures
            r == (self.current >= self.phases),
    {
        self.current >= self.phases
    }

    /// Close the current phase when its work is done; the result says
    /// whether the site is now complete (and the building activates).
    pub fn advance(&mut self, finished: bool) -> (activate: bool)
        requires
            old(self).current < old(self).phases,
        ensures
            finished ==> final(self).current == old(self).current + 1,
            !finished ==> final(self).current == old(self).current,
            final(self).phases == old(self).phases,
            activate == (finished && final(self).current >= final(self).phases),
    {
        if finished {
            self.current = self.current + 1;
            self.current >= self.phases
        } else {
            false
        }
    }
}

/// Service state on a construction machine: the site it works.
#[derive(Clone, Copy, PartialEq, Eq, Debug, Structural)]
pub struct MachineDuty {
    pub site: u64,
}

/// What a machine on duty does after this tick's drive.
#[derive(Clone, Copy, PartialEq, Eq, Debug, Structural)]
pub enum MachineAction {
    /// Parked at the site: pour its skill into the site's throughput.
    Work,
    /// Keep driving (or waiting for a route).
    Continue,
    /// Home, or home cannot be found: release the pawn and end the duty.
    Park,
}

/// Whether a duty site still wants this machine: its current phase (`None`
/// once the site is finished or gone) wants the machine's skill.
pub open spec fn spec_still_wanted(kind: VehicleKind, phase_skill: Option<Skill>) -> bool {
    spec_machine_skill(kind) is Some && phase_skill == spec_machine_skill(kind)
}

/// The machine's tick. While the site still wants it, it drives there and
/// works once parked (a missing route leaves it trying). Otherwise it
/// drives home and parks on arrival, or at once when home has no road
/// node to drive to (`home_known` false) and no route was found.
pub open spec fn spec_machine_step(still_wanted: bool, drive: Progress, home_known: bool) -> MachineAction {
    if still_wanted {
        if drive == Progress::Arrived { MachineAction::Work } else { MachineAction::Continue }
    } else {
        match drive {
            Progress::Arrived => MachineAction::Park,
            Progress::NoPath => if home_known { MachineAction::Continue } else { MachineAction::Park },
            Progress::Moving => MachineAction::Continue,
        }
    }
}

pub fn still_wanted(kind: VehicleKind, phase_skill: Option<Skill>) -> (r: bool)
    ensures
        r == spec_still_wanted(kind, phase_skill),
{
    match (machine_skill(kind), phase_skill) {
        (Some(m), Some(p)) => m == p,
        _ => false,
    }
}

pub fn machine_step(still_wanted: bool, drive: Progress, home_known: bool) -> (r: MachineAction)
    ensures
        r == spec_machine_step(still_wanted, drive, home_known),
{
    if still_wanted {
        if drive == Progress::Arrived {
            MachineAction::Work
        } else {
            MachineAction::Continue
        }
    } else {
        match drive {
            Progress::Arrived => MachineAction::Park,
            Progress::NoPath => if home_known {
                MachineAction::Continue
            } else {
                MachineAction::Park
            },
            Progress::Moving => MachineAction::Continue,
        }
    }
}

/// A machine only works where it is wanted: it pours its skill into a site
/// only while the site's current phase wants that skill, and it never
/// parks while still wanted.
pub proof fn law_machine_works_only_where_wanted(kind: VehicleKind, phase_skill: Option<Skill>, drive: Progress, home_known: bool)
    ensures
        spec_machine_step(spec_still_wanted(kind, phase_skill), drive, home_known) == MachineAction::Work ==> phase_skill
            == spec_machine_skill(kind) && phase_skill is Some,
        spec_still_wanted(kind, phase_skill) ==> spec_machine_step(spec_still_wanted(kind, phase_skill), drive, home_known)
            != MachineAction::Park,
{
}

} // verus!
