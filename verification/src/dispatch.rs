//! The dispatcher's decisions: which resource a matching frame serves, road
//! components for route existence, how a pawn gets and keeps a route, and
//! the freight trip state machine that executes an order with one truck.
use vstd::prelude::*;

use crate::network::{connected, touched, Components};
use crate::pathfinding::{spec_poll, CostProfile, PathPoll, PathRequest, PathService, PathTicket};
use crate::resources::{spec_resource_index, ResourceKind};
use crate::vehicles::RouteLeg;

verus! {

/// One resource is matched every this many ticks, round-robin.
pub const MATCH_INTERVAL: u32 = 15;

/// Ticks of zero loading progress with an empty bed before the truck gives
/// the order back.
pub const LOAD_STALL_TICKS: u32 = 600;

#[derive(Clone, Copy, PartialEq, Eq, Debug, Structural)]
pub struct OrderId(pub u64);

/// Trip state, carried by the truck asset while its pawn drives.
#[derive(Clone, Copy, PartialEq, Eq, Debug, Structural)]
pub enum FreightPhase {
    ToPickup,
    Loading,
    ToDropoff,
    Unloading,
    ReturnToDepot,
}

#[derive(Clone, Copy, PartialEq, Eq, Debug, Structural)]
pub struct FreightJob {
    pub order: OrderId,
    pub phase: FreightPhase,
    /// Consecutive empty-bed loading ticks with no tonnage moving.
    pub stalled: u32,
}

impl FreightJob {
    pub fn new(order: OrderId) -> (r: Self)
        ensures
            r == (FreightJob { order, phase: FreightPhase::ToPickup, stalled: 0 }),
    {
        FreightJob { order, phase: FreightPhase::ToPickup, stalled: 0 }
    }
}

/// Round-robin: on a matching tick the resource at the cursor is matched and
/// the cursor moves on; other ticks match nothing.
pub fn matching_resource(tick: u32, cursor: &mut usize) -> (r: Option<ResourceKind>)
    ensures
        tick % MATCH_INTERVAL != 0 ==> r is None && *final(cursor) == *old(cursor),
        tick % MATCH_INTERVAL == 0 ==> r is Some && spec_resource_index(r->0) == *old(cursor) % 3
            && *final(cursor) == (*old(cursor) + 1) % 3,
{
    if tick % MATCH_INTERVAL != 0 {
        return None;
    }
    let all = ResourceKind::all();
    let c = *cursor;
    let resource = all[c % ResourceKind::COUNT];
    *cursor = (c % ResourceKind::COUNT + 1) % ResourceKind::COUNT;
    assert((c % 3 + 1) % 3 == (c + 1) % 3) by (nonlinear_arith);
    Some(resource)
}

/// The round-robin law: three consecutive matching frames serve all three
/// resources, whatever the cursor.
pub proof fn law_round_robin_reaches_every_resource(cursor: int, kind: ResourceKind)
    requires
        cursor >= 0,
    ensures
        exists|k: int| 0 <= k < 3 && #[trigger] ((cursor + k) % 3) == spec_resource_index(kind),
{
    let want = spec_resource_index(kind);
    let k = (want - cursor % 3 + 3) % 3;
    assert((cursor + k) % 3 == want) by (nonlinear_arith)
        requires
            k == (want - cursor % 3 + 3) % 3,
            0 <= want < 3,
            cursor >= 0;
}

/// Road component of a dock node: its union-find label when a segment
/// touches it, else the node itself (an isolated node is its own component).
pub fn dock_component(components: &mut Components, node: u64) -> (r: u64)
    requires
        old(components).wf(),
    ensures
        *final(components) == *old(components),
        r == match old(components).label(node) {
            Some(l) => l,
            None => node,
        },
{
    match components.root(node) {
        Some(l) => l,
        None => node,
    }
}

/// Components of the road graph from its segments (endpoint pairs).
pub fn node_components(segments: &Vec<(u64, u64)>) -> (r: Components)
    ensures
        r.wf(),
        r.spans() == segments@,
{
    Components::from_spans(segments)
}

/// The route-existence law the matcher relies on: two dock nodes that some
/// segment touches are in one component exactly when the road connects
/// them.
pub proof fn law_dock_components_match_roads(c: &Components, a: u64, b: u64)
    requires
        c.wf(),
        touched(c.spans(), a),
        touched(c.spans(), b),
    ensures
        (c.label(a) == c.label(b)) <==> connected(c.spans(), a, b),
{
    crate::network::law_components_match_connectivity(c, a, b);
}

/// How driving toward the current goal went this tick.
#[derive(Clone, Copy, PartialEq, Eq, Debug, Structural)]
pub enum Progress {
    Arrived,
    Moving,
    NoPath,
}

/// A pawn's hold on the road network: its cached route, the leg it is on,
/// and the route request it is waiting for, if any.
pub struct RouteState {
    pub route: Vec<RouteLeg>,
    pub leg: usize,
    pub pending: Option<PathTicket>,
}

/// What the mover must do after the route check of a drive tick.
#[derive(Clone, Copy, PartialEq, Eq, Debug, Structural)]
pub enum DriveAction {
    /// The tick is over with this progress.
    Report(Progress),
    /// No route and no request: look up the goal and call `drive_request`.
    LookUpGoal,
    /// A fresh, non-empty route was adopted: stand at the entry node of its
    /// first leg, then advance.
    EnterAndAdvance,
    /// The cached route stands: advance along it.
    Advance,
}

/// The route check that opens every drive tick. A route is needed when
/// there is none or the leg ahead was severed (`severed`: its segment is
/// gone). Needing one with a request in flight polls the solver: still
/// solving holds in place, no route gives `NoPath`, a route is adopted from
/// its first leg (an empty one means the pawn is already there). Needing
/// one with nothing in flight asks the caller for the goal. Otherwise the
/// pawn advances.
pub fn drive_begin(state: &mut RouteState, severed: bool, svc: &mut PathService) -> (r: DriveAction)
    ensures
        final(svc).submitted@ == old(svc).submitted@,
        final(svc).in_flight@ == old(svc).in_flight@,
        final(svc).next_ticket == old(svc).next_ticket,
        final(svc).congestion_version == old(svc).congestion_version,
        !(severed || old(state).route@.len() == 0) ==> r == DriveAction::Advance && *final(state) == *old(state)
            && final(svc).ready@ == old(svc).ready@,
        (severed || old(state).route@.len() == 0) && old(state).pending is None ==> r == DriveAction::LookUpGoal
            && *final(state) == *old(state) && final(svc).ready@ == old(svc).ready@,
        (severed || old(state).route@.len() == 0) && old(state).pending is Some ==> {
            let polled = spec_poll(old(svc).ready@, old(state).pending->0);
            &&& final(svc).ready@ == polled.0
            &&& match polled.1 {
                PathPoll::Pending => r == DriveAction::Report(Progress::Moving) && *final(state) == *old(state),
                PathPoll::Ready(None) => r == DriveAction::Report(Progress::NoPath)
                    && final(state).pending is None && final(state).route == old(state).route
                    && final(state).leg == old(state).leg,
                PathPoll::Ready(Some(route)) => final(state).pending is None && final(state).route == route
                    && final(state).leg == 0
                    && r == (if route@.len() == 0 { DriveAction::Report(Progress::Arrived) } else { DriveAction::EnterAndAdvance }),
            }
        },
{
    if !(severed || state.route.len() == 0) {
        return DriveAction::Advance;
    }
    match state.pending {
        None => DriveAction::LookUpGoal,
        Some(ticket) => match svc.poll(ticket) {
            PathPoll::Pending => DriveAction::Report(Progress::Moving),
            PathPoll::Ready(None) => {
                state.pending = None;
                DriveAction::Report(Progress::NoPath)
            },
            PathPoll::Ready(Some(route)) => {
                state.pending = None;
                state.route = route;
                state.leg = 0;
                if state.route.len() == 0 {
                    DriveAction::Report(Progress::Arrived)
                } else {
                    DriveAction::EnterAndAdvance
                }
            },
        },
    }
}

/// The request half of a drive tick that found no route and nothing in
/// flight. `goal` is the goal node if one resolves, `at_goal` whether the
/// pawn already stands on it, `start` the node it re-enters the network
/// at. Without a goal or an entry node there is no path; at the goal the
/// pawn has arrived (and drops its route); otherwise a vehicle route from
/// `start` to the goal is requested and the pawn holds.
pub fn drive_request(state: &mut RouteState, svc: &mut PathService, goal: Option<u64>, at_goal: bool, start: Option<u64>) -> (r: Progress)
    requires
        old(svc).next_ticket < u64::MAX,
    ensures
        final(svc).in_flight@ == old(svc).in_flight@,
        final(svc).ready@ == old(svc).ready@,
        final(svc).congestion_version == old(svc).congestion_version,
        goal is None ==> r == Progress::NoPath && *final(state) == *old(state) && final(svc).submitted@ == old(svc).submitted@
            && final(svc).next_ticket == old(svc).next_ticket,
        goal is Some && at_goal ==> r == Progress::Arrived && final(state).route@.len() == 0 && final(state).leg == 0
            && final(state).pending == old(state).pending && final(svc).submitted@ == old(svc).submitted@
            && final(svc).next_ticket == old(svc).next_ticket,
        goal is Some && !at_goal && start is None ==> r == Progress::NoPath && *final(state) == *old(state)
            && final(svc).submitted@ == old(svc).submitted@ && final(svc).next_ticket == old(svc).next_ticket,
        goal is Some && !at_goal && start is Some ==> r == Progress::Moving
            && final(svc).next_ticket == old(svc).next_ticket + 1
            && final(state).pending == Some(PathTicket(final(svc).next_ticket))
            && final(svc).submitted@ == old(svc).submitted@.push(PathRequest {
                ticket: PathTicket(final(svc).next_ticket),
                start: start->0,
                goal: goal->0,
                profile: CostProfile::Vehicle,
            })
            && final(state).route == old(state).route && final(state).leg == old(state).leg,
{
    let goal = match goal {
        None => return Progress::NoPath,
        Some(g) => g,
    };
    if at_goal {
        state.route = Vec::new();
        state.leg = 0;
        return Progress::Arrived;
    }
    let start = match start {
        None => return Progress::NoPath,
        Some(s) => s,
    };
    state.pending = Some(svc.request(start, goal, CostProfile::Vehicle));
    Progress::Moving
}

/// The close of a drive tick that advanced: a spent route is dropped so the
/// next phase starts fresh, and the pawn has arrived; otherwise it is still
/// moving.
pub fn drive_finish(state: &mut RouteState, exhausted: bool) -> (r: Progress)
    ensures
        exhausted ==> r == Progress::Arrived && final(state).route@.len() == 0 && final(state).leg == 0
            && final(state).pending == old(state).pending,
        !exhausted ==> r == Progress::Moving && *final(state) == *old(state),
{
    if exhausted {
        state.route = Vec::new();
        state.leg = 0;
        Progress::Arrived
    } else {
        Progress::Moving
    }
}

/// What the outside world reported for the truck's phase this tick.
#[derive(Clone, Copy, PartialEq, Eq, Debug, Structural)]
pub enum FreightEvent {
    /// The pickup, dropoff or depot drive.
    Drive(Progress),
    /// Loading at the source yard: whether the bed now holds the order's
    /// quantity, whether any tonnage moved, whether anything is aboard.
    Load { full: bool, moved: bool, aboard: bool },
    /// Unloading at the destination yard: whether the bed is now empty.
    Unload { empty: bool },
    /// The yard of the current phase no longer exists.
    YardGone,
    /// The depot cannot be reached: no road node docks it.
    HomeUnreachable,
}

/// What the caller must do after a trip step.
#[derive(Clone, Copy, PartialEq, Eq, Debug, Structural)]
pub enum FreightAction {
    Nothing,
    /// Give the order back to the queue (unassign it).
    Requeue,
    /// The order is delivered: remove it from the queue; the truck takes the
    /// chained order if one was offered.
    Complete,
    /// Back at the depot: release the pawn and drop the job.
    Park,
}

/// Before the phase work: a truck whose order vanished or was reassigned
/// heads home, as long as its bed is empty.
pub open spec fn spec_precheck(job: FreightJob, order_held: bool, bed_empty: bool) -> FreightJob {
    if job.phase != FreightPhase::ReturnToDepot && !order_held && bed_empty {
        FreightJob { phase: FreightPhase::ReturnToDepot, ..job }
    } else {
        job
    }
}

pub fn freight_precheck(job: FreightJob, order_held: bool, bed_empty: bool) -> (r: FreightJob)
    ensures
        r == spec_precheck(job, order_held, bed_empty),
{
    if job.phase != FreightPhase::ReturnToDepot && !order_held && bed_empty {
        FreightJob { phase: FreightPhase::ReturnToDepot, ..job }
    } else {
        job
    }
}

/// The freight trip state machine: ToPickup → Loading → ToDropoff →
/// Unloading → ReturnToDepot. `order_live` says the job's order is still in
/// the queue; `chained` is the hottest waiting compatible order offered at
/// the dropoff dock, if any.
pub open spec fn spec_freight_step(job: FreightJob, order_live: bool, event: FreightEvent, chained: Option<OrderId>) -> (FreightJob, FreightAction) {
    let home = FreightJob { phase: FreightPhase::ReturnToDepot, ..job };
    match job.phase {
        FreightPhase::ToPickup => if !order_live {
            (job, FreightAction::Nothing)
        } else {
            match event {
                FreightEvent::Drive(Progress::Arrived) => (FreightJob { phase: FreightPhase::Loading, ..job }, FreightAction::Nothing),
                FreightEvent::Drive(Progress::NoPath) => (home, FreightAction::Requeue),
                _ => (job, FreightAction::Nothing),
            }
        },
        FreightPhase::Loading => if !order_live {
            (job, FreightAction::Nothing)
        } else {
            match event {
                FreightEvent::YardGone => (home, FreightAction::Requeue),
                FreightEvent::Load { full, moved, aboard } => if full || (!moved && aboard) {
                    (FreightJob { phase: FreightPhase::ToDropoff, stalled: 0, ..job }, FreightAction::Nothing)
                } else if !moved {
                    let s = if job.stalled < u32::MAX { (job.stalled + 1) as u32 } else { u32::MAX };
                    if s >= LOAD_STALL_TICKS {
                        (FreightJob { phase: FreightPhase::ReturnToDepot, stalled: s, ..job }, FreightAction::Requeue)
                    } else {
                        (FreightJob { stalled: s, ..job }, FreightAction::Nothing)
                    }
                } else {
                    (FreightJob { stalled: 0, ..job }, FreightAction::Nothing)
                },
                _ => (job, FreightAction::Nothing),
            }
        },
        FreightPhase::ToDropoff => if !order_live {
            (home, FreightAction::Nothing)
        } else {
            match event {
                FreightEvent::Drive(Progress::Arrived) => (FreightJob { phase: FreightPhase::Unloading, ..job }, FreightAction::Nothing),
                _ => (job, FreightAction::Nothing),
            }
        },
        FreightPhase::Unloading => if !order_live {
            (home, FreightAction::Nothing)
        } else {
            match event {
                FreightEvent::Unload { empty: true } => match chained {
                    Some(next) => (FreightJob { order: next, phase: FreightPhase::ToPickup, stalled: 0 }, FreightAction::Complete),
                    None => (home, FreightAction::Complete),
                },
                _ => (job, FreightAction::Nothing),
            }
        },
        FreightPhase::ReturnToDepot => match event {
            FreightEvent::Drive(Progress::Arrived) => (job, FreightAction::Park),
            FreightEvent::HomeUnreachable => (job, FreightAction::Park),
            _ => (job, FreightAction::Nothing),
        },
    }
}

pub fn freight_step(job: FreightJob, order_live: bool, event: FreightEvent, chained: Option<OrderId>) -> (r: (FreightJob, FreightAction))
    ensures
        r == spec_freight_step(job, order_live, event, chained),
{
    let home = FreightJob { phase: FreightPhase::ReturnToDepot, ..job };
    match job.phase {
        FreightPhase::ToPickup => {
            if !order_live {
                return (job, FreightAction::Nothing);
            }
            match event {
                FreightEvent::Drive(Progress::Arrived) => (FreightJob { phase: FreightPhase::Loading, ..job }, FreightAction::Nothing),
                FreightEvent::Drive(Progress::NoPath) => (home, FreightAction::Requeue),
                _ => (job, FreightAction::Nothing),
            }
        },
        FreightPhase::Loading => {
            if !order_live {
                return (job, FreightAction::Nothing);
            }
            match event {
                FreightEvent::YardGone => (home, FreightAction::Requeue),
                FreightEvent::Load { full, moved, aboard } => {
                    if full || (!moved && aboard) {
                        (FreightJob { phase: FreightPhase::ToDropoff, stalled: 0, ..job }, FreightAction::Nothing)
                    } else if !moved {
                        let s = job.stalled.saturating_add(1);
                        if s >= LOAD_STALL_TICKS {
                            (FreightJob { phase: FreightPhase::ReturnToDepot, stalled: s, ..job }, FreightAction::Requeue)
                        } else {
                            (FreightJob { stalled: s, ..job }, FreightAction::Nothing)
                        }
                    } else {
                        (FreightJob { stalled: 0, ..job }, FreightAction::Nothing)
                    }
                },
                _ => (job, FreightAction::Nothing),
            }
        },
        FreightPhase::ToDropoff => {
            if !order_live {
                return (home, FreightAction::Nothing);
            }
            match event {
                FreightEvent::Drive(Progress::Arrived) => (FreightJob { phase: FreightPhase::Unloading, ..job }, FreightAction::Nothing),
                _ => (job, FreightAction::Nothing),
            }
        },
        FreightPhase::Unloading => {
            if !order_live {
                return (home, FreightAction::Nothing);
            }
            match event {
                FreightEvent::Unload { empty: true } => match chained {
                    Some(next) => (FreightJob { order: next, phase: FreightPhase::ToPickup, stalled: 0 }, FreightAction::Complete),
                    None => (home, FreightAction::Complete),
                },
                _ => (job, FreightAction::Nothing),
            }
        },
        FreightPhase::ReturnToDepot => match event {
            FreightEvent::Drive(Progress::Arrived) => (job, FreightAction::Park),
            FreightEvent::HomeUnreachable => (job, FreightAction::Park),
            _ => (job, FreightAction::Nothing),
        },
    }
}

/// `n` consecutive loading ticks at an empty yard with an empty bed.
pub open spec fn stall_run(job: FreightJob, n: nat) -> (FreightJob, FreightAction)
    decreases n,
{
    if n == 0 {
        (job, FreightAction::Nothing)
    } else {
        let prev = stall_run(job, (n - 1) as nat);
        if prev.1 == FreightAction::Requeue {
            prev
        } else {
            spec_freight_step(prev.0, true, FreightEvent::Load { full: false, moved: false, aboard: false }, None)
        }
    }
}

/// The stall law: a truck loading at a dried-up yard with an empty bed
/// waits exactly `LOAD_STALL_TICKS` ticks and then gives the order back and
/// heads home — a dry supplier never absorbs the fleet forever.
pub proof fn law_empty_yard_stalls_out(order: OrderId, n: nat)
    requires
        n <= LOAD_STALL_TICKS,
    ensures
        n < LOAD_STALL_TICKS ==> stall_run(FreightJob { order, phase: FreightPhase::Loading, stalled: 0 }, n) == (
            FreightJob { order, phase: FreightPhase::Loading, stalled: n as u32 },
            FreightAction::Nothing,
        ),
        n == LOAD_STALL_TICKS ==> stall_run(FreightJob { order, phase: FreightPhase::Loading, stalled: 0 }, n) == (
            FreightJob { order, phase: FreightPhase::ReturnToDepot, stalled: LOAD_STALL_TICKS },
            FreightAction::Requeue,
        ),
    decreases n,
{
    if n > 0 {
        law_empty_yard_stalls_out(order, (n - 1) as nat);
    }
}

/// Nothing teleports: an order is completed only by a truck that reached
/// the unloading phase at the destination, with its order still live, and
/// whose bed has just been emptied there; and a truck only parks on the
/// way home.
pub proof fn law_delivery_only_at_the_dock(job: FreightJob, order_live: bool, event: FreightEvent, chained: Option<OrderId>)
    ensures
        spec_freight_step(job, order_live, event, chained).1 == FreightAction::Complete ==> job.phase
            == FreightPhase::Unloading && order_live && event == (FreightEvent::Unload { empty: true }),
        spec_freight_step(job, order_live, event, chained).1 == FreightAction::Park ==> job.phase
            == FreightPhase::ReturnToDepot,
{
}

/// Partial fulfilment is normal: a truck loading its live order at a yard
/// that stopped giving, with something already aboard, departs for the
/// dropoff with what it has, its stall count cleared, whatever else is on
/// offer; and a loading tick with cargo aboard never gives the order back
/// or sends the truck home.
pub proof fn law_dry_yard_departs_with_what_it_has(job: FreightJob, full: bool, moved: bool, chained: Option<OrderId>)
    requires
        job.phase == FreightPhase::Loading,
    ensures
        spec_freight_step(job, true, FreightEvent::Load { full: false, moved: false, aboard: true }, chained) == (
            FreightJob { order: job.order, phase: FreightPhase::ToDropoff, stalled: 0 },
            FreightAction::Nothing,
        ),
        spec_freight_step(job, true, FreightEvent::Load { full, moved, aboard: true }, chained).1
            == FreightAction::Nothing,
        spec_freight_step(job, true, FreightEvent::Load { full, moved, aboard: true }, chained).0.phase
            != FreightPhase::ReturnToDepot,
        spec_freight_step(job, true, FreightEvent::Load { full, moved, aboard: true }, chained).0.order == job.order,
{
}

/// The cargo law: a truck with cargo aboard is never sent home by the
/// dispatcher's pre-check — cargo stays physical until delivered.
pub proof fn law_loaded_truck_keeps_its_trip(job: FreightJob, order_held: bool)
    ensures
        spec_precheck(job, order_held, false) == job,
{
}

/// An order's truck binding, as the self-heal pass sees it.
#[derive(Clone, Copy, PartialEq, Eq, Debug, Structural)]
pub struct OrderAssignment {
    pub id: OrderId,
    pub assigned: Option<u64>,
}

fn contains_u64(v: &Vec<u64>, e: u64) -> (r: bool)
    ensures
        r == v@.contains(e),
{
    let mut i: usize = 0;
    while i < v.len()
        invariant
            i <= v@.len(),
            forall|j: int| 0 <= j < i ==> v@[j] != e,
        decreases v.len() - i,
    {
        if v[i] == e {
            assert(v@[i as int] == e);
            return true;
        }
        i = i + 1;
    }
    false
}

/// Self-heal: an order whose truck lost its job (despawned asset, load
/// boundary) goes back to waiting. `trucks_on_job` lists the assets that
/// still carry a freight job.
pub fn release_lost_assignments(orders: &mut Vec<OrderAssignment>, trucks_on_job: &Vec<u64>)
    ensures
        final(orders)@.len() == old(orders)@.len(),
        forall|i: int|
            0 <= i < old(orders)@.len() ==> #[trigger] final(orders)@[i] == match old(orders)@[i].assigned {
                Some(t) => if trucks_on_job@.contains(t) { old(orders)@[i] } else { OrderAssignment { id: old(orders)@[i].id, assigned: None } },
                None => old(orders)@[i],
            },
{
    let ghost o0 = orders@;
    let mut i: usize = 0;
    while i < orders.len()
        invariant
            i <= orders@.len(),
            orders@.len() == o0.len(),
            forall|j: int|
                0 <= j < i ==> #[trigger] orders@[j] == match o0[j].assigned {
                    Some(t) => if trucks_on_job@.contains(t) { o0[j] } else { OrderAssignment { id: o0[j].id, assigned: None } },
                    None => o0[j],
                },
            forall|j: int| i <= j < o0.len() ==> #[trigger] orders@[j] == o0[j],
        decreases orders.len() - i,
    {
        if let Some(t) = orders[i].assigned {
            if !contains_u64(trucks_on_job, t) {
                let id = orders[i].id;
                orders.set(i, OrderAssignment { id, assigned: None });
            }
        }
        i = i + 1;
    }
}

} // verus!
