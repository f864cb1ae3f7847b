use simulation::transit::{pick_idle_bus, FleetEntry};
use simulation::vehicles::VehicleKind;
use simulation::citizens::{Citizen, CitizenEntry, CitizenId, CitizenLocation};
use simulation::commute::{
    commute_step, departure, departure_jitter, tally_presence, trip_end_location, wait_step, CommuteAction,
    CommuteEvent, CommutePhase, TransitLeg, TripState, WalkOutcome, EVENING_FRAME, MORNING_FRAME,
    WAIT_GIVE_UP_TICKS,
};
use simulation::dispatch::{
    dock_component, freight_precheck, freight_step, matching_resource, node_components, release_lost_assignments,
    FreightAction, FreightEvent, FreightJob, FreightPhase, OrderAssignment, OrderId, Progress, LOAD_STALL_TICKS,
};
use simulation::network::{service_order, Components, PriorityClass};
use simulation::resources::{ResourceKind, TransportClass};
use simulation::transit::{line_accepted, prune_dead_stops, BusDuty, LineId, TransitLine, BUS_CAPACITY, BUS_DWELL_TICKS};

#[test]
fn resources_travel_in_their_class() {
    assert_eq!(ResourceKind::Coal.transport_class(), TransportClass::Bulk);
    assert_eq!(ResourceKind::Gravel.transport_class(), TransportClass::Bulk);
    assert_eq!(ResourceKind::Goods.transport_class(), TransportClass::Covered);
    assert_eq!(ResourceKind::Goods.index(), 2);
    assert_eq!(ResourceKind::all()[1], ResourceKind::Gravel);
}

#[test]
fn spans_union_their_endpoints_into_components() {
    let mut c = Components::from_spans(&vec![(1, 2), (2, 3), (7, 8)]);
    let a = c.root(1);
    assert!(a.is_some());
    assert_eq!(c.root(3), a);
    assert_eq!(c.root(8), c.root(7));
    assert_ne!(c.root(8), a);
    assert_eq!(c.root(99), None, "an untouched entity has no component");
}

#[test]
fn housing_is_served_before_industry() {
    let order = service_order(&vec![
        (5, PriorityClass::Industry),
        (9, PriorityClass::Housing),
        (2, PriorityClass::Industry),
        (4, PriorityClass::Housing),
    ]);
    assert_eq!(order, vec![3, 1, 2, 0]);
}

#[test]
fn matching_rotates_through_the_resources() {
    let mut cursor = 0usize;
    assert_eq!(matching_resource(7, &mut cursor), None);
    assert_eq!(cursor, 0);
    assert_eq!(matching_resource(15, &mut cursor), Some(ResourceKind::Coal));
    assert_eq!(matching_resource(30, &mut cursor), Some(ResourceKind::Gravel));
    assert_eq!(matching_resource(45, &mut cursor), Some(ResourceKind::Goods));
    assert_eq!(matching_resource(60, &mut cursor), Some(ResourceKind::Coal));
}

#[test]
fn dock_nodes_share_a_component_only_when_joined_by_road() {
    let mut c = node_components(&vec![(1, 2), (2, 3), (10, 11)]);
    let a = dock_component(&mut c, 1);
    assert_eq!(dock_component(&mut c, 3), a);
    assert_ne!(dock_component(&mut c, 10), a);
    assert_eq!(dock_component(&mut c, 55), 55, "an isolated node is its own component");
}

#[test]
fn freight_trip_runs_pickup_to_depot() {
    let job = FreightJob::new(OrderId(4));
    let (job, act) = freight_step(job, true, FreightEvent::Drive(Progress::Arrived), None);
    assert_eq!(job.phase, FreightPhase::Loading);
    assert_eq!(act, FreightAction::Nothing);
    let (job, _) = freight_step(job, true, FreightEvent::Load { full: true, moved: true, aboard: true }, None);
    assert_eq!(job.phase, FreightPhase::ToDropoff);
    let (job, _) = freight_step(job, true, FreightEvent::Drive(Progress::Arrived), None);
    assert_eq!(job.phase, FreightPhase::Unloading);
    let (job, act) = freight_step(job, true, FreightEvent::Unload { empty: true }, None);
    assert_eq!(act, FreightAction::Complete);
    assert_eq!(job.phase, FreightPhase::ReturnToDepot);
    let (_, act) = freight_step(job, false, FreightEvent::Drive(Progress::Arrived), None);
    assert_eq!(act, FreightAction::Park);
}

#[test]
fn a_delivered_truck_chains_the_next_order() {
    let job = FreightJob { order: OrderId(1), phase: FreightPhase::Unloading, stalled: 0 };
    let (job, act) = freight_step(job, true, FreightEvent::Unload { empty: true }, Some(OrderId(8)));
    assert_eq!(act, FreightAction::Complete);
    assert_eq!(job, FreightJob { order: OrderId(8), phase: FreightPhase::ToPickup, stalled: 0 });
}

#[test]
fn an_empty_yard_stalls_out_and_requeues() {
    let mut job = FreightJob { order: OrderId(1), phase: FreightPhase::Loading, stalled: 0 };
    for _ in 0..LOAD_STALL_TICKS - 1 {
        let (next, act) = freight_step(job, true, FreightEvent::Load { full: false, moved: false, aboard: false }, None);
        assert_eq!(act, FreightAction::Nothing);
        job = next;
    }
    let (job, act) = freight_step(job, true, FreightEvent::Load { full: false, moved: false, aboard: false }, None);
    assert_eq!(act, FreightAction::Requeue);
    assert_eq!(job.phase, FreightPhase::ReturnToDepot);
}

#[test]
fn unreachable_pickup_gives_the_order_back() {
    let job = FreightJob::new(OrderId(2));
    let (job, act) = freight_step(job, true, FreightEvent::Drive(Progress::NoPath), None);
    assert_eq!(act, FreightAction::Requeue);
    assert_eq!(job.phase, FreightPhase::ReturnToDepot);
}

#[test]
fn a_truck_without_its_order_heads_home_only_with_an_empty_bed() {
    let job = FreightJob { order: OrderId(3), phase: FreightPhase::ToDropoff, stalled: 0 };
    assert_eq!(freight_precheck(job, false, true).phase, FreightPhase::ReturnToDepot);
    assert_eq!(freight_precheck(job, false, false), job);
    assert_eq!(freight_precheck(job, true, true), job);
}

#[test]
fn orders_of_vanished_trucks_go_back_to_waiting() {
    let mut orders = vec![
        OrderAssignment { id: OrderId(1), assigned: Some(50) },
        OrderAssignment { id: OrderId(2), assigned: Some(60) },
        OrderAssignment { id: OrderId(3), assigned: None },
    ];
    release_lost_assignments(&mut orders, &vec![60]);
    assert_eq!(orders[0].assigned, None);
    assert_eq!(orders[1].assigned, Some(60));
    assert_eq!(orders[2].assigned, None);
}

fn line(stops: Vec<u64>) -> TransitLine {
    TransitLine { id: LineId(1), stops }
}

#[test]
fn bus_serves_its_stop_then_moves_on() {
    let l = line(vec![100, 200, 300]);
    let mut duty = BusDuty { line: 1, next_stop: 0, dwell: 0, riders: vec![(1, 100), (2, 300)] };
    let mut queue = vec![(3, 200), (4, 999), (5, 300)];
    let (off, boarded) = duty.serve_stop(&l, 100, &mut queue, &vec![100, 200, 300], &vec![3, 4, 5]);
    assert_eq!(off, vec![(1, 100)]);
    assert_eq!(boarded, vec![(3, 200), (5, 300)]);
    assert_eq!(queue, vec![(4, 999)], "a rider for a stop off the line keeps waiting");
    assert_eq!(duty.riders, vec![(2, 300), (3, 200), (5, 300)]);
    assert_eq!(duty.dwell, BUS_DWELL_TICKS);
    assert_eq!(duty.next_stop, 1);
    assert!(duty.dwell_tick());
    assert_eq!(duty.dwell, BUS_DWELL_TICKS - 1);
}

#[test]
fn bus_never_boards_past_capacity() {
    let l = line(vec![100, 200]);
    let riders: Vec<(u64, u64)> = (0..BUS_CAPACITY as u64 - 1).map(|p| (p, 200)).collect();
    let mut duty = BusDuty { line: 1, next_stop: 1, dwell: 0, riders };
    let mut queue = vec![(500, 200), (501, 200), (502, 200)];
    let (_, boarded) = duty.serve_stop(&l, 100, &mut queue, &vec![100, 200], &vec![500, 501, 502]);
    assert_eq!(boarded, vec![(500, 200)]);
    assert_eq!(duty.riders.len(), BUS_CAPACITY);
    assert_eq!(queue, vec![(501, 200), (502, 200)]);
    assert_eq!(duty.next_stop, 0, "the loop wraps");
}

#[test]
fn riders_for_a_demolished_stop_step_off() {
    let l = line(vec![100, 200]);
    let mut duty = BusDuty { line: 1, next_stop: 0, dwell: 0, riders: vec![(1, 300), (2, 200)] };
    let mut queue = vec![];
    let (off, _) = duty.serve_stop(&l, 100, &mut queue, &vec![100, 200], &vec![]);
    assert_eq!(off, vec![(1, 300)]);
    assert_eq!(duty.riders, vec![(2, 200)]);
}

#[test]
fn lines_lose_dead_stops_and_dissolve_below_two() {
    let mut l = line(vec![1, 2, 3]);
    assert!(prune_dead_stops(&mut l, &vec![1, 3]));
    assert_eq!(l.stops, vec![1, 3]);
    assert!(!prune_dead_stops(&mut l, &vec![3]));
    assert!(line_accepted(&vec![1, 2], &vec![true, true]));
    assert!(!line_accepted(&vec![1], &vec![true]));
    assert!(!line_accepted(&vec![1, 2], &vec![true, false]));
    assert_eq!(line(vec![7, 8, 9]).stop_at(4), 8);
}

fn citizen_with_id(id: u64) -> Citizen {
    Citizen::new(CitizenId(id), 1)
}

#[test]
fn departures_open_at_the_morning_and_evening_edges() {
    let c = citizen_with_id(10);
    let jitter = departure_jitter(&c);
    assert_eq!(jitter, 10);
    assert_eq!(departure(MORNING_FRAME + jitter - 1, CitizenLocation::AtHome, jitter, None), None);
    assert_eq!(departure(MORNING_FRAME + jitter, CitizenLocation::AtHome, jitter, None), Some(true));
    assert_eq!(departure(MORNING_FRAME + jitter, CitizenLocation::AtHome, jitter, Some(false)), None);
    assert_eq!(departure(EVENING_FRAME + jitter, CitizenLocation::AtWork, jitter, None), Some(false));
    assert_eq!(departure(EVENING_FRAME, CitizenLocation::AtWork, jitter, None), None);
    assert_eq!(departure(MORNING_FRAME + 600 + jitter, CitizenLocation::AtHome, jitter, Some(true)), Some(true));
    assert_eq!(departure(300, CitizenLocation::ToWork, jitter, None), None);
}

#[test]
fn waiting_riders_give_up_and_walk() {
    assert_eq!(wait_step(3), CommutePhase::Wait { ticks: 4 });
    assert_eq!(wait_step(WAIT_GIVE_UP_TICKS), CommutePhase::Resume);
    let state = TripState {
        phase: CommutePhase::Wait { ticks: WAIT_GIVE_UP_TICKS },
        transit: Some(TransitLeg { board: 100, alight: 200 }),
        to_work: true,
    };
    let (next, act) = commute_step(state, CommuteEvent::Tick);
    assert_eq!(act, CommuteAction::LeaveQueue { board: 100 });
    assert_eq!(next.phase, CommutePhase::Resume);
    assert_eq!(next.transit, None);
}

#[test]
fn a_walk_to_the_stop_queues_for_the_bus() {
    let state = TripState {
        phase: CommutePhase::Walk,
        transit: Some(TransitLeg { board: 100, alight: 200 }),
        to_work: true,
    };
    let (next, act) = commute_step(state, CommuteEvent::Walked { outcome: WalkOutcome::Arrived });
    assert_eq!(act, CommuteAction::JoinQueue { board: 100, alight: 200 });
    assert_eq!(next.phase, CommutePhase::Wait { ticks: 0 });
    let (same, act) = commute_step(state, CommuteEvent::Walked { outcome: WalkOutcome::Moving });
    assert_eq!(same, state);
    assert_eq!(act, CommuteAction::Continue);
}

#[test]
fn trips_end_at_work_only_by_arriving_on_the_way_there() {
    let to_work = TripState { phase: CommutePhase::Walk, transit: None, to_work: true };
    let (_, act) = commute_step(to_work, CommuteEvent::Walked { outcome: WalkOutcome::Arrived });
    assert_eq!(act, CommuteAction::EndTrip { location: CitizenLocation::AtWork });
    let (_, act) = commute_step(to_work, CommuteEvent::Walked { outcome: WalkOutcome::Aborted });
    assert_eq!(act, CommuteAction::EndTrip { location: CitizenLocation::AtHome });
    let home = TripState { phase: CommutePhase::Walk, transit: None, to_work: false };
    let (_, act) = commute_step(home, CommuteEvent::Walked { outcome: WalkOutcome::Arrived });
    assert_eq!(act, CommuteAction::EndTrip { location: CitizenLocation::AtHome });
    assert_eq!(trip_end_location(false, true), CitizenLocation::AtHome);
}

#[test]
fn a_lost_bus_or_route_replans_or_strands() {
    let riding = TripState { phase: CommutePhase::Ride { bus: 5 }, transit: None, to_work: true };
    let (next, _) = commute_step(riding, CommuteEvent::Bus { present: false });
    assert_eq!(next.phase, CommutePhase::Resume);
    let (same, _) = commute_step(riding, CommuteEvent::Bus { present: true });
    assert_eq!(same, riding);
    let (walk, act) = commute_step(next, CommuteEvent::Replanned { found: true });
    assert_eq!(walk.phase, CommutePhase::Walk);
    assert_eq!(act, CommuteAction::Continue);
    let (_, act) = commute_step(next, CommuteEvent::Replanned { found: false });
    assert_eq!(act, CommuteAction::EndTrip { location: CitizenLocation::AtHome });
}

#[test]
fn presence_is_recounted_from_locations() {
    let mut a = Citizen::new(CitizenId(1), 1);
    a.work = Some(900);
    a.location = CitizenLocation::AtWork;
    let mut b = Citizen::new(CitizenId(2), 1);
    b.work = Some(900);
    b.location = CitizenLocation::ToWork;
    let mut c = Citizen::new(CitizenId(3), 1);
    c.work = Some(901);
    c.location = CitizenLocation::AtWork;
    let entries = vec![
        CitizenEntry { entity: 1, citizen: a },
        CitizenEntry { entity: 2, citizen: b },
        CitizenEntry { entity: 3, citizen: c },
    ];
    assert_eq!(tally_presence(&entries, &vec![900, 901, 902]), vec![1, 1, 0]);
}

#[test]
fn a_line_takes_the_first_idle_bus_at_the_depot() {
    let fleet = vec![
        FleetEntry { entity: 1, kind: VehicleKind::Truck, home_depot: 7, on_road: false, on_duty: false },
        FleetEntry { entity: 2, kind: VehicleKind::Bus, home_depot: 7, on_road: true, on_duty: false },
        FleetEntry { entity: 3, kind: VehicleKind::Bus, home_depot: 8, on_road: false, on_duty: false },
        FleetEntry { entity: 4, kind: VehicleKind::Bus, home_depot: 7, on_road: false, on_duty: false },
        FleetEntry { entity: 5, kind: VehicleKind::Bus, home_depot: 7, on_road: false, on_duty: false },
    ];
    assert_eq!(pick_idle_bus(&fleet, 7), Some(4));
    assert_eq!(pick_idle_bus(&fleet, 9), None);
    let duty = BusDuty::new(77);
    assert_eq!(duty.line, 77);
    assert_eq!(duty.next_stop, 0);
    assert!(duty.riders.is_empty());
}

#[test]
fn an_order_completes_only_when_the_bed_empties_at_the_dock() {
    let unloading = FreightJob { order: OrderId(3), phase: FreightPhase::Unloading, stalled: 0 };
    // Still carrying: nothing is credited yet.
    assert_eq!(freight_step(unloading, true, FreightEvent::Unload { empty: false }, None).1, FreightAction::Nothing);
    // The order vanished mid-unload: the truck heads home, nothing completes.
    assert_eq!(freight_step(unloading, false, FreightEvent::Unload { empty: true }, None).1, FreightAction::Nothing);
    // An empty bed anywhere else completes nothing.
    let loading = FreightJob { order: OrderId(3), phase: FreightPhase::Loading, stalled: 0 };
    assert_ne!(freight_step(loading, true, FreightEvent::Unload { empty: true }, None).1, FreightAction::Complete);
    assert_eq!(freight_step(unloading, true, FreightEvent::Unload { empty: true }, None).1, FreightAction::Complete);
}
