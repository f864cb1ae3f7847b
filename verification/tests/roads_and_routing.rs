use simulation::construction::{machine_step, still_wanted, MachineAction, Skill};
use simulation::dispatch::{drive_begin, drive_finish, drive_request, DriveAction, Progress, RouteState};
use simulation::pathfinding::{CostProfile, PathPoll, PathService, PathTicket};
use simulation::roads::{LaneDir, RoadClass, RoadGraph, RoadSegment};
use simulation::vehicles::{find_route, RouteLeg, VehicleKind};

fn leg(segment: u64, dir: LaneDir) -> RouteLeg {
    RouteLeg { segment, dir }
}

#[test]
fn placing_two_segments_shares_the_snapped_node() {
    let mut g = RoadGraph::new();
    // Both ends fresh and far apart: two new nodes, one segment.
    assert_eq!(g.place_segment(None, None, false, RoadClass::Dirt), Some(1));
    assert_eq!(g.nodes, vec![1, 2]);
    // The second segment starts on node 2: one new node.
    assert_eq!(g.place_segment(Some(2), None, false, RoadClass::Paved), Some(2));
    assert_eq!(g.nodes, vec![1, 2, 3]);
    assert_eq!(g.attached_segments(2), vec![1, 2]);
    assert_eq!(g.attached_segments(3), vec![2]);
    assert_eq!(
        g.segments[1],
        RoadSegment { entity: 2, a: 2, b: 3, class: RoadClass::Paved, modification_index: 0, dirty: true }
    );
    // Placing marks the ring of both ends, so segment 1 is due again too.
    assert!(g.segments.iter().all(|s| s.dirty));
}

#[test]
fn duplicate_and_self_segments_are_refused() {
    let mut g = RoadGraph::new();
    g.place_segment(None, None, false, RoadClass::Dirt);
    assert!(g.refuses(Some(1), Some(2)));
    assert!(g.refuses(Some(2), Some(1)));
    assert!(g.refuses(Some(1), Some(1)));
    assert!(!g.refuses(Some(1), None));
    assert!(!g.refuses(None, None));
    assert!(g.joined(1, 2));
    assert!(!g.joined(1, 3));
}

#[test]
fn far_end_within_range_of_a_fresh_near_end_places_nothing() {
    let mut g = RoadGraph::new();
    assert_eq!(g.place_segment(None, None, true, RoadClass::Dirt), None);
    // The fresh near end stays behind, alone.
    assert_eq!(g.nodes, vec![1]);
    assert!(g.segments.is_empty());
    assert_eq!(g.ids.next_segment, 0);
}

#[test]
fn removal_drops_orphans_and_marks_the_ring() {
    let mut g = RoadGraph::new();
    g.place_segment(None, None, false, RoadClass::Dirt);
    g.place_segment(Some(2), None, false, RoadClass::Dirt);
    assert_eq!(g.take_dirty(), vec![1, 2]);
    assert!(g.segments.iter().all(|s| !s.dirty && s.modification_index == 1));
    assert_eq!(g.remove_segment(2), Some((2, 3, RoadClass::Dirt)));
    // Node 3 had only segment 2; node 2 keeps segment 1.
    assert_eq!(g.nodes, vec![1, 2]);
    assert_eq!(g.segments.len(), 1);
    assert!(g.segments[0].dirty, "the surviving neighbour is due a rebuild");
    assert_eq!(g.remove_segment(2), None);
    assert_eq!(g.take_dirty(), vec![1]);
    assert_eq!(g.segments[0].modification_index, 2);
    assert_eq!(g.remove_segment(1), Some((1, 2, RoadClass::Dirt)));
    assert!(g.nodes.is_empty());
    assert!(g.segments.is_empty());
}

#[test]
fn removing_a_fresh_placement_restores_the_graph() {
    let mut g = RoadGraph::new();
    g.place_segment(None, None, false, RoadClass::Dirt);
    g.take_dirty();
    let nodes = g.nodes.clone();
    let segments = g.segments.clone();
    let placed = g.place_segment(None, None, false, RoadClass::Paved).unwrap();
    g.remove_segment(placed);
    assert_eq!(g.nodes, nodes);
    assert_eq!(g.segments, segments);
}

#[test]
fn graph_routes_follow_the_placed_segments() {
    let mut g = RoadGraph::new();
    g.place_segment(None, None, false, RoadClass::Dirt); // 1: 1-2
    g.place_segment(Some(2), None, false, RoadClass::Dirt); // 2: 2-3
    g.place_segment(Some(3), Some(1), false, RoadClass::Dirt); // 3: 3-1
    let (nodes, segments) = g.route_views();
    assert_eq!(nodes[1].segments, vec![1, 2]);
    assert_eq!(find_route(1, 3, &nodes, &segments), Some(vec![leg(3, LaneDir::Backward)]));
    assert_eq!(find_route(2, 1, &nodes, &segments), Some(vec![leg(1, LaneDir::Backward)]));
    g.remove_segment(3);
    let (nodes, segments) = g.route_views();
    assert_eq!(
        find_route(1, 3, &nodes, &segments),
        Some(vec![leg(1, LaneDir::Forward), leg(2, LaneDir::Forward)])
    );
}

#[test]
fn solved_routes_are_collected_once() {
    let mut svc = PathService::new();
    let t = svc.request(1, 2, CostProfile::Vehicle);
    assert!(matches!(svc.poll(t), PathPoll::Pending));
    svc.deliver(t, Some(vec![leg(7, LaneDir::Forward)]));
    svc.deliver(PathTicket(99), None);
    match svc.poll(t) {
        PathPoll::Ready(Some(route)) => assert_eq!(route, vec![leg(7, LaneDir::Forward)]),
        _ => panic!("the delivered route is handed over"),
    }
    assert!(matches!(svc.poll(t), PathPoll::Pending));
    assert!(matches!(svc.poll(PathTicket(99)), PathPoll::Ready(None)));
}

#[test]
fn a_drive_requests_waits_adopts_and_arrives() {
    let mut svc = PathService::new();
    let mut state = RouteState { route: Vec::new(), leg: 0, pending: None };
    // No route, nothing in flight: the goal is looked up.
    assert_eq!(drive_begin(&mut state, false, &mut svc), DriveAction::LookUpGoal);
    assert_eq!(drive_request(&mut state, &mut svc, None, false, Some(1)), Progress::NoPath);
    assert_eq!(drive_request(&mut state, &mut svc, Some(5), false, None), Progress::NoPath);
    assert_eq!(drive_request(&mut state, &mut svc, Some(5), false, Some(1)), Progress::Moving);
    assert_eq!(state.pending, Some(PathTicket(1)));
    let queued = svc.take_submitted();
    assert_eq!((queued[0].start, queued[0].goal, queued[0].profile), (1, 5, CostProfile::Vehicle));
    // Holding while the solver works.
    assert_eq!(drive_begin(&mut state, false, &mut svc), DriveAction::Report(Progress::Moving));
    svc.deliver(PathTicket(1), Some(vec![leg(4, LaneDir::Forward), leg(6, LaneDir::Backward)]));
    assert_eq!(drive_begin(&mut state, false, &mut svc), DriveAction::EnterAndAdvance);
    assert_eq!(state.pending, None);
    assert_eq!(state.route.len(), 2);
    // With a route in hand the pawn advances until it is spent.
    assert_eq!(drive_begin(&mut state, false, &mut svc), DriveAction::Advance);
    assert_eq!(drive_finish(&mut state, false), Progress::Moving);
    assert_eq!(drive_finish(&mut state, true), Progress::Arrived);
    assert!(state.route.is_empty());
    // Standing on the goal already.
    assert_eq!(drive_request(&mut state, &mut svc, Some(5), true, Some(5)), Progress::Arrived);
}

#[test]
fn a_severed_route_or_a_failed_solve_reports_no_path() {
    let mut svc = PathService::new();
    let mut state = RouteState { route: vec![leg(1, LaneDir::Forward)], leg: 0, pending: Some(PathTicket(3)) };
    svc.deliver(PathTicket(3), None);
    // The route ahead is intact: the pending answer is not even looked at.
    assert_eq!(drive_begin(&mut state, false, &mut svc), DriveAction::Advance);
    assert_eq!(drive_begin(&mut state, true, &mut svc), DriveAction::Report(Progress::NoPath));
    assert_eq!(state.pending, None);
    svc.deliver(PathTicket(4), Some(Vec::new()));
    state.pending = Some(PathTicket(4));
    assert_eq!(drive_begin(&mut state, true, &mut svc), DriveAction::Report(Progress::Arrived));
}

#[test]
fn machines_work_where_wanted_and_park_at_home() {
    assert!(still_wanted(VehicleKind::Excavator, Some(Skill::Groundworks)));
    assert!(!still_wanted(VehicleKind::Excavator, Some(Skill::Crane)));
    assert!(!still_wanted(VehicleKind::Crane, None));
    assert!(!still_wanted(VehicleKind::Truck, Some(Skill::Crane)));
    assert_eq!(machine_step(true, Progress::Arrived, true), MachineAction::Work);
    assert_eq!(machine_step(true, Progress::Moving, true), MachineAction::Continue);
    assert_eq!(machine_step(true, Progress::NoPath, false), MachineAction::Continue);
    assert_eq!(machine_step(false, Progress::Arrived, true), MachineAction::Park);
    assert_eq!(machine_step(false, Progress::NoPath, true), MachineAction::Continue);
    assert_eq!(machine_step(false, Progress::NoPath, false), MachineAction::Park);
    assert_eq!(machine_step(false, Progress::Moving, false), MachineAction::Continue);
}
