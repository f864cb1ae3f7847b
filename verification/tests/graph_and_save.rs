use simulation::buildings::{fitting, place_building, Powered};
use simulation::households::Dwelling;
use simulation::buildings::{BuildingId, BuildingIds, BuildingKind};
use simulation::citizens::CitizenLocation;
use simulation::construction::{machine_skill, machine_wanted, phase_plan, phase_stall, Bottleneck, PhaseKind, SiteProgress, Skill};
use simulation::dispatch::FreightPhase;
use simulation::network::PriorityClass;
use simulation::pathfinding::{
    jitter_seed, pack_graph, snapshot_key, snapshot_stale, xorshift_step, CostProfile, HalfEdge, PathTicket, PathService,
};
use simulation::production::{gate, last_short, Bound};
use simulation::resources::{ResourceKind, TransportClass};
use simulation::roads::{LaneDir, RoadClass, RoadIds};
use simulation::save::{
    check_version, class_from_u8, class_to_u8, end_ref, kind_from_u8, kind_to_u8, location_from_u8, location_to_u8,
    net_kind_from_u8, net_kind_to_u8, phase_from_u8, phase_to_u8, resolve, resolve_end, resolve_one,
    resource_from_u8, resource_to_u8, saved_location, transport_class_from_u8, transport_class_to_u8, EndRef,
    IdTable, SAVE_VERSION,
};
use simulation::vehicles::{
    find_route, kind_for_class, purchase_trucks, RoadNodeView, RoadSegmentView, RouteLeg, TruckOrder, VehicleId,
    VehicleIds, VehicleKind, DEPOT_SLOTS,
};
use simulation::wires::{
    heat_role, net_links, pole_orphaned, power_class, span_accepted, water_role, watered, HeatRole, NetKind, SpanId,
    WaterRole, WireIds, WireSpan,
};
use simulation::zoning::{siting_allowed, unfulfilled_zones, ZoneIds, ZoneKind, ZoneId};

#[test]
fn save_version_gate_rejects_other_layouts() {
    assert_eq!(check_version(SAVE_VERSION), Ok(()));
    assert_eq!(check_version(4), Err(4));
    assert_eq!(check_version(6), Err(6));
}

#[test]
fn enum_codes_read_back_as_written() {
    for kind in BuildingKind::all() {
        assert_eq!(kind_from_u8(kind_to_u8(kind)), Some(kind));
    }
    assert_eq!(kind_to_u8(BuildingKind::CustomsOffice), 12);
    assert_eq!(kind_from_u8(13), None);
    for r in ResourceKind::all() {
        assert_eq!(resource_from_u8(resource_to_u8(r)), Some(r));
    }
    assert_eq!(resource_from_u8(3), None);
    for c in [RoadClass::Dirt, RoadClass::Paved] {
        assert_eq!(class_from_u8(class_to_u8(c)), Some(c));
    }
    assert_eq!(class_from_u8(2), None);
    for t in [TransportClass::Bulk, TransportClass::Covered, TransportClass::Passenger, TransportClass::Machine] {
        assert_eq!(transport_class_from_u8(transport_class_to_u8(t)), Some(t));
    }
    assert_eq!(transport_class_from_u8(4), None);
    for p in [
        FreightPhase::ToPickup,
        FreightPhase::Loading,
        FreightPhase::ToDropoff,
        FreightPhase::Unloading,
        FreightPhase::ReturnToDepot,
    ] {
        assert_eq!(phase_from_u8(phase_to_u8(p)), p);
    }
    assert_eq!(phase_from_u8(200), FreightPhase::ToPickup);
    for n in [NetKind::Power, NetKind::Water, NetKind::Heat] {
        assert_eq!(net_kind_from_u8(net_kind_to_u8(n)), n);
    }
    assert_eq!(net_kind_from_u8(9), NetKind::Power);
}

#[test]
fn travellers_are_saved_at_home() {
    assert_eq!(saved_location(CitizenLocation::ToWork), CitizenLocation::AtHome);
    assert_eq!(saved_location(CitizenLocation::ToHome), CitizenLocation::AtHome);
    assert_eq!(saved_location(CitizenLocation::AtWork), CitizenLocation::AtWork);
    assert_eq!(location_from_u8(location_to_u8(CitizenLocation::AtWork)), CitizenLocation::AtWork);
    assert_eq!(location_from_u8(location_to_u8(CitizenLocation::ToWork)), CitizenLocation::AtHome);
}

#[test]
fn tables_sort_by_stable_id_and_references_round_trip() {
    let table = IdTable::from_rows(&vec![(30, 900), (10, 700), (20, 800)]);
    assert_eq!(table.rows, vec![(10, 700), (20, 800), (30, 900)]);
    assert_eq!(table.entities(), vec![700, 800, 900]);
    assert_eq!(table.index_of(900), Some(2));
    assert_eq!(table.index_of(555), None);
    let written = table.remap(&vec![900, 555, 700]);
    assert_eq!(written, vec![2, 0], "a dangling reference is dropped");
    // load: fresh shells in table order
    let shells = vec![1, 2, 3];
    assert_eq!(resolve(&shells, &written), vec![3, 1]);
    assert_eq!(resolve(&shells, &vec![7]), Vec::<u64>::new());
    assert_eq!(resolve_one(&shells, 1), Some(2));
    // reading back through the old entity column gives the references back
    assert_eq!(resolve(&table.entities(), &written), vec![900, 700]);
}

#[test]
fn span_endpoints_are_written_by_table() {
    let buildings = IdTable::from_rows(&vec![(1, 500)]);
    let poles = IdTable::from_rows(&vec![(1, 600), (2, 601)]);
    assert_eq!(end_ref(&buildings, &poles, 500), Some(EndRef::Building(0)));
    assert_eq!(end_ref(&buildings, &poles, 601), Some(EndRef::Pole(1)));
    assert_eq!(end_ref(&buildings, &poles, 7), None);
    assert_eq!(resolve_end(&vec![50], &vec![60, 61], EndRef::Pole(1)), Some(61));
    assert_eq!(resolve_end(&vec![50], &vec![60, 61], EndRef::Building(3)), None);
}

#[test]
fn road_ids_are_never_reused() {
    let mut ids = RoadIds::new();
    assert_eq!(ids.allocate_node().0, 1);
    assert_eq!(ids.allocate_segment().0, 1);
    assert_eq!(ids.allocate_node().0, 2);
}

fn node(entity: u64, segments: Vec<u64>) -> RoadNodeView {
    RoadNodeView { entity, segments }
}

fn seg(entity: u64, a: u64, b: u64) -> RoadSegmentView {
    RoadSegmentView { entity, a, b }
}

#[test]
fn route_search_finds_a_connected_goal() {
    // 1 -s10- 2 -s11- 3 ; 4 isolated
    let nodes = vec![node(1, vec![10]), node(2, vec![10, 11]), node(3, vec![11]), node(4, vec![])];
    let segments = vec![seg(10, 1, 2), seg(11, 3, 2)];
    let route = find_route(1, 3, &nodes, &segments).expect("connected");
    assert_eq!(
        route,
        vec![RouteLeg { segment: 10, dir: LaneDir::Forward }, RouteLeg { segment: 11, dir: LaneDir::Backward }]
    );
    let back = find_route(3, 1, &nodes, &segments).expect("connected");
    assert_eq!(back.len(), 2);
    assert_eq!(find_route(1, 4, &nodes, &segments), None);
    assert_eq!(find_route(4, 4, &nodes, &segments), Some(vec![]));
}

#[test]
fn route_search_takes_the_fewest_legs() {
    // long way 1-2-3-4 and a shortcut 1-4
    let nodes = vec![
        node(1, vec![20, 23]),
        node(2, vec![20, 21]),
        node(3, vec![21, 22]),
        node(4, vec![22, 23]),
    ];
    let segments = vec![seg(20, 1, 2), seg(21, 2, 3), seg(22, 3, 4), seg(23, 1, 4)];
    let route = find_route(1, 4, &nodes, &segments).unwrap();
    assert_eq!(route, vec![RouteLeg { segment: 23, dir: LaneDir::Forward }]);
}

#[test]
fn depots_hold_at_most_their_slots() {
    let mut homes: Vec<u64> = vec![7; 5];
    let mut ids = VehicleIds { next: 10 };
    let orders = vec![
        TruckOrder { depot: 7, depot_kind: Some(BuildingKind::Depot) },
        TruckOrder { depot: 7, depot_kind: Some(BuildingKind::Depot) },
        TruckOrder { depot: 8, depot_kind: Some(BuildingKind::Warehouse) },
        TruckOrder { depot: 9, depot_kind: None },
        TruckOrder { depot: 9, depot_kind: Some(BuildingKind::Depot) },
    ];
    let bought = purchase_trucks(&mut homes, &orders, &mut ids);
    assert_eq!(bought, vec![Some(VehicleId(11)), None, None, None, Some(VehicleId(12))]);
    assert_eq!(homes.iter().filter(|&&d| d == 7).count(), DEPOT_SLOTS as usize);
    assert_eq!(ids.next, 12);
    assert_eq!(kind_for_class(TransportClass::Passenger), VehicleKind::Bus);
    assert_eq!(kind_for_class(TransportClass::Covered), VehicleKind::Truck);
}

#[test]
fn wires_refuse_duplicates_and_self_spans() {
    let spans = vec![WireSpan { id: SpanId(1), a: 1, b: 2, kind: NetKind::Power }];
    assert!(!span_accepted(&spans, 2, 1, NetKind::Power));
    assert!(span_accepted(&spans, 2, 1, NetKind::Water), "another net may share the endpoints");
    assert!(!span_accepted(&spans, 3, 3, NetKind::Power));
    assert!(span_accepted(&spans, 2, 3, NetKind::Power));
    assert!(pole_orphaned(&vec![], 5, true));
    assert!(!pole_orphaned(&spans, 2, true));
    assert!(!pole_orphaned(&vec![], 5, false), "buildings are never removed with a span");
    let mixed = vec![
        WireSpan { id: SpanId(1), a: 1, b: 2, kind: NetKind::Power },
        WireSpan { id: SpanId(2), a: 3, b: 4, kind: NetKind::Heat },
        WireSpan { id: SpanId(3), a: 2, b: 5, kind: NetKind::Power },
    ];
    assert_eq!(net_links(&mixed, NetKind::Power), vec![(1, 2), (2, 5)]);
    assert_eq!(power_class(BuildingKind::Factory), Some(PriorityClass::Industry));
    assert_eq!(power_class(BuildingKind::Dwelling), Some(PriorityClass::Housing));
    assert_eq!(power_class(BuildingKind::Mine), None);
    let mut ids = WireIds::new();
    assert_eq!(ids.allocate_pole().0, 1);
    assert_eq!(ids.allocate_span().0, 1);
    assert_eq!(NetKind::default(), NetKind::Power);
}

#[test]
fn path_tickets_resolve_two_ticks_after_launch() {
    let mut desk = PathService::new();
    let t = desk.request(1, 2, CostProfile::Vehicle);
    assert_eq!(t, PathTicket(1));
    let queued = desk.take_submitted();
    assert_eq!(queued.len(), 1);
    assert!(desk.take_submitted().is_empty());
    desk.launch(t, 100);
    assert!(desk.harvest(100).is_empty());
    assert!(desk.harvest(101).is_empty());
    assert_eq!(desk.harvest(102), vec![t]);
    assert!(desk.in_flight.is_empty());
    let t2 = desk.request(3, 4, CostProfile::Pedestrian);
    desk.launch(t2, u32::MAX);
    assert!(desk.harvest(0).is_empty());
    assert_eq!(desk.harvest(1), vec![t2], "the age check is wrap-safe");
}

#[test]
fn packed_graph_groups_half_edges_by_node() {
    let nodes = vec![1, 2, 3];
    let segments = vec![(10, 1, 2), (11, 2, 3), (12, 3, 9)];
    let (offsets, edges) = pack_graph(&nodes, &segments);
    assert_eq!(offsets, vec![0, 1, 3, 4]);
    assert_eq!(edges[0], HalfEdge { to: 1, segment: 0, dir: LaneDir::Forward });
    assert_eq!(edges[1], HalfEdge { to: 0, segment: 0, dir: LaneDir::Backward });
    assert_eq!(edges[2], HalfEdge { to: 2, segment: 1, dir: LaneDir::Forward });
    assert_eq!(edges[3], HalfEdge { to: 1, segment: 1, dir: LaneDir::Backward });
    let key = snapshot_key(4, 3, 3, &vec![1, 2, 3], 10);
    assert_eq!(key, (4, 3, 3, 16));
    assert!(snapshot_stale(false, key, key));
    assert!(!snapshot_stale(true, key, key));
    assert!(snapshot_stale(true, key, (4, 3, 3, 17)));
}

#[test]
fn zoning_constrains_siting_and_counts_the_backlog() {
    assert_eq!(siting_allowed(BuildingKind::Dwelling, &vec![]), Ok(()));
    assert_eq!(siting_allowed(BuildingKind::Dwelling, &vec![ZoneKind::Industrial]), Err(ZoneKind::Industrial));
    assert_eq!(siting_allowed(BuildingKind::Factory, &vec![ZoneKind::Industrial]), Ok(()));
    assert_eq!(siting_allowed(BuildingKind::BusStop, &vec![ZoneKind::Residential, ZoneKind::Industrial]), Ok(()));
    assert_eq!(
        siting_allowed(BuildingKind::Mine, &vec![ZoneKind::Industrial, ZoneKind::Residential]),
        Err(ZoneKind::Residential)
    );
    let zones = vec![(ZoneKind::Residential, vec![]), (ZoneKind::Industrial, vec![BuildingKind::Factory])];
    assert_eq!(unfulfilled_zones(&zones), (2, 1));
    let mut ids = ZoneIds { next: 0 };
    assert_eq!(ids.allocate(), ZoneId(1));
}

#[test]
fn construction_stalls_are_named() {
    assert_eq!(phase_stall(true, true), Some(Bottleneck::NoMaterial));
    assert_eq!(phase_stall(false, false), Some(Bottleneck::NoMachine));
    assert_eq!(phase_stall(false, true), None);
    let plan = phase_plan();
    assert_eq!(plan[0], (PhaseKind::Earthworks, Skill::Groundworks));
    assert_eq!(plan[1].1, Skill::Crane);
    assert_eq!(machine_skill(VehicleKind::Excavator), Some(Skill::Groundworks));
    assert_eq!(machine_skill(VehicleKind::Truck), None);
    assert!(machine_wanted(VehicleKind::Crane, false, false, Some(Skill::Crane)));
    assert!(!machine_wanted(VehicleKind::Crane, false, false, Some(Skill::Groundworks)));
    assert!(!machine_wanted(VehicleKind::Crane, true, false, Some(Skill::Crane)));
    let mut site = SiteProgress { current: 0, phases: 3 };
    assert!(!site.advance(false));
    assert!(!site.advance(true));
    assert!(!site.advance(true));
    assert!(site.advance(true));
    assert!(site.complete());
}

#[test]
fn availability_gate_names_the_scarcest_factor() {
    assert_eq!(gate(true, None, Some(true), true), Bound::Power, "no gate at all is blocked");
    assert_eq!(gate(true, Some(false), Some(false), false), Bound::Power);
    assert_eq!(gate(true, Some(true), Some(false), true), Bound::Water);
    assert_eq!(gate(false, None, None, false), Bound::Labour);
    assert_eq!(gate(false, None, None, true), Bound::Nothing);
    assert_eq!(Bound::default(), Bound::Nothing);
    assert_eq!(
        last_short(&vec![(ResourceKind::Coal, true), (ResourceKind::Gravel, false), (ResourceKind::Goods, true)]),
        Some(ResourceKind::Goods)
    );
    assert_eq!(last_short(&vec![(ResourceKind::Coal, false)]), None);
}

#[test]
fn building_ids_are_never_reused() {
    let mut ids = BuildingIds { next: 41 };
    assert_eq!(ids.allocate(), BuildingId(42));
    assert_eq!(BuildingKind::Depot.index(), 6);
}

#[test]
fn placement_is_zoned_and_fitted_by_kind() {
    let mut ids = BuildingIds { next: 0 };
    assert_eq!(place_building(BuildingKind::Dwelling, &vec![ZoneKind::Industrial], &mut ids), Err(ZoneKind::Industrial));
    assert_eq!(ids.next, 0, "a refused placement takes no id");
    assert_eq!(place_building(BuildingKind::Factory, &vec![ZoneKind::Industrial], &mut ids), Ok(BuildingId(1)));
    assert_eq!(place_building(BuildingKind::Dwelling, &vec![], &mut ids), Ok(BuildingId(2)));
    let home = fitting(BuildingKind::Dwelling);
    assert_eq!(home.flats, Some(Dwelling { flats: 8, occupied: 0 }));
    assert_eq!(home.grid_gate, Some(Powered(false)));
    assert!(fitting(BuildingKind::PowerPlant).generates_power);
    assert_eq!(fitting(BuildingKind::Mine).grid_gate, None);
}

#[test]
fn congestion_scatter_is_a_seeded_xorshift() {
    assert_eq!(jitter_seed(0), 1);
    assert_eq!(jitter_seed(1), 0x9E37_79B9_7F4A_7C15u64.wrapping_add(1));
    let (next, top) = xorshift_step(1);
    let mut x: u64 = 1;
    x ^= x << 13;
    x ^= x >> 7;
    x ^= x << 17;
    assert_eq!(next, x);
    assert_eq!(top as u64, x >> 40);
    let (_, top) = xorshift_step(u64::MAX);
    assert!(top < (1 << 24));
}

#[test]
fn utility_roles_by_kind() {
    assert_eq!(water_role(BuildingKind::Factory), Some(WaterRole::Draws(PriorityClass::Industry)));
    assert_eq!(water_role(BuildingKind::Dwelling), Some(WaterRole::Draws(PriorityClass::Housing)));
    assert_eq!(water_role(BuildingKind::WaterPump), Some(WaterRole::Supplies));
    assert_eq!(water_role(BuildingKind::SewagePlant), Some(WaterRole::Drains));
    assert_eq!(water_role(BuildingKind::Mine), None);
    assert_eq!(heat_role(BuildingKind::Dwelling), Some(HeatRole::Consumer));
    assert_eq!(heat_role(BuildingKind::HeatPlant), Some(HeatRole::Producer));
    assert_eq!(heat_role(BuildingKind::Factory), None);
    assert!(watered(true, true));
    assert!(!watered(true, false), "water needs both the pump and the drain");
}
