use simulation::citizens::CitizenIds;
use simulation::buildings::BuildingKind;
use simulation::citizens::{Citizen, CitizenEntry, CitizenId, CitizenLocation};
use simulation::households::{
    household_size, max_households, overcrowded, recruit_immigrants, Dwelling, DwellingEntry, Household,
    HouseholdEntry, HouseholdId, HouseholdIds, HouseholdSpawnQueue, HousingBook, HousingQueue, RecruitmentLedger,
    RecruitmentPlan, SpawnHousehold, DYNAMICS_FRAME,
};
use simulation::labour::{plan_labour, sever_lost_workplaces, Staffing, WorkplaceEntry};

fn household(entity: u64, id: u64, members: Vec<u64>, dwelling: Option<u64>) -> HouseholdEntry {
    HouseholdEntry { entity, household: Household { id: HouseholdId(id), members, dwelling } }
}

fn dwelling(entity: u64, flats: u32, occupied: u32) -> DwellingEntry {
    DwellingEntry { entity, dwelling: Dwelling { flats, occupied } }
}

fn member_count(book: &HousingBook) -> usize {
    book.households.iter().map(|h| h.household.members.len()).sum()
}

#[test]
fn member_count_is_clamped_to_cap() {
    assert_eq!(household_size(SpawnHousehold { members: 9 }), 5);
    assert_eq!(household_size(SpawnHousehold { members: 0 }), 1);
    assert_eq!(household_size(SpawnHousehold { members: 3 }), 3);
}

#[test]
fn flat_table_ceiling_and_crowding() {
    let d = Dwelling { flats: 8, occupied: 9 };
    assert!(overcrowded(d));
    assert_eq!(d.free_flats(), 0);
    assert_eq!(max_households(d), 16);
    assert_eq!(Dwelling { flats: 8, occupied: 3 }.free_flats(), 5);
}

#[test]
fn recruitment_deals_the_size_cycle_until_the_target() {
    let plan = RecruitmentPlan { target_households: 7 };
    let mut ledger = RecruitmentLedger { recruited: 0 };
    let mut spawns = HouseholdSpawnQueue(Vec::new());
    recruit_immigrants(&plan, &mut ledger, &mut spawns);
    assert_eq!(ledger.recruited, 7);
    let sizes: Vec<u8> = spawns.0.iter().map(|s| s.members).collect();
    assert_eq!(sizes, vec![3, 2, 4, 1, 5, 3, 2]);
    recruit_immigrants(&plan, &mut ledger, &mut spawns);
    assert_eq!(spawns.0.len(), 7, "a met target recruits nobody");
}

#[test]
fn housing_office_serves_the_longest_waiter_first() {
    let mut book = HousingBook {
        households: vec![household(1, 1, vec![10], None), household(2, 2, vec![20], None)],
        dwellings: vec![dwelling(100, 1, 0), dwelling(200, 1, 0)],
        queue: HousingQueue(vec![2, 1]),
    };
    // household 2 prefers dwelling 200, household 1 prefers dwelling 100
    let scores = vec![vec![9, 1], vec![1, 9]];
    let moves = book.assign_housing(&scores);
    assert_eq!(moves, vec![(2, 200), (1, 100)]);
    assert!(book.queue.0.is_empty());
    assert_eq!(book.households[0].household.dwelling, Some(100));
    assert_eq!(book.dwellings[1].dwelling.occupied, 1);
}

#[test]
fn overflow_waits_in_the_queue() {
    let mut book = HousingBook {
        households: vec![household(1, 1, vec![10], None), household(2, 2, vec![20], None)],
        dwellings: vec![dwelling(100, 1, 0)],
        queue: HousingQueue(vec![1, 2]),
    };
    let moves = book.assign_housing(&vec![vec![0], vec![0]]);
    assert_eq!(moves, vec![(1, 100)]);
    assert_eq!(book.queue.0, vec![2], "no doubling up below the queue threshold");
}

#[test]
fn doubling_up_waits_for_a_long_queue() {
    let households: Vec<HouseholdEntry> = (1..=6).map(|e| household(e, e, vec![e * 10], None)).collect();
    let mut book = HousingBook {
        households,
        dwellings: vec![dwelling(100, 1, 1), dwelling(200, 2, 1)],
        queue: HousingQueue(vec![1, 2, 3, 4, 5, 6]),
    };
    let scores: Vec<Vec<i64>> = (0..6).map(|_| vec![0, 0]).collect();
    let moves = book.assign_housing(&scores);
    // no free flat is left in 100; 200 has one free flat, then doubling up
    // picks the least crowded block under two households per flat
    assert_eq!(moves[0], (1, 200));
    assert_eq!(moves[1], (2, 100));
    assert_eq!(moves.len(), 2, "the office stops doubling at the threshold");
    assert_eq!(book.queue.0, vec![3, 4, 5, 6]);
    for d in &book.dwellings {
        assert!(d.dwelling.occupied <= 2 * d.dwelling.flats);
    }
}

#[test]
fn fission_sheds_the_last_member_into_a_queued_household() {
    let mut book = HousingBook {
        households: vec![household(1, 1, vec![11, 12, 13, 14, 15], Some(100))],
        dwellings: vec![dwelling(100, 8, 1)],
        queue: HousingQueue(vec![]),
    };
    let mut ids = HouseholdIds { next: 1 };
    assert_eq!(book.fission_count(DYNAMICS_FRAME + 600), 1);
    assert_eq!(book.fission_count(DYNAMICS_FRAME + 1), 0);
    let before = member_count(&book);
    let moves = book.household_dynamics(DYNAMICS_FRAME + 600, &vec![77], &mut ids);
    assert_eq!(moves, vec![(15, 77)]);
    assert_eq!(book.households.len(), 2);
    assert_eq!(book.households[0].household.members, vec![11, 12, 13, 14]);
    assert_eq!(book.households[0].household.dwelling, Some(100), "the adult keeps the old bed");
    assert_eq!(book.households[1].entity, 77);
    assert_eq!(book.households[1].household.id, HouseholdId(2));
    assert_eq!(book.households[1].household.dwelling, None);
    assert_eq!(book.queue.0, vec![77]);
    assert_eq!(member_count(&book), before);
}

#[test]
fn paired_singles_merge_into_the_first() {
    let mut book = HousingBook {
        households: vec![household(1, 1, vec![10], None), household(2, 2, vec![20], None), household(3, 3, vec![30], None)],
        dwellings: vec![],
        queue: HousingQueue(vec![1, 2, 3]),
    };
    let mut ids = HouseholdIds { next: 3 };
    let before = member_count(&book);
    let moves = book.household_dynamics(DYNAMICS_FRAME, &vec![], &mut ids);
    assert_eq!(moves, vec![(20, 1)]);
    assert_eq!(book.households.len(), 2);
    assert_eq!(book.households[0].household.members, vec![10, 20]);
    assert_eq!(book.queue.0, vec![1, 3], "merging frees a queue slot");
    assert_eq!(member_count(&book), before);
    assert!(book.households.iter().all(|h| h.household.dwelling.is_none()), "nobody teleports into a flat");
}

#[test]
fn dynamics_wait_for_their_daily_frame() {
    let mut book = HousingBook {
        households: vec![household(1, 1, vec![10], None), household(2, 2, vec![20], None)],
        dwellings: vec![],
        queue: HousingQueue(vec![1, 2]),
    };
    let mut ids = HouseholdIds { next: 0 };
    let moves = book.household_dynamics(DYNAMICS_FRAME + 1, &vec![], &mut ids);
    assert!(moves.is_empty());
    assert_eq!(book.households.len(), 2);
}

#[test]
fn evicted_households_rejoin_the_queue() {
    let mut book = HousingBook {
        households: vec![household(1, 1, vec![10], Some(100)), household(2, 2, vec![20], Some(200))],
        dwellings: vec![dwelling(200, 8, 1)],
        queue: HousingQueue(vec![]),
    };
    let evicted = book.requeue_lost_dwellings();
    assert_eq!(evicted, vec![1]);
    assert_eq!(book.households[0].household.dwelling, None);
    assert_eq!(book.households[1].household.dwelling, Some(200));
    assert_eq!(book.queue.0, vec![1]);
}

#[test]
fn household_ids_are_never_reused() {
    let mut ids = HouseholdIds { next: 0 };
    assert_eq!(ids.allocate(), HouseholdId(1));
    assert_eq!(ids.allocate(), HouseholdId(2));
}

fn citizen(entity: u64, id: u64, household: u64, home: Option<u64>) -> CitizenEntry {
    let mut c = Citizen::new(CitizenId(id), household);
    c.home = home;
    CitizenEntry { entity, citizen: c }
}

#[test]
fn new_citizens_arrive_unhoused_and_unemployed() {
    let c = Citizen::new(CitizenId(5), 9);
    assert_eq!(c.home, None);
    assert_eq!(c.work, None);
    assert_eq!(c.health, 100);
    assert_eq!(c.location, CitizenLocation::AtHome);
}

#[test]
fn labour_binds_housed_unemployed_citizens_within_reach() {
    let mut citizens = vec![
        citizen(1, 1, 50, Some(100)),
        citizen(2, 2, 50, None),
        citizen(3, 3, 51, Some(300)),
        citizen(4, 4, 51, Some(100)),
    ];
    let mut workplaces = vec![WorkplaceEntry {
        entity: 900,
        kind: BuildingKind::Quarry,
        staffing: Staffing { assigned: vec![], present: 0 },
    }];
    let reach = vec![vec![100]];
    plan_labour(&mut citizens, &mut workplaces, &reach);
    assert_eq!(citizens[0].citizen.work, Some(900));
    assert_eq!(citizens[1].citizen.work, None, "unhoused citizens are not hired");
    assert_eq!(citizens[2].citizen.work, None, "out of reach");
    assert_eq!(citizens[3].citizen.work, Some(900));
    assert_eq!(workplaces[0].staffing.assigned, vec![1, 4]);
    assert_eq!(workplaces[0].staffing.vacancies(BuildingKind::Quarry), 2);
}

#[test]
fn hiring_stops_at_the_vacancy_count() {
    let mut citizens: Vec<CitizenEntry> = (1..=8).map(|e| citizen(e, e, 50, Some(100))).collect();
    let mut workplaces = vec![WorkplaceEntry {
        entity: 900,
        kind: BuildingKind::Quarry,
        staffing: Staffing { assigned: vec![], present: 0 },
    }];
    plan_labour(&mut citizens, &mut workplaces, &vec![vec![100]]);
    assert_eq!(workplaces[0].staffing.assigned.len(), 4);
    assert_eq!(BuildingKind::Quarry.workers_needed(), 4);
    assert_eq!(BuildingKind::Dwelling.workers_needed(), 0);
}

#[test]
fn losing_a_workplace_frees_its_workers() {
    let mut citizens = vec![citizen(1, 1, 50, Some(100))];
    citizens[0].citizen.work = Some(900);
    let mut workplaces = vec![WorkplaceEntry {
        entity: 900,
        kind: BuildingKind::Mine,
        staffing: Staffing { assigned: vec![1], present: 1 },
    }];
    sever_lost_workplaces(&mut citizens, &mut workplaces, &vec![100]);
    assert_eq!(citizens[0].citizen.work, None);
}

#[test]
fn spawned_households_arrive_unhoused_and_queued() {
    let mut book = HousingBook { households: vec![], dwellings: vec![], queue: HousingQueue(vec![9]) };
    let mut household_ids = HouseholdIds { next: 4 };
    let mut citizen_ids = CitizenIds { next: 10 };
    let born = book.apply_spawn(SpawnHousehold { members: 2 }, 50, &vec![51, 52], &mut household_ids, &mut citizen_ids);
    assert_eq!(born.len(), 2);
    assert_eq!(born[0].entity, 51);
    assert_eq!(born[0].citizen.id, CitizenId(11));
    assert_eq!(born[1].citizen.id, CitizenId(12));
    assert_eq!(born[1].citizen.household, 50);
    assert_eq!(born[1].citizen.home, None);
    assert_eq!(book.households.len(), 1);
    assert_eq!(book.households[0].household.id, HouseholdId(5));
    assert_eq!(book.households[0].household.members, vec![51, 52]);
    assert_eq!(book.households[0].household.dwelling, None);
    assert_eq!(book.queue.0, vec![9, 50]);
    assert_eq!(citizen_ids.next, 12);
}

#[test]
fn recruitment_target_moves_and_saturates() {
    let mut plan = RecruitmentPlan { target_households: 10 };
    plan.adjust_target(5);
    assert_eq!(plan.target_households, 15);
    plan.adjust_target(-20);
    assert_eq!(plan.target_households, 0);
    plan.adjust_target(i32::MIN);
    assert_eq!(plan.target_households, 0);
    let mut full = RecruitmentPlan { target_households: u32::MAX - 1 };
    full.adjust_target(i32::MAX);
    assert_eq!(full.target_households, u32::MAX);
}
