use simulation::clock::{ClockState, FrameIndex, SimSpeed, TickIndex, MAX_PASSES_PER_UPDATE};
use simulation::customs::border_released;
use simulation::needs::{attendance_draw, attendance_roll_due, day_index, home_strain, needs_due, HomeStrain};
use simulation::households::Dwelling;
use simulation::plan::{count_housed, housed_target, quotas_due, PlanCalendar, PLAN_PERIOD_DAYS, PLAN_PERIOD_FRAMES};
use simulation::stages::{ApplierOrder, SimStage};
use simulation::traffic::{density_due, density_target, measure_density, remeasure, segment_loads, SegmentTraffic, DENSITY_STEP};

fn clock(frame: u32, tick: u32) -> ClockState {
    ClockState { frame: FrameIndex(frame), tick: TickIndex(tick) }
}

#[test]
fn speed_runs_the_tick_schedule_substep_times() {
    let mut c = clock(0, 0);
    let runs = c.pass(SimSpeed::Quad);
    assert_eq!(runs, vec![1, 2, 3, 4]);
    assert_eq!(c.frame.0, 4);
    assert_eq!(c.tick.0, 1);
    let runs = c.pass(SimSpeed::Paused);
    assert!(runs.is_empty());
    assert_eq!(c.frame.0, 4);
    assert_eq!(c.tick.0, 2, "the tick advances while paused");
}

#[test]
fn frame_clock_wraps() {
    let mut c = clock(u32::MAX, 7);
    let runs = c.pass(SimSpeed::Double);
    assert_eq!(runs, vec![0, 1]);
    assert_eq!(c.frame.0, 1);
}

#[test]
fn slow_frames_drop_the_backlog_past_the_cap() {
    let mut c = clock(10, 0);
    let u = c.update(SimSpeed::Normal, 7);
    assert_eq!(u.passes, MAX_PASSES_PER_UPDATE);
    assert!(u.drop_backlog);
    assert_eq!(u.runs, vec![11, 12, 13]);
    let u = c.update(SimSpeed::Double, 2);
    assert_eq!(u.passes, 2);
    assert!(!u.drop_backlog);
    assert_eq!(u.runs, vec![14, 15, 16, 17]);
    assert_eq!(u.clock.tick.0, 5);
}

#[test]
fn plan_period_rolls_over_after_sixty_days() {
    let mut cal = PlanCalendar::new();
    assert_eq!(cal.period, 1);
    assert_eq!(cal.deadline(), PLAN_PERIOD_FRAMES);
    assert_eq!(cal.days_left(0), PLAN_PERIOD_DAYS);
    assert_eq!(cal.days_left(600), 59);
    assert!(!cal.rollover_due(PLAN_PERIOD_FRAMES - 1));
    assert!(cal.rollover_due(PLAN_PERIOD_FRAMES));
    cal.roll_over(PLAN_PERIOD_FRAMES);
    assert_eq!(cal.period, 2);
    assert_eq!(cal.period_started, PLAN_PERIOD_FRAMES);
    assert!(!cal.rollover_due(PLAN_PERIOD_FRAMES));
    assert_eq!(cal.days_left(PLAN_PERIOD_FRAMES), PLAN_PERIOD_DAYS);
}

#[test]
fn plan_deadline_wraps_with_the_frame_clock() {
    let cal = PlanCalendar { period: 3, period_started: u32::MAX - 100 };
    assert_eq!(cal.deadline(), PLAN_PERIOD_FRAMES - 101);
    assert!(!cal.rollover_due(50));
    assert!(cal.rollover_due(PLAN_PERIOD_FRAMES - 101));
    assert_eq!(cal.days_left(u32::MAX - 100), PLAN_PERIOD_DAYS);
}

#[test]
fn housing_quota_grows_by_eight_per_period() {
    assert_eq!(housed_target(1), 8);
    assert_eq!(housed_target(3), 24);
    assert!(quotas_due(1200));
    assert!(!quotas_due(1201));
    assert_eq!(count_housed(&vec![Some(4), None, Some(9), None]), 2);
    assert_eq!(count_housed(&vec![]), 0);
}

#[test]
fn density_target_is_load_over_capacity_capped_at_full() {
    // 100 m x 2 lanes / 8 m = 25 slots
    assert_eq!(density_target(20, 25), 80);
    assert_eq!(density_target(30, 25), 100);
    assert_eq!(density_target(0, 25), 0);
    // a segment shorter than one footprint still has one slot
    assert_eq!(density_target(1, 0), 100);
    assert!(density_due(45));
    assert!(!density_due(46));
}

#[test]
fn density_climbs_by_steps_and_never_overshoots() {
    let (first, changed) = remeasure(None, 20, 25);
    assert!(changed);
    let first = first.unwrap();
    assert_eq!(first.density, DENSITY_STEP);
    assert!(!first.blocked);
    let mut t = first;
    for _ in 0..40 {
        let (next, _) = remeasure(Some(t), 20, 25);
        t = next.unwrap();
        assert!(t.density <= 80);
    }
    assert_eq!(t.density, 80);
    let (still, changed) = remeasure(Some(t), 20, 25);
    assert_eq!(still, Some(t));
    assert!(!changed);
}

#[test]
fn density_decays_by_one_step_after_the_load_leaves() {
    let start = SegmentTraffic { density: 42, blocked: false };
    let (next, changed) = remeasure(Some(start), 0, 25);
    assert!(changed);
    assert_eq!(next.unwrap().density, 42 - DENSITY_STEP);
    let (next, _) = remeasure(Some(SegmentTraffic { density: 3, blocked: false }), 0, 25);
    assert_eq!(next.unwrap().density, 0);
}

#[test]
fn overloaded_segment_is_flagged_blocked() {
    // 40 m x 2 lanes / 8 m = 10 slots; 12 vehicles exceed it
    let (t, _) = remeasure(None, 12, 10);
    assert!(t.unwrap().blocked);
    let (t, _) = remeasure(None, 10, 10);
    assert!(!t.unwrap().blocked);
    let (untouched, changed) = remeasure(None, 0, 10);
    assert_eq!(untouched, None);
    assert!(!changed);
}

#[test]
fn density_pass_counts_vehicles_per_segment() {
    let loads = segment_loads(&vec![10, 20, 30], &vec![20, 10, 20, 20]);
    assert_eq!(loads, vec![1, 3, 0]);
    let (states, changed) = measure_density(&vec![None, None, None], &loads, &vec![25, 25, 25]);
    assert!(changed);
    assert_eq!(states[0].unwrap().density, 4);
    assert_eq!(states[1].unwrap().density, 5);
    assert_eq!(states[2], None);
    let (_, changed) = measure_density(&vec![None], &vec![0], &vec![5]);
    assert!(!changed);
}

#[test]
fn border_gate_lifts_on_the_arrival_frame() {
    assert!(!border_released(99, 100));
    assert!(border_released(100, 100));
    assert!(border_released(5000, 100));
    // wrap: arrival just past the top of the clock
    assert!(!border_released(u32::MAX, 3));
    assert!(border_released(3, u32::MAX - 2));
}

#[test]
fn needs_cadence_and_days() {
    assert!(needs_due(75));
    assert!(!needs_due(76));
    assert!(attendance_roll_due(150));
    assert!(attendance_roll_due(750));
    assert!(!attendance_roll_due(151));
    assert_eq!(day_index(1799), 2);
}

#[test]
fn attendance_draw_is_a_deterministic_53_bit_hash() {
    let a = attendance_draw(42, 3);
    assert_eq!(a, attendance_draw(42, 3));
    assert!(a < (1u64 << 53));
    assert_ne!(attendance_draw(42, 3), attendance_draw(42, 4));
    assert_ne!(attendance_draw(42, 3), attendance_draw(43, 3));
    // reference splitmix64 finalizer
    let mut x: u64 = 7u64 ^ (9u64).wrapping_mul(0x9E37_79B9_7F4A_7C15);
    x = (x ^ (x >> 30)).wrapping_mul(0xBF58_476D_1CE4_E5B9);
    x = (x ^ (x >> 27)).wrapping_mul(0x94D0_49BB_1331_11EB);
    x ^= x >> 31;
    assert_eq!(attendance_draw(7, 9), x >> 11);
}

#[test]
fn strained_homes_cap_rest() {
    let crowded = Dwelling { flats: 8, occupied: 9 };
    assert_eq!(
        home_strain(Some(crowded), Some(false), None),
        HomeStrain { overcrowded: true, dark: true, cold: false }
    );
    assert_eq!(
        home_strain(Some(Dwelling { flats: 8, occupied: 8 }), Some(true), Some(false)),
        HomeStrain { overcrowded: false, dark: false, cold: true }
    );
    assert_eq!(
        home_strain(None, Some(false), Some(false)),
        HomeStrain { overcrowded: false, dark: false, cold: false }
    );
}

#[test]
fn tick_stages_run_in_their_fixed_order() {
    let order = SimStage::in_order();
    assert_eq!(order[0], SimStage::ApplyCommands);
    assert_eq!(order[9], SimStage::BuildDerivedIndicesAndPresentation);
    for i in 0..9 {
        assert!(order[i].runs_before(order[i + 1]));
        assert!(!order[i + 1].runs_before(order[i]));
    }
    assert!(SimStage::Routing.runs_before(SimStage::MovementAndTransfers));
    let appliers = ApplierOrder::in_order();
    assert_eq!(appliers[0], ApplierOrder::Zones);
    assert_eq!(appliers[2], ApplierOrder::Buildings);
    assert_eq!(appliers[7], ApplierOrder::Transit);
}
