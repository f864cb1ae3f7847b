//! Labour planning: workplaces declare vacancies; a planning pass binds
//! housed, unemployed citizens to a fixed workplace, subject to commute
//! feasibility. Tenure persists until the workplace is lost.
use vstd::prelude::*;

use crate::buildings::BuildingKind;
use crate::citizens::{Citizen, CitizenEntry, CitizenLocation};

verus! {

/// Vacancies per kind, from the kind's catalogue row.
pub open spec fn spec_workers_needed(kind: BuildingKind) -> u32 {
    match kind {
        BuildingKind::Mine => 6,
        BuildingKind::Quarry => 4,
        BuildingKind::PowerPlant => 8,
        BuildingKind::Factory => 10,
        _ => 0,
    }
}

impl BuildingKind {
    /// Single-tier vacancies.
    pub fn workers_needed(self) -> (r: u32)
        ensures
            r == spec_workers_needed(self),
    {
        match self {
            BuildingKind::Mine => 6,
            BuildingKind::Quarry => 4,
            BuildingKind::PowerPlant => 8,
            BuildingKind::Factory => 10,
            _ => 0,
        }
    }
}

/// Workplace-side labour ledger: the fixed-binding roster, and the workers
/// physically present this tick.
pub struct Staffing {
    pub assigned: Vec<u64>,
    pub present: u32,
}

/// Open vacancies given a roster length.
pub open spec fn spec_vacancies(kind: BuildingKind, assigned: nat) -> u32 {
    let n = assigned as u32;
    if n <= spec_workers_needed(kind) { (spec_workers_needed(kind) - n) as u32 } else { 0 }
}

impl Staffing {
    pub fn vacancies(&self, kind: BuildingKind) -> (r: u32)
        ensures
            r == spec_vacancies(kind, self.assigned@.len()),
    {
        let n = self.assigned.len() as u32;
        kind.workers_needed().saturating_sub(n)
    }
}

/// A workplace entity with its kind and ledger.
pub struct WorkplaceEntry {
    pub entity: u64,
    pub kind: BuildingKind,
    pub staffing: Staffing,
}

/// Mathematical model of a workplace entry.
pub struct WorkplaceView {
    pub entity: u64,
    pub kind: BuildingKind,
    pub assigned: Seq<u64>,
    pub present: u32,
}

pub open spec fn workplace_view(w: WorkplaceEntry) -> WorkplaceView {
    WorkplaceView { entity: w.entity, kind: w.kind, assigned: w.staffing.assigned@, present: w.staffing.present }
}

pub open spec fn workplaces_view(ws: Seq<WorkplaceEntry>) -> Seq<WorkplaceView> {
    ws.map_values(|w: WorkplaceEntry| workplace_view(w))
}

/// The citizen after a lost workplace is severed.
pub open spec fn sever_citizen(live: Seq<u64>, c: CitizenEntry) -> CitizenEntry {
    match c.citizen.work {
        Some(w) => if live.contains(w) { c } else { CitizenEntry { entity: c.entity, citizen: Citizen { work: None, ..c.citizen } } },
        None => c,
    }
}

/// Index of the first citizen entry for `e` (or -1).
pub open spec fn first_citizen(cs: Seq<CitizenEntry>, e: u64) -> int
    decreases cs.len(),
{
    if cs.len() == 0 {
        -1
    } else {
        let i = first_citizen(cs.drop_last(), e);
        if i >= 0 { i } else if cs.last().entity == e { cs.len() - 1 } else { -1 }
    }
}

/// Roster entries still listed as citizens bound to the workplace.
pub open spec fn keep_roster(cs: Seq<CitizenEntry>, roster: Seq<u64>, workplace: u64) -> Seq<u64>
    decreases roster.len(),
{
    if roster.len() == 0 {
        roster
    } else {
        let k = keep_roster(cs, roster.drop_last(), workplace);
        let e = roster.last();
        let i = first_citizen(cs, e);
        if i >= 0 && cs[i].citizen.work == Some(workplace) { k.push(e) } else { k }
    }
}

proof fn lemma_first_citizen(cs: Seq<CitizenEntry>, e: u64)
    ensures
        -1 <= first_citizen(cs, e) < cs.len(),
        first_citizen(cs, e) >= 0 ==> cs[first_citizen(cs, e)].entity == e,
        first_citizen(cs, e) >= 0 ==> forall|j: int| 0 <= j < first_citizen(cs, e) ==> cs[j].entity != e,
        first_citizen(cs, e) < 0 ==> forall|j: int| 0 <= j < cs.len() ==> cs[j].entity != e,
    decreases cs.len(),
{
    if cs.len() > 0 {
        lemma_first_citizen(cs.drop_last(), e);
        assert forall|j: int| 0 <= j < cs.len() - 1 implies cs.drop_last()[j] == cs[j] by {}
    }
}

fn find_citizen(cs: &Vec<CitizenEntry>, e: u64) -> (r: Option<usize>)
    ensures
        r is Some <==> first_citizen(cs@, e) >= 0,
        r is Some ==> r->0 == first_citizen(cs@, e),
{
    proof {
        lemma_first_citizen(cs@, e);
    }
    let mut i: usize = 0;
    while i < cs.len()
        invariant
            i <= cs@.len(),
            forall|j: int| 0 <= j < i ==> cs@[j].entity != e,
        decreases cs.len() - i,
    {
        if cs[i].entity == e {
            proof {
                lemma_first_citizen(cs@, e);
                if first_citizen(cs@, e) < 0 {
                    assert(cs@[i as int].entity != e);
                }
            }
            return Some(i);
        }
        i = i + 1;
    }
    None
}

fn contains_u64(v: &Vec<u64>, e: u64) -> (r: bool)
    ensures
        r == v@.contains(e),
{
    let mut i: usize = 0;
    while i < v.len()
        invariant
            i <= v@.len(),
            forall|j: int| 0 <= j < i ==> v@[j] != e,
        decreases v.len() - i,
    {
        if v[i] == e {
            assert(v@[i as int] == e);
            return true;
        }
        i = i + 1;
    }
    false
}

/// Building loss is the only thing that breaks tenure: clear bindings whose
/// workplace is no longer a live building, then drop roster entries that are
/// not (any longer) citizens bound to that workplace.
pub fn sever_lost_workplaces(citizens: &mut Vec<CitizenEntry>, workplaces: &mut Vec<WorkplaceEntry>, live_buildings: &Vec<u64>)
    ensures
        final(citizens)@ == old(citizens)@.map_values(|c: CitizenEntry| sever_citizen(live_buildings@, c)),
        workplaces_view(final(workplaces)@) == workplaces_view(old(workplaces)@).map_values(
            |w: WorkplaceView|
                WorkplaceView {
                    assigned: keep_roster(final(citizens)@, w.assigned, w.entity),
                    ..w
                },
        ),
{
    let ghost c0 = citizens@;
    let mut i: usize = 0;
    while i < citizens.len()
        invariant
            i <= citizens@.len(),
            citizens@.len() == c0.len(),
            forall|j: int| 0 <= j < i ==> #[trigger] citizens@[j] == sever_citizen(live_buildings@, c0[j]),
            forall|j: int| i <= j < c0.len() ==> #[trigger] citizens@[j] == c0[j],
        decreases citizens.len() - i,
    {
        if let Some(w) = citizens[i].citizen.work {
            if !contains_u64(live_buildings, w) {
                citizens[i].citizen.work = None;
            }
        }
        i = i + 1;
    }
    proof {
        assert(citizens@ =~= c0.map_values(|c: CitizenEntry| sever_citizen(live_buildings@, c)));
    }
    let ghost w0 = workplaces@;
    let mut k: usize = 0;
    while k < workplaces.len()
        invariant
            k <= workplaces@.len(),
            workplaces@.len() == w0.len(),
            forall|j: int|
                0 <= j < k ==> #[trigger] workplace_view(workplaces@[j]) == (WorkplaceView {
                    assigned: keep_roster(citizens@, workplace_view(w0[j]).assigned, w0[j].entity),
                    ..workplace_view(w0[j])
                }),
            forall|j: int| k <= j < w0.len() ==> #[trigger] workplaces@[j] == w0[j],
        decreases workplaces.len() - k,
    {
        let wp = workplaces[k].entity;
        let mut kept: Vec<u64> = Vec::new();
        let mut r: usize = 0;
        while r < workplaces[k].staffing.assigned.len()
            invariant
                k < workplaces@.len(),
                r <= workplaces@[k as int].staffing.assigned@.len(),
                wp == workplaces@[k as int].entity,
                kept@ == keep_roster(citizens@, workplaces@[k as int].staffing.assigned@.take(r as int), wp),
            decreases workplaces@[k as int].staffing.assigned@.len() - r,
        {
            let worker = workplaces[k].staffing.assigned[r];
            proof {
                let ro = workplaces@[k as int].staffing.assigned@;
                assert(ro.take(r as int + 1).drop_last() =~= ro.take(r as int));
                lemma_first_citizen(citizens@, worker);
            }
            match find_citizen(citizens, worker) {
                Some(ci) => {
                    if citizens[ci].citizen.work == Some(wp) {
                        kept.push(worker);
                    }
                },
                None => {},
            }
            r = r + 1;
        }
        proof {
            let ro = workplaces@[k as int].staffing.assigned@;
            assert(ro.take(ro.len() as int) =~= ro);
        }
        let ghost before = workplaces@;
        workplaces[k].staffing.assigned = kept;
        proof {
            assert(forall|j: int| 0 <= j < before.len() && j != k ==> workplaces@[j] == before[j]);
        }
        k = k + 1;
    }
    proof {
        assert(workplaces_view(workplaces@) =~= workplaces_view(w0).map_values(
            |w: WorkplaceView| WorkplaceView { assigned: keep_roster(citizens@, w.assigned, w.entity), ..w },
        ));
    }
}


/// The pool of housed, unemployed citizens: (citizen index, home), in
/// citizen order, over the first `n` citizens.
pub open spec fn labour_pool(cs: Seq<CitizenEntry>, n: int) -> Seq<(int, u64)>
    decreases n,
{
    if n <= 0 {
        Seq::empty()
    } else {
        let p = labour_pool(cs, n - 1);
        let c = cs[n - 1].citizen;
        if c.work is None && c.home is Some { p.push((n - 1, c.home->0)) } else { p }
    }
}

/// One workplace's hiring scan over the pool, front to back: while vacancies
/// remain, every pool member whose home lies in `reach` is hired. Yields the
/// hired and the still-unemployed pool, in order.
pub open spec fn hire_scan(pool: Seq<(int, u64)>, reach: Seq<u64>, open: nat) -> (Seq<(int, u64)>, Seq<(int, u64)>)
    decreases pool.len(),
{
    if pool.len() == 0 {
        (Seq::empty(), Seq::empty())
    } else if open == 0 {
        (Seq::empty(), pool)
    } else if reach.contains(pool[0].1) {
        let r = hire_scan(pool.drop_first(), reach, (open - 1) as nat);
        (seq![pool[0]] + r.0, r.1)
    } else {
        let r = hire_scan(pool.drop_first(), reach, open);
        (r.0, seq![pool[0]] + r.1)
    }
}

/// The state of the planning pass between workplaces.
pub struct PlanState {
    pub citizens: Seq<CitizenEntry>,
    pub workplaces: Seq<WorkplaceView>,
    pub pool: Seq<(int, u64)>,
}

/// Workplace `w` hires from the pool.
pub open spec fn hire_at(s: PlanState, w: int, reach: Seq<u64>) -> PlanState {
    let wp = s.workplaces[w];
    let open = spec_vacancies(wp.kind, wp.assigned.len());
    let r = hire_scan(s.pool, reach, open as nat);
    PlanState {
        citizens: Seq::new(
            s.citizens.len(),
            |i: int|
                if exists|k: int| 0 <= k < r.0.len() && r.0[k].0 == i {
                    CitizenEntry { entity: s.citizens[i].entity, citizen: Citizen { work: Some(wp.entity), ..s.citizens[i].citizen } }
                } else {
                    s.citizens[i]
                },
        ),
        workplaces: s.workplaces.update(
            w,
            WorkplaceView {
                assigned: wp.assigned + r.0.map_values(|h: (int, u64)| s.citizens[h.0].entity),
                ..wp
            },
        ),
        pool: r.1,
    }
}

/// The planning pass after the first `k` workplaces.
pub open spec fn plan_state(s0: PlanState, reach: Seq<Seq<u64>>, k: int) -> PlanState
    decreases k,
{
    if k <= 0 {
        s0
    } else {
        hire_at(plan_state(s0, reach, k - 1), k - 1, reach[k - 1])
    }
}

/// The planning pass from the books.
pub open spec fn labour_pass(cs: Seq<CitizenEntry>, ws: Seq<WorkplaceView>, reach: Seq<Seq<u64>>) -> PlanState {
    plan_state(
        PlanState { citizens: cs, workplaces: ws, pool: labour_pool(cs, cs.len() as int) },
        reach,
        ws.len() as int,
    )
}

/// The citizens with those at hired pool positions bound to `wp`.
pub open spec fn bind_hired(cs: Seq<CitizenEntry>, hired: Seq<(int, u64)>, wp: u64) -> Seq<CitizenEntry> {
    Seq::new(
        cs.len(),
        |i: int|
            if exists|k: int| 0 <= k < hired.len() && hired[k].0 == i {
                CitizenEntry { entity: cs[i].entity, citizen: Citizen { work: Some(wp), ..cs[i].citizen } }
            } else {
                cs[i]
            },
    )
}

proof fn lemma_hire_scan_step(pool: Seq<(int, u64)>, reach: Seq<u64>, open: nat, j: int)
    requires
        0 <= j < pool.len(),
        open > 0,
    ensures
        hire_scan(pool.skip(j), reach, open) == if reach.contains(pool[j].1) {
            let r = hire_scan(pool.skip(j + 1), reach, (open - 1) as nat);
            (seq![pool[j]] + r.0, r.1)
        } else {
            let r = hire_scan(pool.skip(j + 1), reach, open);
            (r.0, seq![pool[j]] + r.1)
        },
{
    assert(pool.skip(j).drop_first() =~= pool.skip(j + 1));
    assert(pool.skip(j)[0] == pool[j]);
}

proof fn lemma_hire_scan_closed(pool: Seq<(int, u64)>, reach: Seq<u64>)
    ensures
        hire_scan(pool, reach, 0) == (Seq::<(int, u64)>::empty(), pool),
{
}

/// The planning pass: for every workplace with vacancies, in order, bind
/// unemployed housed citizens (in citizen order) whose home dwelling lies
/// within the workplace's commute reach (`reach[w]`: the dwellings whose dock
/// is within the commute budget of workplace `w`'s dock; empty when the
/// workplace docks no road).
pub fn plan_labour(citizens: &mut Vec<CitizenEntry>, workplaces: &mut Vec<WorkplaceEntry>, reach: &Vec<Vec<u64>>)
    requires
        reach@.len() == old(workplaces)@.len(),
    ensures
        final(citizens)@ == labour_pass(old(citizens)@, workplaces_view(old(workplaces)@), reach.deep_view()).citizens,
        workplaces_view(final(workplaces)@) == labour_pass(
            old(citizens)@,
            workplaces_view(old(workplaces)@),
            reach.deep_view(),
        ).workplaces,
{
    let ghost c0 = citizens@;
    let ghost w0 = workplaces_view(workplaces@);
    let ghost rv = reach.deep_view();
    // The pool of housed unemployed citizens.
    let mut pool: Vec<(usize, u64)> = Vec::new();
    let mut i: usize = 0;
    while i < citizens.len()
        invariant
            i <= citizens@.len(),
            citizens@ == c0,
            pool@.map_values(|p: (usize, u64)| (p.0 as int, p.1)) == labour_pool(c0, i as int),
            forall|k: int| 0 <= k < pool@.len() ==> (#[trigger] pool@[k]).0 < i,
        decreases citizens.len() - i,
    {
        let c = citizens[i].citizen;
        let ghost before = pool@;
        if c.work.is_none() {
            if let Some(h) = c.home {
                pool.push((i, h));
                proof {
                    assert(pool@.map_values(|p: (usize, u64)| (p.0 as int, p.1)) =~= before.map_values(
                        |p: (usize, u64)| (p.0 as int, p.1),
                    ).push((i as int, h)));
                }
            }
        }
        i = i + 1;
    }
    let ghost s0 = PlanState { citizens: c0, workplaces: w0, pool: labour_pool(c0, c0.len() as int) };
    let mut w: usize = 0;
    while w < workplaces.len()
        invariant
            w <= workplaces@.len(),
            workplaces@.len() == w0.len(),
            reach@.len() == w0.len(),
            rv == reach.deep_view(),
            citizens@.len() == c0.len(),
            plan_state(s0, rv, w as int).citizens == citizens@,
            plan_state(s0, rv, w as int).workplaces == workplaces_view(workplaces@),
            plan_state(s0, rv, w as int).pool == pool@.map_values(|p: (usize, u64)| (p.0 as int, p.1)),
            forall|k: int| 0 <= k < pool@.len() ==> (#[trigger] pool@[k]).0 < citizens@.len(),
        decreases workplaces.len() - w,
    {
        let ghost st = plan_state(s0, rv, w as int);
        let ghost p0 = pool@.map_values(|p: (usize, u64)| (p.0 as int, p.1));
        let wp = workplaces[w].entity;
        let mut open = workplaces[w].staffing.vacancies(workplaces[w].kind);
        let ghost open0 = open;
        let ghost cs0 = citizens@;
        let ghost ro0 = workplaces@[w as int].staffing.assigned@;
        let reach_w = &reach[w];
        assert(reach_w@ == rv[w as int]);
        let mut kept: Vec<(usize, u64)> = Vec::new();
        let ghost mut hired: Seq<(int, u64)> = Seq::empty();
        proof {
            assert(st.workplaces.len() == workplaces@.len());
            assert(workplace_view(workplaces@[w as int]) == st.workplaces[w as int]);
            assert(p0.skip(0) =~= p0);
            let r = hire_scan(p0, reach_w@, open0 as nat);
            assert(hired + r.0 =~= r.0);
            assert(kept@.map_values(|p: (usize, u64)| (p.0 as int, p.1)) + r.1 =~= r.1);
            assert(citizens@ =~= bind_hired(cs0, hired, wp));
            assert(ro0 + hired.map_values(|h: (int, u64)| cs0[h.0].entity) =~= ro0);
        }
        let mut j: usize = 0;
        while j < pool.len()
            invariant
                j <= pool@.len(),
                w < workplaces@.len(),
                workplaces@.len() == w0.len(),
                citizens@.len() == cs0.len(),
                p0 == pool@.map_values(|p: (usize, u64)| (p.0 as int, p.1)),
                forall|k: int| 0 <= k < pool@.len() ==> (#[trigger] pool@[k]).0 < citizens@.len(),
                hire_scan(p0, reach_w@, open0 as nat) == (
                    hired + hire_scan(p0.skip(j as int), reach_w@, open as nat).0,
                    kept@.map_values(|p: (usize, u64)| (p.0 as int, p.1)) + hire_scan(p0.skip(j as int), reach_w@, open as nat).1,
                ),
                citizens@ == bind_hired(cs0, hired, wp),
                forall|k: int| 0 <= k < kept@.len() ==> (#[trigger] kept@[k]).0 < citizens@.len(),
                workplaces@[w as int].staffing.assigned@ == ro0 + hired.map_values(|h: (int, u64)| cs0[h.0].entity),
                workplaces@[w as int].entity == wp,
                workplaces@[w as int].kind == st.workplaces[w as int].kind,
                workplaces@[w as int].staffing.present == st.workplaces[w as int].present,
                st.workplaces.len() == workplaces@.len(),
                forall|x: int| 0 <= x < workplaces@.len() && x != w ==> workplace_view(#[trigger] workplaces@[x]) == st.workplaces[x],
                cs0 == st.citizens,
                p0 == st.pool,
                open0 == spec_vacancies(st.workplaces[w as int].kind, st.workplaces[w as int].assigned.len()),
                wp == st.workplaces[w as int].entity,
                ro0 == st.workplaces[w as int].assigned,
                forall|x: int| 0 <= x < hired.len() ==> 0 <= (#[trigger] hired[x]).0 < cs0.len(),
            decreases pool.len() - j,
        {
            let (ci, home) = pool[j];
            let ghost hb = hired;
            if open == 0 {
                kept.push((ci, home));
                proof {
                    lemma_hire_scan_closed(p0.skip(j as int), reach_w@);
                    lemma_hire_scan_closed(p0.skip(j as int + 1), reach_w@);
                    assert(p0.skip(j as int) =~= seq![p0[j as int]] + p0.skip(j as int + 1));
                }
            } else {
                proof {
                    lemma_hire_scan_step(p0, reach_w@, open as nat, j as int);
                }
                if contains_u64(reach_w, home) {
                    let e = citizens[ci].entity;
                    citizens[ci].citizen.work = Some(wp);
                    workplaces[w].staffing.assigned.push(e);
                    open = open - 1;
                    proof {
                        hired = hired.push((ci as int, home));
                        assert forall|x: int| 0 <= x < citizens@.len() implies citizens@[x] == bind_hired(cs0, hired, wp)[x] by {
                            if x == ci as int {
                                assert(hired[hb.len() as int].0 == x);
                            } else {
                                if exists|k: int| 0 <= k < hired.len() && hired[k].0 == x {
                                    let k = choose|k: int| 0 <= k < hired.len() && hired[k].0 == x;
                                    assert(k < hb.len());
                                    assert(hb[k] == hired[k]);
                                }
                                if exists|k: int| 0 <= k < hb.len() && hb[k].0 == x {
                                    let k = choose|k: int| 0 <= k < hb.len() && hb[k].0 == x;
                                    assert(hired[k] == hb[k]);
                                }
                            }
                        }
                        assert(citizens@ =~= bind_hired(cs0, hired, wp));
                        assert(hired.map_values(|h: (int, u64)| cs0[h.0].entity) =~= hb.map_values(|h: (int, u64)| cs0[h.0].entity).push(e));
                    }
                } else {
                    kept.push((ci, home));
                }
            }
            j = j + 1;
        }
        proof {
            assert(p0.skip(pool@.len() as int) =~= Seq::<(int, u64)>::empty());
        }
        pool = kept;
        w = w + 1;
        proof {
            assert(citizens@ =~= plan_state(s0, rv, w as int).citizens);
            assert(workplaces_view(workplaces@) =~= plan_state(s0, rv, w as int).workplaces);
        }
    }
}

proof fn lemma_hire_scan_counts(pool: Seq<(int, u64)>, reach: Seq<u64>, open: nat)
    ensures
        hire_scan(pool, reach, open).0.len() <= open,
        hire_scan(pool, reach, open).0.len() + hire_scan(pool, reach, open).1.len() == pool.len(),
        forall|k: int| 0 <= k < hire_scan(pool, reach, open).0.len() ==> pool.contains(#[trigger] hire_scan(pool, reach, open).0[k]),
        forall|k: int| 0 <= k < hire_scan(pool, reach, open).1.len() ==> pool.contains(#[trigger] hire_scan(pool, reach, open).1[k]),
    decreases pool.len(),
{
    if pool.len() > 0 && open > 0 {
        let o2: nat = if reach.contains(pool[0].1) { (open - 1) as nat } else { open };
        lemma_hire_scan_counts(pool.drop_first(), reach, o2);
        let r = hire_scan(pool.drop_first(), reach, o2);
        assert forall|k: int| 0 <= k < r.0.len() implies pool.contains(r.0[k]) by {
            let j = choose|j: int| 0 <= j < pool.drop_first().len() && pool.drop_first()[j] == r.0[k];
            assert(pool[j + 1] == r.0[k]);
        }
        assert forall|k: int| 0 <= k < r.1.len() implies pool.contains(r.1[k]) by {
            let j = choose|j: int| 0 <= j < pool.drop_first().len() && pool.drop_first()[j] == r.1[k];
            assert(pool[j + 1] == r.1[k]);
        }
        assert(pool.contains(pool[0]));
        let h = hire_scan(pool, reach, open);
        assert forall|k: int| 0 <= k < h.0.len() implies pool.contains(#[trigger] h.0[k]) by {
            if reach.contains(pool[0].1) {
                if k > 0 {
                    assert(h.0[k] == r.0[k - 1]);
                }
            } else {
                assert(h.0[k] == r.0[k]);
            }
        }
        assert forall|k: int| 0 <= k < h.1.len() implies pool.contains(#[trigger] h.1[k]) by {
            if reach.contains(pool[0].1) {
                assert(h.1[k] == r.1[k]);
            } else {
                if k > 0 {
                    assert(h.1[k] == r.1[k - 1]);
                }
            }
        }
    }
}

/// The vacancy law: one planning step never fills a workplace beyond what
/// its kind needs — a roster within its vacancies stays within them.
pub proof fn law_hiring_within_vacancies(s: PlanState, w: int, reach: Seq<u64>)
    requires
        0 <= w < s.workplaces.len(),
        s.workplaces[w].assigned.len() <= spec_workers_needed(s.workplaces[w].kind),
    ensures
        hire_at(s, w, reach).workplaces[w].assigned.len() <= spec_workers_needed(s.workplaces[w].kind),
        hire_at(s, w, reach).workplaces[w].assigned.len() >= s.workplaces[w].assigned.len(),
{
    let wp = s.workplaces[w];
    let open = spec_vacancies(wp.kind, wp.assigned.len());
    lemma_hire_scan_counts(s.pool, reach, open as nat);
    assert(wp.assigned.len() as u32 == wp.assigned.len());
}

/// Pool members whose home lies in `reach`.
pub open spec fn in_reach_count(pool: Seq<(int, u64)>, reach: Seq<u64>) -> nat
    decreases pool.len(),
{
    if pool.len() == 0 {
        0
    } else {
        in_reach_count(pool.drop_first(), reach) + if reach.contains(pool[0].1) { 1nat } else { 0nat }
    }
}

proof fn lemma_hire_scan_exact(pool: Seq<(int, u64)>, reach: Seq<u64>, open: nat)
    ensures
        hire_scan(pool, reach, open).0.len() == if open <= in_reach_count(pool, reach) { open } else { in_reach_count(pool, reach) },
    decreases pool.len(),
{
    if pool.len() > 0 && open > 0 {
        if reach.contains(pool[0].1) {
            lemma_hire_scan_exact(pool.drop_first(), reach, (open - 1) as nat);
        } else {
            lemma_hire_scan_exact(pool.drop_first(), reach, open);
        }
    }
}

/// The catalogue's vacancies: a mine employs six, a quarry four, a power
/// plant eight, a factory ten; no other kind employs anyone. A workplace
/// hires exactly as many of the pool as it has vacancies, or every pool
/// member within its reach when there are fewer of them — so an empty
/// roster with enough eligible citizens in reach is filled to its kind's
/// need, and never beyond.
pub proof fn law_workplace_fills_to_its_need(s: PlanState, w: int, reach: Seq<u64>, kind: BuildingKind)
    requires
        0 <= w < s.workplaces.len(),
        s.workplaces[w].assigned.len() <= spec_workers_needed(s.workplaces[w].kind),
    ensures
        spec_workers_needed(BuildingKind::Mine) == 6,
        spec_workers_needed(BuildingKind::Quarry) == 4,
        spec_workers_needed(BuildingKind::PowerPlant) == 8,
        spec_workers_needed(BuildingKind::Factory) == 10,
        (kind != BuildingKind::Mine && kind != BuildingKind::Quarry && kind != BuildingKind::PowerPlant && kind
            != BuildingKind::Factory) ==> spec_workers_needed(kind) == 0,
        ({
            let need = spec_workers_needed(s.workplaces[w].kind) - s.workplaces[w].assigned.len();
            let eligible = in_reach_count(s.pool, reach);
            hire_at(s, w, reach).workplaces[w].assigned.len() == s.workplaces[w].assigned.len() + if need <= eligible {
                need
            } else {
                eligible as int
            }
        }),
        s.workplaces[w].assigned.len() == 0 && in_reach_count(s.pool, reach) >= spec_workers_needed(s.workplaces[w].kind)
            ==> hire_at(s, w, reach).workplaces[w].assigned.len() == spec_workers_needed(s.workplaces[w].kind),
{
    let wp = s.workplaces[w];
    let open = spec_vacancies(wp.kind, wp.assigned.len());
    assert(wp.assigned.len() as u32 == wp.assigned.len());
    lemma_hire_scan_exact(s.pool, reach, open as nat);
}

/// Pool members are citizens that were unemployed before the pass.
pub open spec fn pool_unemployed(pool: Seq<(int, u64)>, cs: Seq<CitizenEntry>) -> bool {
    forall|k: int| 0 <= k < pool.len() ==> 0 <= (#[trigger] pool[k]).0 < cs.len() && cs[pool[k].0].citizen.work is None
}

proof fn lemma_labour_pool(cs: Seq<CitizenEntry>, n: int)
    requires
        0 <= n <= cs.len(),
    ensures
        pool_unemployed(labour_pool(cs, n), cs),
    decreases n,
{
    if n > 0 {
        lemma_labour_pool(cs, n - 1);
    }
}

proof fn lemma_tenure_steps(s0: PlanState, reach: Seq<Seq<u64>>, k: int)
    requires
        0 <= k <= s0.workplaces.len(),
        pool_unemployed(s0.pool, s0.citizens),
    ensures
        plan_state(s0, reach, k).citizens.len() == s0.citizens.len(),
        plan_state(s0, reach, k).workplaces.len() == s0.workplaces.len(),
        pool_unemployed(plan_state(s0, reach, k).pool, s0.citizens),
        forall|i: int|
            0 <= i < s0.citizens.len() && s0.citizens[i].citizen.work is Some ==> #[trigger] plan_state(s0, reach, k).citizens[i]
                == s0.citizens[i],
    decreases k,
{
    if k > 0 {
        lemma_tenure_steps(s0, reach, k - 1);
        let st = plan_state(s0, reach, k - 1);
        let wp = st.workplaces[k - 1];
        let open = spec_vacancies(wp.kind, wp.assigned.len());
        lemma_hire_scan_counts(st.pool, reach[k - 1], open as nat);
        let r = hire_scan(st.pool, reach[k - 1], open as nat);
        let nx = plan_state(s0, reach, k);
        assert forall|i: int| 0 <= i < s0.citizens.len() && s0.citizens[i].citizen.work is Some implies #[trigger] nx.citizens[i] == s0.citizens[i] by {
            if exists|q: int| 0 <= q < r.0.len() && r.0[q].0 == i {
                let q = choose|q: int| 0 <= q < r.0.len() && r.0[q].0 == i;
                assert(st.pool.contains(r.0[q]));
                let j = choose|j: int| 0 <= j < st.pool.len() && st.pool[j] == r.0[q];
                assert(st.pool[j].0 == i);
            }
        }
        assert forall|q: int| 0 <= q < nx.pool.len() implies 0 <= (#[trigger] nx.pool[q]).0 < s0.citizens.len() && s0.citizens[nx.pool[q].0].citizen.work is None by {
            assert(st.pool.contains(r.1[q]));
            let j = choose|j: int| 0 <= j < st.pool.len() && st.pool[j] == r.1[q];
        }
    }
}

/// The tenure law: the planning pass never touches a citizen who already
/// holds a workplace — only the housed unemployed are bound.
pub proof fn law_tenure_is_kept(cs: Seq<CitizenEntry>, ws: Seq<WorkplaceView>, reach: Seq<Seq<u64>>, i: int)
    requires
        0 <= i < cs.len(),
        cs[i].citizen.work is Some,
    ensures
        labour_pass(cs, ws, reach).citizens[i] == cs[i],
{
    lemma_labour_pool(cs, cs.len() as int);
    let s0 = PlanState { citizens: cs, workplaces: ws, pool: labour_pool(cs, cs.len() as int) };
    lemma_tenure_steps(s0, reach, ws.len() as int);
}

} // verus!
