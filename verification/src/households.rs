//! Households: the unit at which housing is allocated. A household owns its
//! member citizens; a dwelling carries a flat table. Entities are referred to
//! by their stable `u64` bits.
use vstd::prelude::*;

use crate::clock::FRAMES_PER_GAME_DAY;
use crate::citizens::{Citizen, CitizenEntry, CitizenId, CitizenIds};

verus! {

/// Hard cap on members per household.
pub const MAX_HOUSEHOLD_SIZE: usize = 5;

/// Flats per dwelling prefab.
pub const DWELLING_FLATS: u32 = 8;

/// Daily frame of the household-dynamics pass.
pub const DYNAMICS_FRAME: u32 = 100;

/// A housed household at this size sheds an adult into a new household.
pub const FISSION_MIN: usize = 5;

/// Queue length beyond which the office starts doubling households up.
pub const DOUBLE_UP_QUEUE: usize = 4;

#[derive(Clone, Copy, PartialEq, Eq, Hash, Debug, Structural)]
pub struct HouseholdId(pub u64);

/// The demographic and housing actor. `dwelling == None` means the household
/// sits in the housing queue — never deleted for lack of a flat.
#[derive(Debug)]
pub struct Household {
    pub id: HouseholdId,
    pub members: Vec<u64>,
    pub dwelling: Option<u64>,
}

/// Mathematical model of a household.
pub struct HouseholdView {
    pub id: u64,
    pub members: Seq<u64>,
    pub dwelling: Option<u64>,
}

impl View for Household {
    type V = HouseholdView;

    open spec fn view(&self) -> HouseholdView {
        HouseholdView { id: self.id.0, members: self.members@, dwelling: self.dwelling }
    }
}

/// Flat table on a dwelling building: capacity is authored in flats, not
/// people, so overcrowding stays representable.
#[derive(Clone, Copy, PartialEq, Eq, Debug, Structural)]
pub struct Dwelling {
    pub flats: u32,
    pub occupied: u32,
}

impl Dwelling {
    pub fn free_flats(self) -> (r: u32)
        ensures
            r == if self.occupied <= self.flats { self.flats - self.occupied } else { 0 },
    {
        self.flats.saturating_sub(self.occupied)
    }
}

/// Hard occupancy ceiling: at most two households per flat.
pub fn max_households(d: Dwelling) -> (r: u32)
    requires
        d.flats <= u32::MAX / 2,
    ensures
        r == 2 * d.flats,
{
    d.flats * 2
}

/// Whether a dwelling holds more households than flats.
pub fn overcrowded(d: Dwelling) -> (r: bool)
    ensures
        r == (d.occupied > d.flats),
{
    d.occupied > d.flats
}

/// A plan-recruited spawn request.
#[derive(Clone, Copy, PartialEq, Eq, Debug, Structural)]
pub struct SpawnHousehold {
    /// Member count, clamped to 1..=MAX_HOUSEHOLD_SIZE on apply.
    pub members: u8,
}

pub struct HouseholdSpawnQueue(pub Vec<SpawnHousehold>);

/// Member count a spawn request yields.
pub fn household_size(spawn: SpawnHousehold) -> (r: usize)
    ensures
        r == if spawn.members < 1 { 1 } else if spawn.members > 5 { 5 } else { spawn.members as int },
{
    let m = spawn.members as usize;
    if m < 1 { 1 } else if m > MAX_HOUSEHOLD_SIZE { MAX_HOUSEHOLD_SIZE } else { m }
}

pub struct HouseholdIds {
    pub next: u64,
}

impl HouseholdIds {
    /// Ids are never reused: each call hands out the next one.
    pub fn allocate(&mut self) -> (r: HouseholdId)
        requires
            old(self).next < u64::MAX,
        ensures
            final(self).next == old(self).next + 1,
            r.0 == final(self).next,
    {
        self.next = self.next + 1;
        HouseholdId(self.next)
    }
}

/// The player-visible housing queue: FIFO of household entities waiting for
/// a flat.
pub struct HousingQueue(pub Vec<u64>);

/// The plan's immigration lever: recruit households until this many exist.
pub struct RecruitmentPlan {
    pub target_households: u32,
}

impl RecruitmentPlan {
    /// Move the recruitment target by `delta` households, saturating at the
    /// ends of the counter's range.
    pub fn adjust_target(&mut self, delta: i32)
        ensures
            final(self).target_households as int == if old(self).target_households + delta < 0 {
                0
            } else if old(self).target_households + delta > u32::MAX {
                u32::MAX as int
            } else {
                old(self).target_households + delta
            },
    {
        if delta >= 0 {
            self.target_households = self.target_households.saturating_add(delta as u32);
        } else {
            let down: u32 = (-(delta as i64)) as u32;
            self.target_households = self.target_households.saturating_sub(down);
        }
    }
}

/// Total households ever recruited.
pub struct RecruitmentLedger {
    pub recruited: u32,
}

/// Household sizes are dealt from this cycle (deterministic, averages ~3).
pub open spec fn spec_recruit_size(n: int) -> u8 {
    let k = n % 5;
    if k == 0 { 3 } else if k == 1 { 2 } else if k == 2 { 4 } else if k == 3 { 1 } else { 5 }
}

fn recruit_size(n: u32) -> (r: u8)
    ensures
        r == spec_recruit_size(n as int),
{
    let sizes: [u8; 5] = [3, 2, 4, 1, 5];
    sizes[(n % 5) as usize]
}

/// Plan-recruited immigration: deal out spawn requests until the ledger meets
/// the target.
pub fn recruit_immigrants(
    plan: &RecruitmentPlan,
    ledger: &mut RecruitmentLedger,
    spawns: &mut HouseholdSpawnQueue,
)
    ensures
        final(ledger).recruited == if old(ledger).recruited < plan.target_households {
            plan.target_households
        } else {
            old(ledger).recruited
        },
        final(spawns).0@.len() == old(spawns).0@.len() + (final(ledger).recruited - old(ledger).recruited),
        forall|i: int| 0 <= i < old(spawns).0@.len() ==> final(spawns).0@[i] == old(spawns).0@[i],
        forall|i: int|
            old(spawns).0@.len() <= i < final(spawns).0@.len() ==> (#[trigger] final(spawns).0@[i]).members
                == spec_recruit_size(old(ledger).recruited + i - old(spawns).0@.len()),
{
    let ghost start = ledger.recruited;
    let ghost base = spawns.0@.len();
    while ledger.recruited < plan.target_households
        invariant
            start <= ledger.recruited,
            start < plan.target_households ==> ledger.recruited <= plan.target_households,
            start >= plan.target_households ==> ledger.recruited == start,
            spawns.0@.len() == base + (ledger.recruited - start),
            forall|i: int| 0 <= i < base ==> spawns.0@[i] == old(spawns).0@[i],
            forall|i: int|
                base <= i < spawns.0@.len() ==> (#[trigger] spawns.0@[i]).members == spec_recruit_size(
                    start + i - base,
                ),
            base == old(spawns).0@.len(),
            start == old(ledger).recruited,
        decreases plan.target_households - ledger.recruited,
    {
        let size = recruit_size(ledger.recruited);
        spawns.0.push(SpawnHousehold { members: size });
        ledger.recruited = ledger.recruited + 1;
    }
}

/// A household entity paired with its component.
pub struct HouseholdEntry {
    pub entity: u64,
    pub household: Household,
}

/// A dwelling entity paired with its flat table.
pub struct DwellingEntry {
    pub entity: u64,
    pub dwelling: Dwelling,
}

/// The housing office's books: every household, every dwelling, and the
/// queue, as the office sees them at the start of a pass.
pub struct HousingBook {
    pub households: Vec<HouseholdEntry>,
    pub dwellings: Vec<DwellingEntry>,
    pub queue: HousingQueue,
}

/// Mathematical model of the books.
pub struct BookView {
    pub households: Seq<(u64, HouseholdView)>,
    pub dwellings: Seq<(u64, Dwelling)>,
    pub queue: Seq<u64>,
}

impl View for HousingBook {
    type V = BookView;

    open spec fn view(&self) -> BookView {
        BookView {
            households: self.households@.map_values(|e: HouseholdEntry| (e.entity, e.household@)),
            dwellings: self.dwellings@.map_values(|e: DwellingEntry| (e.entity, e.dwelling)),
            queue: self.queue.0@,
        }
    }
}

/// Index of the first household whose entity is `e`, or -1.
pub open spec fn household_index(hs: Seq<(u64, HouseholdView)>, e: u64) -> int
    decreases hs.len(),
{
    if hs.len() == 0 {
        -1
    } else {
        let i = household_index(hs.drop_last(), e);
        if i >= 0 { i } else if hs.last().0 == e { hs.len() - 1 } else { -1 }
    }
}

/// Nearest-jobs choice among dwellings with a free flat: the highest score
/// key, the later one on ties (considering the first `n` dwellings).
pub open spec fn free_pick(ds: Seq<(u64, Dwelling)>, keys: Seq<i64>, n: int) -> int
    decreases n,
{
    if n <= 0 {
        -1
    } else {
        let p = free_pick(ds, keys, n - 1);
        let d = ds[n - 1].1;
        if d.occupied < d.flats && (p < 0 || keys[n - 1] >= keys[p]) { n - 1 } else { p }
    }
}

/// `a`'s occupancy ratio (occupied per flat, at least one flat) is strictly
/// below `b`'s.
pub open spec fn ratio_below(a: Dwelling, b: Dwelling) -> bool {
    let fa: int = if a.flats == 0 { 1 } else { a.flats as int };
    let fb: int = if b.flats == 0 { 1 } else { b.flats as int };
    a.occupied * fb < b.occupied * fa
}

/// Doubling-up choice: the least-crowded dwelling still under the two
/// households per flat ceiling, the earlier one on ties.
pub open spec fn crowd_pick(ds: Seq<(u64, Dwelling)>, n: int) -> int
    decreases n,
{
    if n <= 0 {
        -1
    } else {
        let p = crowd_pick(ds, n - 1);
        let d = ds[n - 1].1;
        if d.occupied < 2 * d.flats && (p < 0 || ratio_below(d, ds[p].1)) { n - 1 } else { p }
    }
}

/// The dwelling the office gives the queue head at household index `hi`, or -1.
pub open spec fn office_target(b: BookView, keys: Seq<i64>) -> int {
    let f = free_pick(b.dwellings, keys, b.dwellings.len() as int);
    if f >= 0 {
        f
    } else if b.queue.len() > DOUBLE_UP_QUEUE {
        crowd_pick(b.dwellings, b.dwellings.len() as int)
    } else {
        -1
    }
}

/// Well-formed score table: one row per household, one key per dwelling.
pub open spec fn scores_fit(b: BookView, scores: Seq<Seq<i64>>) -> bool {
    &&& scores.len() == b.households.len()
    &&& forall|i: int| 0 <= i < scores.len() ==> (#[trigger] scores[i]).len() == b.dwellings.len()
}

/// Every dwelling's flat count leaves room to double the ceiling.
pub open spec fn flats_bounded(b: BookView) -> bool {
    forall|i: int| 0 <= i < b.dwellings.len() ==> (#[trigger] b.dwellings[i]).1.flats <= u32::MAX / 2
}

/// The books after the office houses the queue head in dwelling `t`.
pub open spec fn house_head(b: BookView, hi: int, t: int) -> BookView {
    let (he, h) = b.households[hi];
    let (de, d) = b.dwellings[t];
    BookView {
        households: b.households.update(
            hi,
            (he, HouseholdView { id: h.id, members: h.members, dwelling: Some(de) }),
        ),
        dwellings: b.dwellings.update(t, (de, Dwelling { flats: d.flats, occupied: (d.occupied + 1) as u32 })),
        queue: b.queue.drop_first(),
    }
}

/// The whole office pass: serve the queue front to back until the head is
/// not ready or no flat within the ceiling exists. Yields the final books and
/// the (household, dwelling) assignments in order.
pub open spec fn office_pass(b: BookView, scores: Seq<Seq<i64>>) -> (BookView, Seq<(u64, u64)>)
    decreases b.queue.len(),
{
    if b.queue.len() == 0 {
        (b, Seq::empty())
    } else {
        let hi = household_index(b.households, b.queue[0]);
        if hi < 0 || hi >= scores.len() {
            (b, Seq::empty())
        } else {
            let t = office_target(b, scores[hi]);
            if t < 0 || t >= b.dwellings.len() {
                (b, Seq::empty())
            } else {
                let next = house_head(b, hi, t);
                let rest = office_pass(next, scores);
                (rest.0, seq![(b.queue[0], b.dwellings[t].0)] + rest.1)
            }
        }
    }
}

proof fn lemma_household_index_bounds(hs: Seq<(u64, HouseholdView)>, e: u64)
    ensures
        -1 <= household_index(hs, e) < hs.len(),
        household_index(hs, e) >= 0 ==> hs[household_index(hs, e)].0 == e,
        household_index(hs, e) < 0 ==> forall|i: int| 0 <= i < hs.len() ==> hs[i].0 != e,
    decreases hs.len(),
{
    if hs.len() > 0 {
        lemma_household_index_bounds(hs.drop_last(), e);
        assert forall|i: int| 0 <= i < hs.len() - 1 implies hs.drop_last()[i] == hs[i] by {}
    }
}

proof fn lemma_free_pick(ds: Seq<(u64, Dwelling)>, keys: Seq<i64>, n: int)
    requires
        n <= ds.len(),
    ensures
        -1 <= free_pick(ds, keys, n) < if n < 0 { 0 } else { n },
        free_pick(ds, keys, n) >= 0 ==> ds[free_pick(ds, keys, n)].1.occupied < ds[free_pick(ds, keys, n)].1.flats,
    decreases n,
{
    if n > 0 {
        lemma_free_pick(ds, keys, n - 1);
    }
}

proof fn lemma_crowd_pick(ds: Seq<(u64, Dwelling)>, n: int)
    requires
        n <= ds.len(),
    ensures
        -1 <= crowd_pick(ds, n) < if n < 0 { 0 } else { n },
        crowd_pick(ds, n) >= 0 ==> ds[crowd_pick(ds, n)].1.occupied < 2 * ds[crowd_pick(ds, n)].1.flats,
    decreases n,
{
    if n > 0 {
        lemma_crowd_pick(ds, n - 1);
    }
}

impl HousingBook {
    fn find_household(&self, e: u64) -> (r: Option<usize>)
        ensures
            r is Some <==> household_index(self@.households, e) >= 0,
            r is Some ==> r->0 == household_index(self@.households, e),
    {
        proof {
            lemma_household_index_bounds(self@.households, e);
        }
        let mut i: usize = 0;
        while i < self.households.len()
            invariant
                i <= self.households@.len(),
                forall|j: int| 0 <= j < i ==> self@.households[j].0 != e,
            decreases self.households.len() - i,
        {
            if self.households[i].entity == e {
                proof {
                    lemma_first_index(self@.households, e, i as int);
                }
                return Some(i);
            }
            i = i + 1;
        }
        None
    }

    fn pick_free(&self, keys: &Vec<i64>) -> (r: Option<usize>)
        requires
            keys@.len() == self@.dwellings.len(),
        ensures
            r is Some <==> free_pick(self@.dwellings, keys@, self@.dwellings.len() as int) >= 0,
            r is Some ==> r->0 == free_pick(self@.dwellings, keys@, self@.dwellings.len() as int),
    {
        let mut best: Option<usize> = None;
        let mut i: usize = 0;
        while i < self.dwellings.len()
            invariant
                i <= self.dwellings@.len(),
                keys@.len() == self@.dwellings.len(),
                best is Some <==> free_pick(self@.dwellings, keys@, i as int) >= 0,
                best is Some ==> best->0 == free_pick(self@.dwellings, keys@, i as int),
            decreases self.dwellings.len() - i,
        {
            proof {
                lemma_free_pick(self@.dwellings, keys@, i as int);
            }
            let d = self.dwellings[i].dwelling;
            if d.occupied < d.flats {
                match best {
                    None => {
                        best = Some(i);
                    },
                    Some(p) => {
                        if keys[i] >= keys[p] {
                            best = Some(i);
                        }
                    },
                }
            }
            i = i + 1;
        }
        best
    }

    fn pick_crowded(&self) -> (r: Option<usize>)
        requires
            flats_bounded(self@),
        ensures
            r is Some <==> crowd_pick(self@.dwellings, self@.dwellings.len() as int) >= 0,
            r is Some ==> r->0 == crowd_pick(self@.dwellings, self@.dwellings.len() as int),
    {
        let mut best: Option<usize> = None;
        let mut i: usize = 0;
        while i < self.dwellings.len()
            invariant
                i <= self.dwellings@.len(),
                flats_bounded(self@),
                best is Some <==> crowd_pick(self@.dwellings, i as int) >= 0,
                best is Some ==> best->0 == crowd_pick(self@.dwellings, i as int),
            decreases self.dwellings.len() - i,
        {
            proof {
                lemma_crowd_pick(self@.dwellings, i as int);
            }
            let d = self.dwellings[i].dwelling;
            assert(d == self@.dwellings[i as int].1);
            if d.occupied < max_households(d) {
                match best {
                    None => {
                        best = Some(i);
                    },
                    Some(p) => {
                        let q = self.dwellings[p].dwelling;
                        let fa: u64 = if d.flats == 0 { 1 } else { d.flats as u64 };
                        let fb: u64 = if q.flats == 0 { 1 } else { q.flats as u64 };
                        assert((d.occupied as u64) * fb <= u32::MAX as u64 * u32::MAX as u64) by (nonlinear_arith)
                            requires fb <= u32::MAX;
                        assert((q.occupied as u64) * fa <= u32::MAX as u64 * u32::MAX as u64) by (nonlinear_arith)
                            requires fa <= u32::MAX;
                        if (d.occupied as u64) * fb < (q.occupied as u64) * fa {
                            best = Some(i);
                        }
                    },
                }
            }
            i = i + 1;
        }
        best
    }

    /// The housing office: the queue head (longest waiter) is housed first;
    /// the free flat nearest its members' jobs wins (`scores[h][d]` is the
    /// order key of household `h`'s preference for dwelling `d`). With no
    /// free flat and a queue past `DOUBLE_UP_QUEUE`, the office doubles up in
    /// the least-crowded block under the ceiling; otherwise the queue waits.
    /// Returns the (household, dwelling) assignments in order.
    pub fn assign_housing(&mut self, scores: &Vec<Vec<i64>>) -> (r: Vec<(u64, u64)>)
        requires
            scores_fit(old(self)@, scores.deep_view()),
            flats_bounded(old(self)@),
        ensures
            (final(self)@, r@) == office_pass(old(self)@, scores.deep_view()),
    {
        let ghost goal = office_pass(self@, scores.deep_view());
        let mut assigned: Vec<(u64, u64)> = Vec::new();
        while self.queue.0.len() > 0
            invariant
                scores_fit(self@, scores.deep_view()),
                flats_bounded(self@),
                office_pass(self@, scores.deep_view()).0 == goal.0,
                assigned@ + office_pass(self@, scores.deep_view()).1 == goal.1,
            ensures
                office_pass(self@, scores.deep_view()).0 == goal.0,
                assigned@ + office_pass(self@, scores.deep_view()).1 == goal.1,
                office_pass(self@, scores.deep_view()).1 == Seq::<(u64, u64)>::empty(),
            decreases self.queue.0@.len(),
        {
            let head = self.queue.0[0];
            let hi = match self.find_household(head) {
                Some(i) => i,
                None => {
                    assert(office_pass(self@, scores.deep_view()).1 =~= Seq::<(u64, u64)>::empty());
                    break;
                },
            };
            let ghost b = self@;
            proof {
                lemma_household_index_bounds(b.households, head);
            }
            let keys = &scores[hi];
            assert(keys@ == scores.deep_view()[hi as int]);
            let target = match self.pick_free(keys) {
                Some(t) => Some(t),
                None => if self.queue.0.len() > DOUBLE_UP_QUEUE {
                    self.pick_crowded()
                } else {
                    None
                },
            };
            proof {
                lemma_free_pick(b.dwellings, keys@, b.dwellings.len() as int);
                lemma_crowd_pick(b.dwellings, b.dwellings.len() as int);
            }
            let t = match target {
                Some(t) => t,
                None => {
                    assert(office_target(b, scores.deep_view()[hi as int]) < 0);
                    assert(office_pass(self@, scores.deep_view()).1 =~= Seq::<(u64, u64)>::empty());
                    break;
                },
            };
            assert(t == office_target(b, scores.deep_view()[hi as int]));
            let de = self.dwellings[t].entity;
            self.dwellings[t].dwelling.occupied = self.dwellings[t].dwelling.occupied + 1;
            self.households[hi].household.dwelling = Some(de);
            self.queue.0.remove(0);
            proof {
                let next = house_head(b, hi as int, t as int);
                assert(self@.households =~= next.households);
                assert(self@.dwellings =~= next.dwellings);
                assert(self@.queue =~= next.queue);
                assert(self@.dwellings[t as int].1.flats == b.dwellings[t as int].1.flats);
            }
            let ghost rest = office_pass(self@, scores.deep_view()).1;
            assigned.push((head, de));
            proof {
                assert(assigned@ + rest =~= assigned@.drop_last() + (seq![(head, de)] + rest));
            }
        }
        proof {
            assert(assigned@ + Seq::<(u64, u64)>::empty() =~= assigned@);
        }
        assigned
    }
}


/// Whether `v` holds `e` (linear scan).
pub fn contains_entity(v: &Vec<u64>, e: u64) -> (r: bool)
    ensures
        r == v@.contains(e),
{
    let mut i: usize = 0;
    while i < v.len()
        invariant
            i <= v@.len(),
            forall|j: int| 0 <= j < i ==> v@[j] != e,
        decreases v.len() - i,
    {
        if v[i] == e {
            assert(v@[i as int] == e);
            return true;
        }
        i = i + 1;
    }
    false
}

/// Whether the dynamics pass runs on `frame` (once a game day).
pub open spec fn dynamics_due(frame: u32) -> bool {
    frame % FRAMES_PER_GAME_DAY == DYNAMICS_FRAME
}

/// A housed household at the fission size sheds its last-listed member.
pub open spec fn sheds(h: HouseholdView) -> bool {
    h.members.len() >= FISSION_MIN && h.dwelling is Some
}

/// The household after fission.
pub open spec fn after_fission(p: (u64, HouseholdView)) -> (u64, HouseholdView) {
    if sheds(p.1) {
        (p.0, HouseholdView { id: p.1.id, members: p.1.members.drop_last(), dwelling: p.1.dwelling })
    } else {
        p
    }
}

/// Members shed by the first `n` households, in household order.
pub open spec fn shed_members(hs: Seq<(u64, HouseholdView)>, n: int) -> Seq<u64>
    decreases n,
{
    if n <= 0 {
        Seq::empty()
    } else {
        let s = shed_members(hs, n - 1);
        if sheds(hs[n - 1].1) { s.push(hs[n - 1].1.members.last()) } else { s }
    }
}

/// How many households fission on `frame`.
pub open spec fn fission_count(b: BookView, frame: u32) -> nat {
    if dynamics_due(frame) { shed_members(b.households, b.households.len() as int).len() } else { 0 }
}

/// A queued entry that is an unhoused single-member household.
pub open spec fn is_queued_single(hs: Seq<(u64, HouseholdView)>, e: u64) -> bool {
    let i = household_index(hs, e);
    &&& i >= 0
    &&& hs[i].1.members.len() == 1
    &&& hs[i].1.dwelling is None
}

/// The queued singles among the first `n` queue entries, in queue order.
pub open spec fn queued_singles(hs: Seq<(u64, HouseholdView)>, q: Seq<u64>, n: int) -> Seq<u64>
    decreases n,
{
    if n <= 0 {
        Seq::empty()
    } else {
        let s = queued_singles(hs, q, n - 1);
        if is_queued_single(hs, q[n - 1]) { s.push(q[n - 1]) } else { s }
    }
}

/// `q` without any occurrence of `e`.
pub open spec fn without(q: Seq<u64>, e: u64) -> Seq<u64>
    decreases q.len(),
{
    if q.len() == 0 {
        q
    } else {
        let w = without(q.drop_last(), e);
        if q.last() == e { w } else { w.push(q.last()) }
    }
}

/// The state the couple pass threads through its pairs.
pub struct PairState {
    pub households: Seq<(u64, HouseholdView)>,
    pub queue: Seq<u64>,
    pub removed: Seq<u64>,
    pub moves: Seq<(u64, u64)>,
}

/// Pair `a` with `b`: `b`'s member joins `a`, `b` leaves the queue and is
/// despawned once the pass ends.
pub open spec fn pair_one(s: PairState, a: u64, b: u64) -> PairState {
    let bi = household_index(s.households, b);
    let ai = household_index(s.households, a);
    if bi < 0 || ai < 0 {
        s
    } else {
        let partner = s.households[bi].1.members[0];
        let (ae, ah) = s.households[ai];
        PairState {
            households: s.households.update(
                ai,
                (ae, HouseholdView { id: ah.id, members: ah.members.push(partner), dwelling: ah.dwelling }),
            ),
            queue: without(s.queue, b),
            removed: s.removed.push(b),
            moves: s.moves.push((partner, a)),
        }
    }
}

/// The couple pass after its first `k` pairs (singles taken two by two).
pub open spec fn pair_state(s0: PairState, singles: Seq<u64>, k: int) -> PairState
    decreases k,
{
    if k <= 0 {
        s0
    } else {
        pair_one(pair_state(s0, singles, k - 1), singles[2 * k - 2], singles[2 * k - 1])
    }
}

/// Households whose entity is not in `removed`, in order.
pub open spec fn keep_unremoved(hs: Seq<(u64, HouseholdView)>, removed: Seq<u64>) -> Seq<(u64, HouseholdView)>
    decreases hs.len(),
{
    if hs.len() == 0 {
        hs
    } else {
        let k = keep_unremoved(hs.drop_last(), removed);
        if removed.contains(hs.last().0) { k } else { k.push(hs.last()) }
    }
}

/// The household a shed member founds.
pub open spec fn founded(fresh: u64, next_id: u64, k: int, member: u64) -> (u64, HouseholdView) {
    (fresh, HouseholdView { id: (next_id + k + 1) as u64, members: seq![member], dwelling: None })
}

/// The dynamics pass on the books: fission, then couples, then the founded
/// households join the books and the queue. Yields the final books and the
/// citizen moves (citizen, new household), fission moves first.
pub open spec fn dynamics_pass(b: BookView, frame: u32, fresh: Seq<u64>, next_id: u64) -> (BookView, Seq<(u64, u64)>) {
    if !dynamics_due(frame) {
        (b, Seq::empty())
    } else {
        let shed = shed_members(b.households, b.households.len() as int);
        let hs1 = b.households.map_values(|p: (u64, HouseholdView)| after_fission(p));
        let singles = queued_singles(hs1, b.queue, b.queue.len() as int);
        let s0 = PairState { households: hs1, queue: b.queue, removed: Seq::empty(), moves: Seq::empty() };
        let s = pair_state(s0, singles, singles.len() as int / 2);
        let founded_hs = Seq::new(shed.len(), |k: int| founded(fresh[k], next_id, k, shed[k]));
        let fission_moves = Seq::new(shed.len(), |k: int| (shed[k], fresh[k]));
        (
            BookView {
                households: keep_unremoved(s.households, s.removed) + founded_hs,
                dwellings: b.dwellings,
                queue: s.queue + fresh,
            },
            fission_moves + s.moves,
        )
    }
}

/// `q` without any occurrence of `e`, as a fresh vector.
pub fn remove_entity(q: &Vec<u64>, e: u64) -> (r: Vec<u64>)
    ensures
        r@ == without(q@, e),
{
    let mut r: Vec<u64> = Vec::new();
    let mut i: usize = 0;
    while i < q.len()
        invariant
            i <= q@.len(),
            r@ == without(q@.take(i as int), e),
        decreases q.len() - i,
    {
        proof {
            assert(q@.take(i as int + 1).drop_last() =~= q@.take(i as int));
        }
        if q[i] != e {
            r.push(q[i]);
        }
        i = i + 1;
    }
    proof {
        assert(q@.take(q@.len() as int) =~= q@);
    }
    r
}

proof fn lemma_index_stable_under_update(hs: Seq<(u64, HouseholdView)>, i: int, v: HouseholdView, e: u64)
    requires
        0 <= i < hs.len(),
    ensures
        household_index(hs.update(i, (hs[i].0, v)), e) == household_index(hs, e),
    decreases hs.len(),
{
    let hs2 = hs.update(i, (hs[i].0, v));
    if i < hs.len() - 1 {
        assert(hs2.drop_last() =~= hs.drop_last().update(i, (hs[i].0, v)));
        lemma_index_stable_under_update(hs.drop_last(), i, v, e);
    } else {
        assert(hs2.drop_last() =~= hs.drop_last());
    }
}

proof fn lemma_index_stable_under_map(hs: Seq<(u64, HouseholdView)>, e: u64)
    ensures
        household_index(hs.map_values(|p: (u64, HouseholdView)| after_fission(p)), e) == household_index(hs, e),
    decreases hs.len(),
{
    if hs.len() > 0 {
        let m = hs.map_values(|p: (u64, HouseholdView)| after_fission(p));
        assert(m.drop_last() =~= hs.drop_last().map_values(|p: (u64, HouseholdView)| after_fission(p)));
        lemma_index_stable_under_map(hs.drop_last(), e);
    }
}

proof fn lemma_singles_are_singles(hs: Seq<(u64, HouseholdView)>, q: Seq<u64>, n: int, j: int)
    requires
        0 <= n <= q.len(),
        0 <= j < queued_singles(hs, q, n).len(),
    ensures
        is_queued_single(hs, queued_singles(hs, q, n)[j]),
    decreases n,
{
    let s = queued_singles(hs, q, n - 1);
    if j < s.len() {
        lemma_singles_are_singles(hs, q, n - 1, j);
    }
}

impl HousingBook {
    /// How many households fission on `frame` (the number of fresh entities
    /// `household_dynamics` needs).
    pub fn fission_count(&self, frame: u32) -> (r: usize)
        ensures
            r == fission_count(self@, frame),
    {
        if frame % FRAMES_PER_GAME_DAY != DYNAMICS_FRAME {
            return 0;
        }
        let mut n: usize = 0;
        let mut i: usize = 0;
        while i < self.households.len()
            invariant
                i <= self.households@.len(),
                n == shed_members(self@.households, i as int).len(),
                n <= i,
            decreases self.households.len() - i,
        {
            let h = &self.households[i].household;
            assert(self@.households[i as int].1 == h@);
            if h.members.len() >= FISSION_MIN && h.dwelling.is_some() {
                n = n + 1;
            }
            i = i + 1;
        }
        n
    }

    /// Household dynamics, once a game day: every housed household at the
    /// fission size sheds an adult into a new household (entity `fresh[k]`,
    /// next id) that joins the housing queue; queued singles pair up two by
    /// two, the second's member joining the first and the second household
    /// leaving the queue and the books. Returns the citizen moves
    /// (citizen, new household) in order.
    pub fn household_dynamics(&mut self, frame: u32, fresh: &Vec<u64>, ids: &mut HouseholdIds) -> (r: Vec<(u64, u64)>)
        requires
            fresh@.len() == fission_count(old(self)@, frame),
            old(ids).next + fresh@.len() <= u64::MAX,
        ensures
            (final(self)@, r@) == dynamics_pass(old(self)@, frame, fresh@, old(ids).next),
            final(ids).next == old(ids).next + fresh@.len(),
    {
        if frame % FRAMES_PER_GAME_DAY != DYNAMICS_FRAME {
            return Vec::new();
        }
        let ghost b = self@;
        let ghost next0 = ids.next;
        // Fission: adult children strike out from full housed households.
        let mut shed: Vec<u64> = Vec::new();
        let mut i: usize = 0;
        while i < self.households.len()
            invariant
                i <= self.households@.len(),
                self.households@.len() == b.households.len(),
                forall|j: int| 0 <= j < i ==> #[trigger] self@.households[j] == after_fission(b.households[j]),
                forall|j: int| i <= j < b.households.len() ==> #[trigger] self@.households[j] == b.households[j],
                shed@ == shed_members(b.households, i as int),
                self@.dwellings == b.dwellings,
                self@.queue == b.queue,
            decreases self.households.len() - i,
        {
            assert(self@.households[i as int] == b.households[i as int]);
            let ghost before = self.households@;
            if self.households[i].household.members.len() >= FISSION_MIN && self.households[i].household.dwelling.is_some() {
                let m = self.households[i].household.members.pop();
                match m {
                    Some(m) => {
                        shed.push(m);
                    },
                    None => {},
                }
                assert(self@.households[i as int] == after_fission(b.households[i as int]));
            }
            assert(self.households@.len() == before.len());
            assert(forall|j: int| 0 <= j < before.len() && j != i ==> self.households@[j] == before[j]);
            assert(self@.households[i as int] == after_fission(b.households[i as int]));
            assert(forall|j: int| 0 <= j < before.len() && j != i ==> self@.households[j] == before.map_values(|e: HouseholdEntry| (e.entity, e.household@))[j]);
            i = i + 1;
        }
        let ghost hs1 = b.households.map_values(|p: (u64, HouseholdView)| after_fission(p));
        assert(self@.households =~= hs1);
        // Couples: queued singles pair up.
        let mut singles: Vec<u64> = Vec::new();
        let mut j: usize = 0;
        while j < self.queue.0.len()
            invariant
                j <= self.queue.0@.len(),
                self@.households == hs1,
                self@.queue == b.queue,
                self@.dwellings == b.dwellings,
                singles@ == queued_singles(hs1, b.queue, j as int),
            decreases self.queue.0.len() - j,
        {
            let e = self.queue.0[j];
            match self.find_household(e) {
                Some(hi) => {
                    proof {
                        lemma_household_index_bounds(hs1, e);
                    }
                    if self.households[hi].household.members.len() == 1 && self.households[hi].household.dwelling.is_none() {
                        singles.push(e);
                    }
                },
                None => {},
            }
            j = j + 1;
        }
        let ghost s0 = PairState { households: hs1, queue: b.queue, removed: Seq::empty(), moves: Seq::empty() };
        let mut removed: Vec<u64> = Vec::new();
        let mut moves: Vec<(u64, u64)> = Vec::new();
        let npairs = singles.len() / 2;
        let mut k: usize = 0;
        while k < npairs
            invariant
                k <= npairs,
                npairs == singles@.len() / 2,
                singles@ == queued_singles(hs1, b.queue, b.queue.len() as int),
                pair_state(s0, singles@, k as int).households == self@.households,
                pair_state(s0, singles@, k as int).queue == self@.queue,
                pair_state(s0, singles@, k as int).removed == removed@,
                pair_state(s0, singles@, k as int).moves == moves@,
                self@.households.len() == hs1.len(),
                forall|x: u64| household_index(self@.households, x) == #[trigger] household_index(hs1, x),
                forall|x: int| 0 <= x < hs1.len() ==> (#[trigger] self@.households[x]).1.members.len() >= hs1[x].1.members.len(),
                self@.dwellings == b.dwellings,
            decreases npairs - k,
        {
            assert(2 * k + 1 < singles@.len()) by (nonlinear_arith)
                requires
                    k < npairs,
                    npairs == singles@.len() / 2;
            assert(k + k + 1 < singles.len());
            let i2: usize = k + k;
            let a = singles[i2];
            let bb = singles[i2 + 1];
            let ghost cur = self@;
            proof {
                lemma_singles_are_singles(hs1, b.queue, b.queue.len() as int, 2 * k + 1);
                lemma_household_index_bounds(hs1, bb);
                lemma_household_index_bounds(cur.households, bb);
                lemma_household_index_bounds(cur.households, a);
            }
            let bi = match self.find_household(bb) {
                Some(x) => x,
                None => {
                    k = k + 1;
                    continue;
                },
            };
            let partner = self.households[bi].household.members[0];
            let ai = match self.find_household(a) {
                Some(x) => x,
                None => {
                    k = k + 1;
                    continue;
                },
            };
            self.households[ai].household.members.push(partner);
            moves.push((partner, a));
            let q2 = remove_entity(&self.queue.0, bb);
            self.queue = HousingQueue(q2);
            removed.push(bb);
            proof {
                let nv = HouseholdView {
                    id: cur.households[ai as int].1.id,
                    members: cur.households[ai as int].1.members.push(partner),
                    dwelling: cur.households[ai as int].1.dwelling,
                };
                assert(self@.households =~= cur.households.update(ai as int, (cur.households[ai as int].0, nv)));
                assert forall|x: u64| household_index(self@.households, x) == #[trigger] household_index(hs1, x) by {
                    lemma_index_stable_under_update(cur.households, ai as int, nv, x);
                }
            }
            k = k + 1;
        }
        // The paired-away households leave the books.
        let ghost sp = self@;
        let mut kept: Vec<HouseholdEntry> = Vec::new();
        let ghost mut done: int = 0;
        while self.households.len() > 0
            invariant
                0 <= done <= sp.households.len(),
                self@.households == sp.households.skip(done),
                kept@.map_values(|e: HouseholdEntry| (e.entity, e.household@)) == keep_unremoved(sp.households.take(done), removed@),
                self@.queue == sp.queue,
                self@.dwellings == sp.dwellings,
            decreases self.households@.len(),
        {
            assert(self@.households.len() == sp.households.len() - done);
            assert(self@.households[0] == sp.households[done]);
            let ghost pre = self@.households;
            let h = self.households.remove(0);
            assert(self@.households =~= pre.drop_first());
            assert(pre.drop_first() =~= sp.households.skip(done + 1));
            proof {
                assert(sp.households.take(done + 1).drop_last() =~= sp.households.take(done));
                assert(sp.households.take(done + 1).last() == (h.entity, h.household@));
            }
            let gone = contains_entity(&removed, h.entity);
            if !gone {
                kept.push(h);
            }
            proof {
                done = done + 1;
                assert(self@.households =~= sp.households.skip(done));
                assert(kept@.map_values(|e: HouseholdEntry| (e.entity, e.household@)) =~= keep_unremoved(sp.households.take(done), removed@));
            }
        }
        proof {
            assert(sp.households.take(done) =~= sp.households);
        }
        self.households = kept;
        // Founded households join the books and the queue.
        let ghost pre_found = self@;
        let mut f: usize = 0;
        let mut fission_moves: Vec<(u64, u64)> = Vec::new();
        while f < shed.len()
            invariant
                f <= shed@.len(),
                shed@ == shed_members(b.households, b.households.len() as int),
                fresh@.len() == shed@.len(),
                ids.next == next0 + f,
                next0 + fresh@.len() <= u64::MAX,
                self@.households == pre_found.households + Seq::new(f as nat, |x: int| founded(fresh@[x], next0, x, shed@[x])),
                self@.queue == pre_found.queue + fresh@.take(f as int),
                fission_moves@ == Seq::new(f as nat, |x: int| (shed@[x], fresh@[x])),
                self@.dwellings == b.dwellings,
            decreases shed.len() - f,
        {
            let id = ids.allocate();
            let e = fresh[f];
            let m = shed[f];
            let members = vec![m];
            assert(members@ =~= seq![m]);
            let entry = HouseholdEntry { entity: e, household: Household { id, members, dwelling: None } };
            assert((entry.entity, entry.household@) == founded(fresh@[f as int], next0, f as int, shed@[f as int]));
            let ghost pre = self@.households;
            let ghost ev = (entry.entity, entry.household@);
            self.households.push(entry);
            assert(self@.households =~= pre.push(ev));
            self.queue.0.push(e);
            fission_moves.push((m, e));
            proof {
                assert(self@.households =~= pre_found.households + Seq::new(f as nat + 1, |x: int| founded(fresh@[x], next0, x, shed@[x])));
                assert(self@.queue =~= pre_found.queue + fresh@.take(f as int + 1));
                assert(fission_moves@ =~= Seq::new(f as nat + 1, |x: int| (shed@[x], fresh@[x])));
            }
            f = f + 1;
        }
        proof {
            assert(fresh@.take(f as int) =~= fresh@);
        }
        fission_moves.append(&mut moves);
        fission_moves
    }

    /// A demolished dwelling evicts its households back into the housing
    /// queue — visible homelessness, never a deletion of people. A household
    /// whose dwelling is no longer on the books loses it and queues, in
    /// household order. Returns the evicted households.
    pub fn requeue_lost_dwellings(&mut self) -> (r: Vec<u64>)
        ensures
            final(self)@.households == old(self)@.households.map_values(
                |p: (u64, HouseholdView)| evict_if_lost(old(self)@.dwellings, p),
            ),
            r@ == lost_households(old(self)@, old(self)@.households.len() as int),
            final(self)@.queue == old(self)@.queue + r@,
            final(self)@.dwellings == old(self)@.dwellings,
    {
        let ghost b = self@;
        let mut evicted: Vec<u64> = Vec::new();
        let mut i: usize = 0;
        while i < self.households.len()
            invariant
                i <= self.households@.len(),
                self.households@.len() == b.households.len(),
                forall|j: int| 0 <= j < i ==> #[trigger] self@.households[j] == evict_if_lost(b.dwellings, b.households[j]),
                forall|j: int| i <= j < b.households.len() ==> #[trigger] self@.households[j] == b.households[j],
                evicted@ == lost_households(b, i as int),
                self@.queue == b.queue + evicted@,
                self@.dwellings == b.dwellings,
            decreases self.households.len() - i,
        {
            assert(self@.households[i as int] == b.households[i as int]);
            let ghost before = self.households@;
            match self.households[i].household.dwelling {
                Some(d) => {
                    if !self.has_dwelling(d) {
                        self.households[i].household.dwelling = None;
                        let e = self.households[i].entity;
                        self.queue.0.push(e);
                        evicted.push(e);
                        assert(self@.households[i as int] == evict_if_lost(b.dwellings, b.households[i as int]));
                    }
                },
                None => {},
            }
            assert(self.households@.len() == before.len());
            assert(forall|j: int| 0 <= j < before.len() && j != i ==> self.households@[j] == before[j]);
            assert(self@.households[i as int] == evict_if_lost(b.dwellings, b.households[i as int]));
            assert(forall|j: int| 0 <= j < before.len() && j != i ==> self@.households[j] == before.map_values(|e: HouseholdEntry| (e.entity, e.household@))[j]);
            i = i + 1;
        }
        proof {
            assert(self@.households =~= b.households.map_values(|p: (u64, HouseholdView)| evict_if_lost(b.dwellings, p)));
        }
        evicted
    }

    fn has_dwelling(&self, d: u64) -> (r: bool)
        ensures
            r == dwelling_live(self@.dwellings, d),
    {
        let mut i: usize = 0;
        while i < self.dwellings.len()
            invariant
                i <= self.dwellings@.len(),
                forall|j: int| 0 <= j < i ==> self@.dwellings[j].0 != d,
            decreases self.dwellings.len() - i,
        {
            if self.dwellings[i].entity == d {
                assert(self@.dwellings[i as int].0 == d);
                return true;
            }
            i = i + 1;
        }
        false
    }
}

/// Whether some dwelling on the books is entity `d`.
pub open spec fn dwelling_live(ds: Seq<(u64, Dwelling)>, d: u64) -> bool {
    exists|i: int| 0 <= i < ds.len() && ds[i].0 == d
}

/// Whether a household's dwelling has been demolished.
pub open spec fn lost_dwelling(ds: Seq<(u64, Dwelling)>, h: HouseholdView) -> bool {
    h.dwelling is Some && !dwelling_live(ds, h.dwelling->0)
}

/// The household after eviction from a demolished dwelling.
pub open spec fn evict_if_lost(ds: Seq<(u64, Dwelling)>, p: (u64, HouseholdView)) -> (u64, HouseholdView) {
    if lost_dwelling(ds, p.1) {
        (p.0, HouseholdView { id: p.1.id, members: p.1.members, dwelling: None })
    } else {
        p
    }
}

/// Households among the first `n` whose dwelling was demolished, in order.
pub open spec fn lost_households(b: BookView, n: int) -> Seq<u64>
    decreases n,
{
    if n <= 0 {
        Seq::empty()
    } else {
        let s = lost_households(b, n - 1);
        if lost_dwelling(b.dwellings, b.households[n - 1].1) { s.push(b.households[n - 1].0) } else { s }
    }
}

/// Every dwelling is within the two-households-per-flat ceiling.
pub open spec fn within_ceiling(b: BookView) -> bool {
    forall|i: int| 0 <= i < b.dwellings.len() ==> (#[trigger] b.dwellings[i]).1.occupied <= 2 * b.dwellings[i].1.flats
}

/// The ceiling law: an office pass never puts more than two households in a
/// flat — whoever exceeds the ceiling stays visibly queued.
pub proof fn law_office_respects_ceiling(b: BookView, scores: Seq<Seq<i64>>)
    requires
        within_ceiling(b),
    ensures
        within_ceiling(office_pass(b, scores).0),
    decreases b.queue.len(),
{
    if b.queue.len() > 0 {
        let hi = household_index(b.households, b.queue[0]);
        if 0 <= hi < scores.len() {
            let t = office_target(b, scores[hi]);
            if 0 <= t < b.dwellings.len() {
                lemma_free_pick(b.dwellings, scores[hi], b.dwellings.len() as int);
                lemma_crowd_pick(b.dwellings, b.dwellings.len() as int);
                let next = house_head(b, hi, t);
                assert(within_ceiling(next));
                law_office_respects_ceiling(next, scores);
            }
        }
    }
}

/// The no-deletion law: the office serves the queue strictly front to back,
/// and every household it takes off the queue is one it assigned a flat —
/// the queue before the pass is exactly the served heads followed by the
/// queue after it. Households are never created or removed by the pass.
pub proof fn law_office_serves_queue_in_order(b: BookView, scores: Seq<Seq<i64>>)
    ensures
        b.queue =~= office_pass(b, scores).1.map_values(|p: (u64, u64)| p.0) + office_pass(b, scores).0.queue,
        office_pass(b, scores).0.households.len() == b.households.len(),
        office_pass(b, scores).0.dwellings.len() == b.dwellings.len(),
    decreases b.queue.len(),
{
    if b.queue.len() > 0 {
        let hi = household_index(b.households, b.queue[0]);
        if 0 <= hi < scores.len() {
            let t = office_target(b, scores[hi]);
            if 0 <= t < b.dwellings.len() {
                lemma_household_index_bounds(b.households, b.queue[0]);
                let next = house_head(b, hi, t);
                law_office_serves_queue_in_order(next, scores);
                let rest = office_pass(next, scores);
                let heads = rest.1.map_values(|p: (u64, u64)| p.0);
                let all = (seq![(b.queue[0], b.dwellings[t].0)] + rest.1).map_values(|p: (u64, u64)| p.0);
                assert(all =~= seq![b.queue[0]] + heads);
                assert(b.queue =~= seq![b.queue[0]] + next.queue);
            }
        }
    }
}

proof fn lemma_ratio_trans(ao: int, fa: int, bo: int, fb: int, co: int, fc: int)
    by (nonlinear_arith)
    requires
        fa > 0,
        fb > 0,
        fc > 0,
        ao * fb <= bo * fa,
        bo * fc <= co * fb,
    ensures
        ao * fc <= co * fa,
{
    assert(ao * fb * fc <= bo * fa * fc);
    assert(bo * fc * fa <= co * fb * fa);
    assert(fb * (ao * fc) <= fb * (co * fa));
}

/// The doubling-up choice over the first `n` dwellings is one under the
/// ceiling whose occupancy per flat is no higher than any other's under it;
/// there is none exactly when every one of them is at the ceiling.
proof fn lemma_crowd_pick_least(ds: Seq<(u64, Dwelling)>, n: int)
    requires
        0 <= n <= ds.len(),
    ensures
        crowd_pick(ds, n) < 0 <==> forall|j: int| 0 <= j < n ==> (#[trigger] ds[j]).1.occupied >= 2 * ds[j].1.flats,
        crowd_pick(ds, n) >= 0 ==> forall|j: int|
            0 <= j < n && (#[trigger] ds[j]).1.occupied < 2 * ds[j].1.flats ==> ds[crowd_pick(ds, n)].1.occupied
                * ds[j].1.flats <= ds[j].1.occupied * ds[crowd_pick(ds, n)].1.flats,
    decreases n,
{
    lemma_crowd_pick(ds, n);
    if n > 0 {
        lemma_crowd_pick_least(ds, n - 1);
        lemma_crowd_pick(ds, n - 1);
        let p = crowd_pick(ds, n - 1);
        let c = crowd_pick(ds, n);
        let d = ds[n - 1].1;
        if c >= 0 {
            let dc = ds[c].1;
            assert forall|j: int| 0 <= j < n && (#[trigger] ds[j]).1.occupied < 2 * ds[j].1.flats implies dc.occupied
                * ds[j].1.flats <= ds[j].1.occupied * dc.flats by {
                let dj = ds[j].1;
                if c == n - 1 {
                    if j < n - 1 {
                        // p exists, and the new dwelling is below it.
                        let dp = ds[p].1;
                        assert(dp.occupied * dj.flats <= dj.occupied * dp.flats);
                        lemma_ratio_trans(
                            dc.occupied as int,
                            dc.flats as int,
                            dp.occupied as int,
                            dp.flats as int,
                            dj.occupied as int,
                            dj.flats as int,
                        );
                    }
                } else if j == n - 1 {
                    assert(!ratio_below(d, ds[p].1));
                }
            }
        }
    }
}

/// The office doubles up in the least crowded block. When no flat is free
/// and the queue is past `DOUBLE_UP_QUEUE`, the office targets a dwelling
/// exactly when some dwelling is still under the two-households-per-flat
/// ceiling, and the one it targets is under the ceiling with an occupancy
/// per flat no higher than any other dwelling under it. A pass whose head
/// household is on the books gives the head that dwelling first.
pub proof fn law_doubling_up_picks_the_least_crowded(b: BookView, scores: Seq<Seq<i64>>)
    requires
        forall|i: int| 0 <= i < b.dwellings.len() ==> (#[trigger] b.dwellings[i]).1.occupied >= b.dwellings[i].1.flats,
        b.queue.len() > DOUBLE_UP_QUEUE,
        scores_fit(b, scores),
        household_index(b.households, b.queue[0]) >= 0,
    ensures
        ({
            let t = office_target(b, scores[household_index(b.households, b.queue[0])]);
            &&& t >= 0 <==> exists|j: int| 0 <= j < b.dwellings.len() && (#[trigger] b.dwellings[j]).1.occupied < 2 * b.dwellings[j].1.flats
            &&& t >= 0 ==> {
                &&& t < b.dwellings.len()
                &&& b.dwellings[t].1.occupied < 2 * b.dwellings[t].1.flats
                &&& forall|j: int|
                    0 <= j < b.dwellings.len() && (#[trigger] b.dwellings[j]).1.occupied < 2 * b.dwellings[j].1.flats
                        ==> b.dwellings[t].1.occupied * b.dwellings[j].1.flats <= b.dwellings[j].1.occupied
                        * b.dwellings[t].1.flats
                &&& office_pass(b, scores).1.len() > 0
                &&& office_pass(b, scores).1[0] == (b.queue[0], b.dwellings[t].0)
            }
        }),
{
    let n = b.dwellings.len() as int;
    let hi = household_index(b.households, b.queue[0]);
    lemma_household_index_bounds(b.households, b.queue[0]);
    let keys = scores[hi];
    lemma_free_pick(b.dwellings, keys, n);
    lemma_crowd_pick(b.dwellings, n);
    lemma_crowd_pick_least(b.dwellings, n);
    let f = free_pick(b.dwellings, keys, n);
    if f >= 0 {
        assert(b.dwellings[f].1.occupied >= b.dwellings[f].1.flats);
    }
    let t = office_target(b, keys);
    assert(t == crowd_pick(b.dwellings, n));
    if t >= 0 {
        let next = house_head(b, hi, t);
        let rest = office_pass(next, scores);
        assert(office_pass(b, scores).1 == seq![(b.queue[0], b.dwellings[t].0)] + rest.1);
    }
}

/// Doubling up starts only past the queue threshold: with a queue no longer
/// than `DOUBLE_UP_QUEUE`, a pass never makes a dwelling overcrowded.
pub proof fn law_no_doubling_below_threshold(b: BookView, scores: Seq<Seq<i64>>, i: int)
    requires
        b.queue.len() <= DOUBLE_UP_QUEUE,
        0 <= i < b.dwellings.len(),
        b.dwellings[i].1.occupied <= b.dwellings[i].1.flats,
    ensures
        office_pass(b, scores).0.dwellings[i].1.occupied <= office_pass(b, scores).0.dwellings[i].1.flats,
    decreases b.queue.len(),
{
    law_office_serves_queue_in_order(b, scores);
    if b.queue.len() > 0 {
        let hi = household_index(b.households, b.queue[0]);
        if 0 <= hi < scores.len() {
            let t = office_target(b, scores[hi]);
            if 0 <= t < b.dwellings.len() {
                lemma_free_pick(b.dwellings, scores[hi], b.dwellings.len() as int);
                let next = house_head(b, hi, t);
                law_no_doubling_below_threshold(next, scores, i);
            }
        }
    }
}

proof fn lemma_first_index(hs: Seq<(u64, HouseholdView)>, e: u64, i: int)
    requires
        0 <= i < hs.len(),
        hs[i].0 == e,
        forall|j: int| 0 <= j < i ==> hs[j].0 != e,
    ensures
        household_index(hs, e) == i,
    decreases hs.len(),
{
    if i < hs.len() - 1 {
        lemma_first_index(hs.drop_last(), e, i);
    } else {
        lemma_household_index_bounds(hs.drop_last(), e);
    }
}


impl HousingBook {
    /// Apply one spawn request: a household (entity `entity`, the next
    /// household id) arrives unhoused with one fresh citizen per member
    /// (entities `members`, the next citizen ids) and joins the back of the
    /// housing queue. Returns the new citizens.
    pub fn apply_spawn(
        &mut self,
        spawn: SpawnHousehold,
        entity: u64,
        members: &Vec<u64>,
        household_ids: &mut HouseholdIds,
        citizen_ids: &mut CitizenIds,
    ) -> (r: Vec<CitizenEntry>)
        requires
            members.len() == (if spawn.members < 1 { 1 } else if spawn.members > 5 { 5 } else { spawn.members as int }),
            old(household_ids).next < u64::MAX,
            old(citizen_ids).next + members.len() <= u64::MAX,
        ensures
            final(self)@.households == old(self)@.households.push(
                (entity, HouseholdView { id: (old(household_ids).next + 1) as u64, members: members@, dwelling: None }),
            ),
            final(self)@.queue == old(self)@.queue.push(entity),
            final(self)@.dwellings == old(self)@.dwellings,
            final(household_ids).next == old(household_ids).next + 1,
            final(citizen_ids).next == old(citizen_ids).next + members.len(),
            r.len() == members.len(),
            forall|i: int|
                0 <= i < r.len() ==> (#[trigger] r[i]).entity == members@[i] && r[i].citizen == (Citizen {
                    id: CitizenId((old(citizen_ids).next + i + 1) as u64),
                    household: entity,
                    home: None,
                    work: None,
                    health: 100,
                    wellbeing: 70,
                    education: crate::citizens::EducationTier(0),
                    location: crate::citizens::CitizenLocation::AtHome,
                }),
    {
        let size = household_size(spawn);
        assert(size == members.len());
        let id = household_ids.allocate();
        let ghost c0 = citizen_ids.next;
        let mut born: Vec<CitizenEntry> = Vec::new();
        let mut i: usize = 0;
        while i < members.len()
            invariant
                i <= members.len(),
                citizen_ids.next == c0 + i,
                c0 + members.len() <= u64::MAX,
                born.len() == i,
                forall|k: int|
                    0 <= k < i ==> (#[trigger] born[k]).entity == members@[k] && born[k].citizen == (Citizen {
                        id: CitizenId((c0 + k + 1) as u64),
                        household: entity,
                        home: None,
                        work: None,
                        health: 100,
                        wellbeing: 70,
                        education: crate::citizens::EducationTier(0),
                        location: crate::citizens::CitizenLocation::AtHome,
                    }),
            decreases members.len() - i,
        {
            let cid = citizen_ids.allocate();
            born.push(CitizenEntry { entity: members[i], citizen: Citizen::new(cid, entity) });
            i = i + 1;
        }
        let ghost before = self@;
        let mut roster: Vec<u64> = Vec::new();
        let mut k: usize = 0;
        while k < members.len()
            invariant
                k <= members.len(),
                roster@ == members@.subrange(0, k as int),
            decreases members.len() - k,
        {
            roster.push(members[k]);
            proof {
                assert(members@.subrange(0, k as int + 1) =~= members@.subrange(0, k as int).push(members@[k as int]));
            }
            k = k + 1;
        }
        proof {
            assert(members@.subrange(0, members.len() as int) =~= members@);
        }
        self.households.push(HouseholdEntry { entity, household: Household { id, members: roster, dwelling: None } });
        self.queue.0.push(entity);
        proof {
            assert(self@.households =~= before.households.push(
                (entity, HouseholdView { id: id.0, members: members@, dwelling: None }),
            ));
        }
        born
    }
}

/// Whether `hs` holds a household with entity `e` housed in `d`.
pub open spec fn housed_in(hs: Seq<(u64, HouseholdView)>, e: u64, d: u64) -> bool {
    exists|j: int| 0 <= j < hs.len() && (#[trigger] hs[j]).0 == e && hs[j].1.dwelling == Some(d)
}

proof fn lemma_pairing_keeps_keys_and_homes(s0: PairState, singles: Seq<u64>, k: int)
    requires
        0 <= k <= singles.len() / 2,
    ensures
        pair_state(s0, singles, k).households.len() == s0.households.len(),
        forall|i: int|
            0 <= i < s0.households.len() ==> (#[trigger] pair_state(s0, singles, k).households[i]).0
                == s0.households[i].0 && pair_state(s0, singles, k).households[i].1.dwelling
                == s0.households[i].1.dwelling,
    decreases k,
{
    if k > 0 {
        lemma_pairing_keeps_keys_and_homes(s0, singles, k - 1);
        let prev = pair_state(s0, singles, k - 1);
        let a = singles[2 * k - 2];
        let b = singles[2 * k - 1];
        lemma_household_index_bounds(prev.households, a);
        lemma_household_index_bounds(prev.households, b);
        assert(pair_state(s0, singles, k) == pair_one(prev, a, b));
    }
}

proof fn lemma_kept_are_members(hs: Seq<(u64, HouseholdView)>, removed: Seq<u64>)
    ensures
        forall|i: int|
            0 <= i < keep_unremoved(hs, removed).len() ==> exists|j: int|
                0 <= j < hs.len() && hs[j] == #[trigger] keep_unremoved(hs, removed)[i],
    decreases hs.len(),
{
    if hs.len() > 0 {
        let t = hs.drop_last();
        lemma_kept_are_members(t, removed);
        let k = keep_unremoved(hs, removed);
        assert forall|i: int| 0 <= i < k.len() implies exists|j: int| 0 <= j < hs.len() && hs[j] == #[trigger] k[i] by {
            if i < keep_unremoved(t, removed).len() {
                let j = choose|j: int| 0 <= j < t.len() && t[j] == keep_unremoved(t, removed)[i];
                assert(hs[j] == t[j]);
            } else {
                assert(hs[hs.len() - 1] == k[i]);
            }
        }
    }
}

/// Household dynamics only ever create queue pressure: after the pass,
/// every housed household was housed before in the same dwelling, and every
/// household a fission founds is unhoused and queued.
pub proof fn law_dynamics_houses_nobody(b: BookView, frame: u32, fresh: Seq<u64>, next_id: u64, e: u64, d: u64)
    requires
        fresh.len() == fission_count(b, frame),
    ensures
        housed_in(dynamics_pass(b, frame, fresh, next_id).0.households, e, d) ==> housed_in(b.households, e, d),
        dynamics_due(frame) ==> dynamics_pass(b, frame, fresh, next_id).0.queue.subrange(
            dynamics_pass(b, frame, fresh, next_id).0.queue.len() - fresh.len(),
            dynamics_pass(b, frame, fresh, next_id).0.queue.len() as int,
        ) == fresh,
{
    if dynamics_due(frame) {
        let shed = shed_members(b.households, b.households.len() as int);
        let hs1 = b.households.map_values(|p: (u64, HouseholdView)| after_fission(p));
        let singles = queued_singles(hs1, b.queue, b.queue.len() as int);
        let s0 = PairState { households: hs1, queue: b.queue, removed: Seq::empty(), moves: Seq::empty() };
        let k = singles.len() as int / 2;
        let st = pair_state(s0, singles, k);
        let founded_hs = Seq::new(shed.len(), |t: int| founded(fresh[t], next_id, t, shed[t]));
        let kept = keep_unremoved(st.households, st.removed);
        let out = dynamics_pass(b, frame, fresh, next_id).0;
        assert(out.households == kept + founded_hs);
        lemma_pairing_keeps_keys_and_homes(s0, singles, k);
        lemma_kept_are_members(st.households, st.removed);
        if housed_in(out.households, e, d) {
            let i = choose|i: int| 0 <= i < out.households.len() && (#[trigger] out.households[i]).0 == e
                && out.households[i].1.dwelling == Some(d);
            if i < kept.len() {
                assert(out.households[i] == kept[i]);
                let j = choose|j: int| 0 <= j < st.households.len() && st.households[j] == #[trigger] kept[i];
                assert(st.households[j].0 == hs1[j].0);
                assert(hs1[j] == after_fission(b.households[j]));
                assert(b.households[j].0 == e && b.households[j].1.dwelling == Some(d));
            } else {
                assert(out.households[i] == founded_hs[i - kept.len()]);
            }
        }
        assert(out.queue == st.queue + fresh);
        assert(out.queue.subrange(out.queue.len() - fresh.len(), out.queue.len() as int) =~= fresh);
    }
}


/// Citizens on the books: the members of every household, summed.
pub open spec fn member_total(hs: Seq<(u64, HouseholdView)>) -> nat
    decreases hs.len(),
{
    if hs.len() == 0 {
        0
    } else {
        member_total(hs.drop_last()) + hs.last().1.members.len()
    }
}

/// Whether no two households share an entity.
pub open spec fn keys_distinct(hs: Seq<(u64, HouseholdView)>) -> bool {
    forall|i: int, j: int| 0 <= i < j < hs.len() ==> (#[trigger] hs[i]).0 != (#[trigger] hs[j]).0
}

proof fn lemma_total_concat(a: Seq<(u64, HouseholdView)>, b: Seq<(u64, HouseholdView)>)
    ensures
        member_total(a + b) == member_total(a) + member_total(b),
    decreases b.len(),
{
    if b.len() > 0 {
        assert((a + b).drop_last() =~= a + b.drop_last());
        lemma_total_concat(a, b.drop_last());
    } else {
        assert(a + b =~= a);
    }
}

proof fn lemma_total_update(hs: Seq<(u64, HouseholdView)>, i: int, x: (u64, HouseholdView))
    requires
        0 <= i < hs.len(),
    ensures
        member_total(hs.update(i, x)) + hs[i].1.members.len() == member_total(hs) + x.1.members.len(),
    decreases hs.len(),
{
    let u = hs.update(i, x);
    if i < hs.len() - 1 {
        assert(u.drop_last() =~= hs.drop_last().update(i, x));
        lemma_total_update(hs.drop_last(), i, x);
    } else {
        assert(u.drop_last() =~= hs.drop_last());
    }
}

proof fn lemma_shed_prefix(hs: Seq<(u64, HouseholdView)>, t: Seq<(u64, HouseholdView)>, n: int)
    requires
        0 <= n <= t.len(),
        n <= hs.len(),
        forall|i: int| 0 <= i < n ==> hs[i] == t[i],
    ensures
        shed_members(hs, n) == shed_members(t, n),
    decreases n,
{
    if n > 0 {
        lemma_shed_prefix(hs, t, n - 1);
    }
}

proof fn lemma_fission_moves_members(hs: Seq<(u64, HouseholdView)>)
    ensures
        member_total(hs.map_values(|p: (u64, HouseholdView)| after_fission(p))) + shed_members(
            hs,
            hs.len() as int,
        ).len() == member_total(hs),
    decreases hs.len(),
{
    if hs.len() > 0 {
        let t = hs.drop_last();
        let m = hs.map_values(|p: (u64, HouseholdView)| after_fission(p));
        assert(m.drop_last() =~= t.map_values(|p: (u64, HouseholdView)| after_fission(p)));
        lemma_fission_moves_members(t);
        lemma_shed_prefix(hs, t, t.len() as int);
        assert(m.last() == after_fission(hs.last()));
    }
}

proof fn lemma_index_same_keys(hs: Seq<(u64, HouseholdView)>, gs: Seq<(u64, HouseholdView)>, e: u64)
    requires
        hs.len() == gs.len(),
        forall|i: int| 0 <= i < hs.len() ==> (#[trigger] hs[i]).0 == gs[i].0,
    ensures
        household_index(hs, e) == household_index(gs, e),
    decreases hs.len(),
{
    if hs.len() > 0 {
        lemma_index_same_keys(hs.drop_last(), gs.drop_last(), e);
        assert(hs.last().0 == gs.last().0);
    }
}

/// What the couple pass keeps true after its first `k` pairs.
spec fn pairing_invariant(s0: PairState, singles: Seq<u64>, k: int) -> bool {
    let st = pair_state(s0, singles, k);
    &&& member_total(st.households) == member_total(s0.households) + k
    &&& st.removed =~= Seq::new(k as nat, |t: int| singles[2 * t + 1])
    &&& forall|j: int|
        0 <= j < singles.len() && ((j % 2 == 1 && j < 2 * k) || j >= 2 * k) ==> st.households[household_index(
            s0.households,
            #[trigger] singles[j],
        )] == s0.households[household_index(s0.households, singles[j])]
}

proof fn lemma_pairing_moves_one_member_per_pair(s0: PairState, singles: Seq<u64>, k: int)
    requires
        0 <= k <= singles.len() / 2,
        s0.removed.len() == 0,
        keys_distinct(s0.households),
        singles.no_duplicates(),
        forall|j: int| 0 <= j < singles.len() ==> is_queued_single(s0.households, #[trigger] singles[j]),
    ensures
        pairing_invariant(s0, singles, k),
    decreases k,
{
    lemma_pairing_keeps_keys_and_homes(s0, singles, k);
    if k > 0 {
        lemma_pairing_moves_one_member_per_pair(s0, singles, k - 1);
        lemma_pairing_keeps_keys_and_homes(s0, singles, k - 1);
        let prev = pair_state(s0, singles, k - 1);
        let a = singles[2 * k - 2];
        let b = singles[2 * k - 1];
        lemma_index_same_keys(prev.households, s0.households, a);
        lemma_index_same_keys(prev.households, s0.households, b);
        lemma_household_index_bounds(s0.households, a);
        lemma_household_index_bounds(s0.households, b);
        let ai = household_index(s0.households, a);
        let bi = household_index(s0.households, b);
        assert(is_queued_single(s0.households, a));
        assert(is_queued_single(s0.households, b));
        assert(a != b);
        assert(ai != bi);
        assert(prev.households[bi] == s0.households[bi]);
        let partner = prev.households[bi].1.members[0];
        let (ae, ah) = prev.households[ai];
        let x = (ae, HouseholdView { id: ah.id, members: ah.members.push(partner), dwelling: ah.dwelling });
        let st = pair_state(s0, singles, k);
        assert(st == pair_one(prev, a, b));
        assert(st.households == prev.households.update(ai, x));
        lemma_total_update(prev.households, ai, x);
        assert(st.removed =~= Seq::new(k as nat, |t: int| singles[2 * t + 1]));
        assert forall|j: int|
            0 <= j < singles.len() && ((j % 2 == 1 && j < 2 * k) || j >= 2 * k) implies st.households[household_index(
                s0.households,
                #[trigger] singles[j],
            )] == s0.households[household_index(s0.households, singles[j])] by {
            assert(j != 2 * k - 2);
            assert(singles[j] != a);
            lemma_household_index_bounds(s0.households, singles[j]);
            assert(is_queued_single(s0.households, singles[j]));
            let xi = household_index(s0.households, singles[j]);
            assert(s0.households[xi].0 == singles[j]);
            assert(xi != ai);
        }
    }
}

/// Members of the households whose entity is in `removed`.
spec fn removed_total(hs: Seq<(u64, HouseholdView)>, removed: Seq<u64>) -> nat
    decreases hs.len(),
{
    if hs.len() == 0 {
        0
    } else {
        removed_total(hs.drop_last(), removed) + if removed.contains(hs.last().0) {
            hs.last().1.members.len()
        } else {
            0
        }
    }
}

proof fn lemma_keep_splits_total(hs: Seq<(u64, HouseholdView)>, removed: Seq<u64>)
    ensures
        member_total(keep_unremoved(hs, removed)) + removed_total(hs, removed) == member_total(hs),
    decreases hs.len(),
{
    if hs.len() > 0 {
        lemma_keep_splits_total(hs.drop_last(), removed);
        let k = keep_unremoved(hs.drop_last(), removed);
        if !removed.contains(hs.last().0) {
            assert(keep_unremoved(hs, removed).drop_last() =~= k);
        }
    }
}

proof fn lemma_without_contains(q: Seq<u64>, e: u64)
    ensures
        forall|y: u64| #[trigger] without(q, e).contains(y) <==> (q.contains(y) && y != e),
        q.no_duplicates() ==> without(q, e).no_duplicates(),
        q.no_duplicates() ==> without(q, e).len() + (if q.contains(e) { 1int } else { 0int }) == q.len(),
    decreases q.len(),
{
    if q.len() > 0 {
        let t = q.drop_last();
        lemma_without_contains(t, e);
        let w = without(t, e);
        assert forall|y: u64| without(q, e).contains(y) <==> (q.contains(y) && y != e) by {
            if q.contains(y) && y != e {
                let k = choose|k: int| 0 <= k < q.len() && q[k] == y;
                if k < t.len() {
                    assert(t[k] == y);
                    assert(w.contains(y));
                    if q.last() != e {
                        let m = choose|m: int| 0 <= m < w.len() && w[m] == y;
                        assert(w.push(q.last())[m] == y);
                    }
                } else {
                    assert(w.push(q.last())[w.len() as int] == y);
                }
            }
            if without(q, e).contains(y) {
                if q.last() != e {
                    assert(without(q, e) == w.push(q.last()));
                    let m = choose|m: int| 0 <= m < w.push(q.last()).len() && #[trigger] w.push(q.last())[m] == y;
                    if m < w.len() {
                        assert(w[m] == y);
                        assert(w.contains(y));
                        let k = choose|k: int| 0 <= k < t.len() && t[k] == y;
                        assert(q[k] == y);
                    } else {
                        assert(q[q.len() - 1] == y);
                    }
                } else {
                    assert(without(q, e) == w);
                    assert(w.contains(y));
                    let k = choose|k: int| 0 <= k < t.len() && t[k] == y;
                    assert(q[k] == y);
                }
            }
        }
        if q.no_duplicates() {
            assert(t.no_duplicates()) by {
                assert forall|i: int, j: int| 0 <= i < t.len() && 0 <= j < t.len() && i != j implies t[i] != t[j] by {
                    assert(q[i] == t[i] && q[j] == t[j]);
                }
            }
            assert(!t.contains(q.last())) by {
                if t.contains(q.last()) {
                    let k = choose|k: int| 0 <= k < t.len() && t[k] == q.last();
                    assert(q[k] == q[q.len() - 1]);
                }
            }
            if q.last() != e {
                assert(!w.contains(q.last()));
                lemma_push_distinct(w, q.last());
                assert(q.contains(e) == t.contains(e)) by {
                    if q.contains(e) {
                        let k = choose|k: int| 0 <= k < q.len() && q[k] == e;
                        assert(k < t.len());
                        assert(t[k] == e);
                    }
                    if t.contains(e) {
                        let k = choose|k: int| 0 <= k < t.len() && t[k] == e;
                        assert(q[k] == e);
                    }
                }
            } else {
                assert(q.contains(e)) by {
                    assert(q[q.len() - 1] == e);
                }
            }
        }
    }
}

proof fn lemma_removed_total_ignores(hs: Seq<(u64, HouseholdView)>, removed: Seq<u64>, e: u64)
    requires
        forall|i: int| 0 <= i < hs.len() ==> (#[trigger] hs[i]).0 != e,
    ensures
        removed_total(hs, removed) == removed_total(hs, without(removed, e)),
    decreases hs.len(),
{
    lemma_without_contains(removed, e);
    if hs.len() > 0 {
        lemma_removed_total_ignores(hs.drop_last(), removed, e);
        assert(hs[hs.len() - 1].0 != e);
    }
}

proof fn lemma_removed_singles_count(hs: Seq<(u64, HouseholdView)>, removed: Seq<u64>)
    requires
        keys_distinct(hs),
        removed.no_duplicates(),
        forall|r: u64| removed.contains(r) ==> exists|i: int| 0 <= i < hs.len() && (#[trigger] hs[i]).0 == r,
        forall|i: int| 0 <= i < hs.len() && removed.contains((#[trigger] hs[i]).0) ==> hs[i].1.members.len() == 1,
    ensures
        removed_total(hs, removed) == removed.len(),
    decreases hs.len(),
{
    if hs.len() == 0 {
        if removed.len() > 0 {
            assert(removed.contains(removed[0]));
        }
    } else {
        let t = hs.drop_last();
        let e = hs.last().0;
        let w = without(removed, e);
        lemma_without_contains(removed, e);
        assert(keys_distinct(t)) by {
            assert forall|i: int, j: int| 0 <= i < j < t.len() implies (#[trigger] t[i]).0 != (#[trigger] t[j]).0 by {
                assert(hs[i] == t[i] && hs[j] == t[j]);
            }
        }
        assert forall|i: int| 0 <= i < t.len() implies (#[trigger] t[i]).0 != e by {
            assert(hs[i] == t[i]);
            assert(hs[hs.len() - 1].0 == e);
        }
        assert forall|r: u64| w.contains(r) implies exists|i: int| 0 <= i < t.len() && (#[trigger] t[i]).0 == r by {
            assert(removed.contains(r) && r != e);
            let i = choose|i: int| 0 <= i < hs.len() && (#[trigger] hs[i]).0 == r;
            assert(hs[hs.len() - 1].0 == e);
            assert(i != hs.len() - 1);
            assert(t[i] == hs[i]);
        }
        assert forall|i: int| 0 <= i < t.len() && w.contains((#[trigger] t[i]).0) implies t[i].1.members.len() == 1 by {
            assert(hs[i] == t[i]);
        }
        lemma_removed_singles_count(t, w);
        lemma_removed_total_ignores(t, removed, e);
        if removed.contains(e) {
            assert(hs[hs.len() - 1].1.members.len() == 1);
        }
    }
}

proof fn lemma_singles_distinct(hs: Seq<(u64, HouseholdView)>, q: Seq<u64>, n: int)
    requires
        0 <= n <= q.len(),
        q.no_duplicates(),
    ensures
        queued_singles(hs, q, n).no_duplicates(),
        forall|x: u64| #[trigger] queued_singles(hs, q, n).contains(x) ==> exists|i: int| 0 <= i < n && #[trigger] q[i] == x,
    decreases n,
{
    if n > 0 {
        lemma_singles_distinct(hs, q, n - 1);
        let s = queued_singles(hs, q, n - 1);
        if is_queued_single(hs, q[n - 1]) {
            assert(!s.contains(q[n - 1])) by {
                if s.contains(q[n - 1]) {
                    let i = choose|i: int| 0 <= i < n - 1 && #[trigger] q[i] == q[n - 1];
                    assert(q[i] == q[n - 1]);
                }
            }
            lemma_push_distinct(s, q[n - 1]);
            assert forall|x: u64| #[trigger] s.push(q[n - 1]).contains(x) implies exists|i: int| 0 <= i < n && #[trigger] q[i] == x by {
                let m = choose|m: int| 0 <= m < s.push(q[n - 1]).len() && #[trigger] s.push(q[n - 1])[m] == x;
                if m < s.len() {
                    assert(s.contains(x));
                    let i = choose|i: int| 0 <= i < n - 1 && #[trigger] q[i] == x;
                    assert(q[i] == x);
                } else {
                    assert(q[n - 1] == x);
                }
            }
        }
    }
}

/// Household dynamics move citizens between households and never lose or
/// invent one: with distinct household entities and a queue without
/// repeats, the books hold as many members after the pass as before.
pub proof fn law_dynamics_conserve_members(b: BookView, frame: u32, fresh: Seq<u64>, next_id: u64)
    requires
        fresh.len() == fission_count(b, frame),
        keys_distinct(b.households),
        b.queue.no_duplicates(),
    ensures
        member_total(dynamics_pass(b, frame, fresh, next_id).0.households) == member_total(b.households),
{
    if dynamics_due(frame) {
        let shed = shed_members(b.households, b.households.len() as int);
        let hs1 = b.households.map_values(|p: (u64, HouseholdView)| after_fission(p));
        let singles = queued_singles(hs1, b.queue, b.queue.len() as int);
        let s0 = PairState { households: hs1, queue: b.queue, removed: Seq::empty(), moves: Seq::empty() };
        let k = singles.len() as int / 2;
        let st = pair_state(s0, singles, k);
        let founded_hs = Seq::new(shed.len(), |t: int| founded(fresh[t], next_id, t, shed[t]));
        let kept = keep_unremoved(st.households, st.removed);
        let out = dynamics_pass(b, frame, fresh, next_id).0;
        assert(out.households == kept + founded_hs);
        lemma_fission_moves_members(b.households);
        assert(keys_distinct(hs1)) by {
            assert forall|i: int, j: int| 0 <= i < j < hs1.len() implies (#[trigger] hs1[i]).0 != (#[trigger] hs1[j]).0 by {
                assert(hs1[i] == after_fission(b.households[i]));
                assert(hs1[j] == after_fission(b.households[j]));
            }
        }
        lemma_singles_distinct(hs1, b.queue, b.queue.len() as int);
        assert forall|j: int| 0 <= j < singles.len() implies is_queued_single(hs1, #[trigger] singles[j]) by {
            lemma_singles_are_singles(hs1, b.queue, b.queue.len() as int, j);
        }
        lemma_pairing_moves_one_member_per_pair(s0, singles, k);
        lemma_pairing_keeps_keys_and_homes(s0, singles, k);
        lemma_keep_splits_total(st.households, st.removed);
        // the removed households are the odd singles, untouched, one member each
        assert(keys_distinct(st.households)) by {
            assert forall|i: int, j: int| 0 <= i < j < st.households.len() implies (#[trigger] st.households[i]).0
                != (#[trigger] st.households[j]).0 by {
                assert(st.households[i].0 == hs1[i].0);
                assert(st.households[j].0 == hs1[j].0);
            }
        }
        assert(st.removed.no_duplicates()) by {
            assert forall|x: int, y: int| 0 <= x < st.removed.len() && 0 <= y < st.removed.len() && x != y implies st.removed[x]
                != st.removed[y] by {
                assert(st.removed[x] == singles[2 * x + 1]);
                assert(st.removed[y] == singles[2 * y + 1]);
            }
        }
        assert forall|r: u64| st.removed.contains(r) implies exists|i: int|
            0 <= i < st.households.len() && (#[trigger] st.households[i]).0 == r by {
            let x = choose|x: int| 0 <= x < st.removed.len() && st.removed[x] == r;
            assert(st.removed[x] == singles[2 * x + 1]);
            assert(is_queued_single(hs1, singles[2 * x + 1]));
            lemma_household_index_bounds(hs1, r);
            let i = household_index(hs1, r);
            assert(st.households[i].0 == hs1[i].0);
        }
        assert forall|i: int|
            0 <= i < st.households.len() && st.removed.contains((#[trigger] st.households[i]).0) implies st.households[i].1.members.len()
            == 1 by {
            let r = st.households[i].0;
            let x = choose|x: int| 0 <= x < st.removed.len() && st.removed[x] == r;
            let j = 2 * x + 1;
            assert(st.removed[x] == singles[j]);
            assert(j % 2 == 1 && j < 2 * k);
            assert(is_queued_single(hs1, singles[j]));
            lemma_household_index_bounds(hs1, r);
            let xi = household_index(hs1, r);
            assert(st.households[xi] == hs1[xi]);
            assert(hs1[xi].0 == r);
            assert(st.households[i].0 == hs1[i].0);
            assert(xi == i);
        }
        lemma_removed_singles_count(st.households, st.removed);
        lemma_total_concat(kept, founded_hs);
        assert(member_total(founded_hs) == founded_hs.len()) by {
            lemma_founded_total(founded_hs);
        }
    }
}

proof fn lemma_founded_total(fs: Seq<(u64, HouseholdView)>)
    requires
        forall|i: int| 0 <= i < fs.len() ==> (#[trigger] fs[i]).1.members.len() == 1,
    ensures
        member_total(fs) == fs.len(),
    decreases fs.len(),
{
    if fs.len() > 0 {
        assert forall|i: int| 0 <= i < fs.drop_last().len() implies (#[trigger] fs.drop_last()[i]).1.members.len() == 1 by {
            assert(fs.drop_last()[i] == fs[i]);
        }
        lemma_founded_total(fs.drop_last());
        assert(fs[fs.len() - 1] == fs.last());
    }
}


proof fn lemma_push_distinct(s: Seq<u64>, x: u64)
    requires
        s.no_duplicates(),
        !s.contains(x),
    ensures
        s.push(x).no_duplicates(),
{
    let t = s.push(x);
    assert forall|i: int, j: int| 0 <= i < t.len() && 0 <= j < t.len() && i != j implies #[trigger] t[i] != #[trigger] t[j] by {
        if i < s.len() && j < s.len() {
            assert(t[i] == s[i] && t[j] == s[j]);
        } else if i < s.len() {
            assert(t[i] == s[i]);
            assert(s.contains(s[i]));
        } else if j < s.len() {
            assert(t[j] == s[j]);
            assert(s.contains(s[j]));
        }
    }
}

} // verus!
