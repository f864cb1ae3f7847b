//! Public transit: player-drawn bus lines over the one road network. A line
//! is an ordered loop of bus stops; buses dwell at each stop to let riders
//! off and board the stop's queue, first come first served, while seats
//! remain.
use vstd::prelude::*;
use crate::vehicles::VehicleKind;

verus! {

/// Seats on a bus; boarding stops at capacity.
pub const BUS_CAPACITY: usize = 30;

/// Ticks a bus dwells at each stop.
pub const BUS_DWELL_TICKS: u32 = 40;

#[derive(Clone, Copy, PartialEq, Eq, Debug, Structural)]
pub struct LineId(pub u64);

/// A bus line: buses serve `stops[0] → stops[1] → … → stops[0]` forever.
pub struct TransitLine {
    pub id: LineId,
    pub stops: Vec<u64>,
}

impl TransitLine {
    /// The stop after `index`, wrapping the loop.
    pub fn next_stop(&self, index: usize) -> (r: usize)
        requires
            self.stops@.len() > 0,
            index < usize::MAX,
        ensures
            r == (index + 1) % (self.stops@.len() as int),
            r < self.stops@.len(),
    {
        (index + 1) % self.stops.len()
    }

    /// The stop a bus heading for `index` drives to (the index wraps).
    pub fn stop_at(&self, index: usize) -> (r: u64)
        requires
            self.stops@.len() > 0,
        ensures
            r == self.stops@[index as int % self.stops@.len() as int],
    {
        self.stops[index % self.stops.len()]
    }
}

/// Service state on a bus: which line, which stop it heads for, the dwell
/// countdown, and its riders as (commuter pawn, alight stop).
pub struct BusDuty {
    pub line: u64,
    pub next_stop: usize,
    pub dwell: u32,
    pub riders: Vec<(u64, u64)>,
}

/// A fleet asset as the bus assignment sees it.
#[derive(Clone, Copy, PartialEq, Eq, Debug, Structural)]
pub struct FleetEntry {
    pub entity: u64,
    pub kind: VehicleKind,
    pub home_depot: u64,
    /// A pawn of this asset is out on the road.
    pub on_road: bool,
    /// The asset already serves a line.
    pub on_duty: bool,
}

/// An idle bus parked at `depot`.
pub open spec fn idle_bus_at(f: FleetEntry, depot: u64) -> bool {
    f.kind == VehicleKind::Bus && f.home_depot == depot && !f.on_road && !f.on_duty
}

/// The bus a line assignment takes from `depot`: the first idle bus parked
/// there, in fleet order.
pub fn pick_idle_bus(fleet: &Vec<FleetEntry>, depot: u64) -> (r: Option<u64>)
    ensures
        r is None <==> forall|i: int| 0 <= i < fleet.len() ==> !idle_bus_at(#[trigger] fleet@[i], depot),
        r matches Some(e) ==> exists|i: int|
            0 <= i < fleet.len() && idle_bus_at(fleet@[i], depot) && fleet@[i].entity == e && forall|j: int|
                0 <= j < i ==> !idle_bus_at(#[trigger] fleet@[j], depot),
{
    let mut i: usize = 0;
    while i < fleet.len()
        invariant
            i <= fleet.len(),
            forall|j: int| 0 <= j < i ==> !idle_bus_at(#[trigger] fleet@[j], depot),
        decreases fleet.len() - i,
    {
        let f = fleet[i];
        let is_bus = match f.kind {
            VehicleKind::Bus => true,
            _ => false,
        };
        if is_bus && f.home_depot == depot && !f.on_road && !f.on_duty {
            assert(idle_bus_at(fleet@[i as int], depot));
            return Some(f.entity);
        }
        i = i + 1;
    }
    None
}

impl BusDuty {
    /// A bus newly assigned to `line` heads for its first stop with no
    /// riders.
    pub fn new(line: u64) -> (r: BusDuty)
        ensures
            r.line == line,
            r.next_stop == 0,
            r.dwell == 0,
            r.riders@.len() == 0,
    {
        BusDuty { line, next_stop: 0, dwell: 0, riders: Vec::new() }
    }

    /// One tick of the dwell countdown: while it runs the bus stays put
    /// (`true`); at zero it is ready to drive on.
    pub fn dwell_tick(&mut self) -> (dwelling: bool)
        ensures
            dwelling == (old(self).dwell > 0),
            final(self).dwell == if old(self).dwell > 0 { old(self).dwell - 1 } else { 0 },
            final(self).line == old(self).line,
            final(self).next_stop == old(self).next_stop,
            final(self).riders@ == old(self).riders@,
    {
        if self.dwell > 0 {
            self.dwell = self.dwell - 1;
            true
        } else {
            false
        }
    }
}

pub struct TransitIds {
    pub next_line: u64,
}

impl TransitIds {
    pub fn allocate(&mut self) -> (r: LineId)
        requires
            old(self).next_line < u64::MAX,
        ensures
            final(self).next_line == old(self).next_line + 1,
            r.0 == final(self).next_line,
    {
        self.next_line = self.next_line + 1;
        LineId(self.next_line)
    }
}

/// A rider stays aboard at `stop` unless this is their stop or their stop
/// has been demolished.
pub open spec fn stays_aboard(r: (u64, u64), stop: u64, live: Seq<u64>) -> bool {
    r.1 != stop && live.contains(r.1)
}

/// Riders among the first `n` that stay aboard (or that step off, when
/// `aboard` is false), in order.
pub open spec fn riders_where(riders: Seq<(u64, u64)>, stop: u64, live: Seq<u64>, aboard: bool, n: int) -> Seq<(u64, u64)>
    decreases n,
{
    if n <= 0 {
        Seq::empty()
    } else {
        let s = riders_where(riders, stop, live, aboard, n - 1);
        if stays_aboard(riders[n - 1], stop, live) == aboard { s.push(riders[n - 1]) } else { s }
    }
}

/// FIFO boarding: front to back, while seats remain, every waiting rider
/// whose alight stop this line serves (and whose pawn still exists) boards;
/// the rest keep their place. Yields (boarded, still waiting).
pub open spec fn board(queue: Seq<(u64, u64)>, line: Seq<u64>, pawns: Seq<u64>, seats: nat) -> (Seq<(u64, u64)>, Seq<(u64, u64)>)
    decreases queue.len(),
{
    if queue.len() == 0 {
        (Seq::empty(), Seq::empty())
    } else if seats == 0 {
        (Seq::empty(), queue)
    } else if line.contains(queue[0].1) && pawns.contains(queue[0].0) {
        let r = board(queue.drop_first(), line, pawns, (seats - 1) as nat);
        (seq![queue[0]] + r.0, r.1)
    } else {
        let r = board(queue.drop_first(), line, pawns, seats);
        (r.0, seq![queue[0]] + r.1)
    }
}

/// Seats free with `n` riders aboard.
pub open spec fn free_seats(n: nat) -> nat {
    if n < BUS_CAPACITY { (BUS_CAPACITY - n) as nat } else { 0 }
}

fn contains_u64(v: &Vec<u64>, e: u64) -> (r: bool)
    ensures
        r == v@.contains(e),
{
    let mut i: usize = 0;
    while i < v.len()
        invariant
            i <= v@.len(),
            forall|j: int| 0 <= j < i ==> v@[j] != e,
        decreases v.len() - i,
    {
        if v[i] == e {
            assert(v@[i as int] == e);
            return true;
        }
        i = i + 1;
    }
    false
}

proof fn lemma_board_step(q: Seq<(u64, u64)>, line: Seq<u64>, pawns: Seq<u64>, seats: nat, j: int)
    requires
        0 <= j < q.len(),
        seats > 0,
    ensures
        board(q.skip(j), line, pawns, seats) == if line.contains(q[j].1) && pawns.contains(q[j].0) {
            let r = board(q.skip(j + 1), line, pawns, (seats - 1) as nat);
            (seq![q[j]] + r.0, r.1)
        } else {
            let r = board(q.skip(j + 1), line, pawns, seats);
            (r.0, seq![q[j]] + r.1)
        },
{
    assert(q.skip(j).drop_first() =~= q.skip(j + 1));
    assert(q.skip(j)[0] == q[j]);
}

impl BusDuty {
    /// The bus has arrived at `stop` on `line`: riders for this stop (or for
    /// a demolished stop, absent from `live_stops`) step off; then the stop's
    /// queue boards FIFO while seats remain. Starts the dwell and advances to
    /// the next stop of the loop. Returns (stepped off, boarded).
    pub fn serve_stop(
        &mut self,
        line: &TransitLine,
        stop: u64,
        queue: &mut Vec<(u64, u64)>,
        live_stops: &Vec<u64>,
        live_pawns: &Vec<u64>,
    ) -> (r: (Vec<(u64, u64)>, Vec<(u64, u64)>))
        requires
            line.stops@.len() > 0,
            old(self).next_stop < usize::MAX,
        ensures
            r.0@ == riders_where(old(self).riders@, stop, live_stops@, false, old(self).riders@.len() as int),
            r.1@ == board(
                old(queue)@,
                line.stops@,
                live_pawns@,
                free_seats(riders_where(old(self).riders@, stop, live_stops@, true, old(self).riders@.len() as int).len()),
            ).0,
            final(self).riders@ == riders_where(old(self).riders@, stop, live_stops@, true, old(self).riders@.len() as int)
                + r.1@,
            final(queue)@ == board(
                old(queue)@,
                line.stops@,
                live_pawns@,
                free_seats(riders_where(old(self).riders@, stop, live_stops@, true, old(self).riders@.len() as int).len()),
            ).1,
            final(self).dwell == BUS_DWELL_TICKS,
            final(self).next_stop == (old(self).next_stop + 1) % (line.stops@.len() as int),
            final(self).line == old(self).line,
    {
        let ghost r0 = self.riders@;
        // Alight first: their seats free up for boarding.
        let mut stay: Vec<(u64, u64)> = Vec::new();
        let mut off: Vec<(u64, u64)> = Vec::new();
        let mut i: usize = 0;
        while i < self.riders.len()
            invariant
                i <= self.riders@.len(),
                self.riders@ == r0,
                stay@ == riders_where(r0, stop, live_stops@, true, i as int),
                off@ == riders_where(r0, stop, live_stops@, false, i as int),
            decreases self.riders.len() - i,
        {
            let rider = self.riders[i];
            if rider.1 != stop && contains_u64(live_stops, rider.1) {
                stay.push(rider);
            } else {
                off.push(rider);
            }
            i = i + 1;
        }
        // Board FIFO while seats remain.
        let ghost kept = stay@;
        self.riders = stay;
        let ghost q0 = queue@;
        let ghost seats0 = free_seats(kept.len());
        let mut boarded: Vec<(u64, u64)> = Vec::new();
        let mut waiting: Vec<(u64, u64)> = Vec::new();
        let mut j: usize = 0;
        proof {
            assert(q0.skip(0) =~= q0);
            let b0 = board(q0, line.stops@, live_pawns@, seats0);
            assert(Seq::<(u64, u64)>::empty() + b0.0 =~= b0.0);
            assert(Seq::<(u64, u64)>::empty() + b0.1 =~= b0.1);
        }
        while j < queue.len()
            invariant
                j <= queue@.len(),
                queue@ == q0,
                self.riders@ == kept + boarded@,
                self.next_stop == old(self).next_stop,
                self.line == old(self).line,
                old(self).next_stop < usize::MAX,
                line.stops@.len() > 0,
                board(q0, line.stops@, live_pawns@, seats0) == (
                    boarded@ + board(q0.skip(j as int), line.stops@, live_pawns@, free_seats(self.riders@.len())).0,
                    waiting@ + board(q0.skip(j as int), line.stops@, live_pawns@, free_seats(self.riders@.len())).1,
                ),
                seats0 == free_seats(kept.len()),
                boarded@.len() <= seats0,
            decreases queue.len() - j,
        {
            let entry = queue[j];
            let seated = self.riders.len();
            proof {
                assert(seated < BUS_CAPACITY ==> free_seats(seated as nat) > 0);
            }
            if seated < BUS_CAPACITY {
                proof {
                    lemma_board_step(q0, line.stops@, live_pawns@, free_seats(seated as nat), j as int);
                }
                if contains_u64(&line.stops, entry.1) && contains_u64(live_pawns, entry.0) {
                    let ghost bb = boarded@;
                    boarded.push(entry);
                    self.riders.push(entry);
                    proof {
                        assert(free_seats((seated + 1) as nat) == (free_seats(seated as nat) - 1) as nat);
                        assert(self.riders@ =~= kept + boarded@);
                        assert(boarded@ + board(q0.skip(j as int + 1), line.stops@, live_pawns@, free_seats(self.riders@.len())).0
                            =~= bb + (seq![entry] + board(q0.skip(j as int + 1), line.stops@, live_pawns@, free_seats(self.riders@.len())).0));
                    }
                } else {
                    let ghost ww = waiting@;
                    waiting.push(entry);
                    proof {
                        assert(waiting@ + board(q0.skip(j as int + 1), line.stops@, live_pawns@, free_seats(self.riders@.len())).1
                            =~= ww + (seq![entry] + board(q0.skip(j as int + 1), line.stops@, live_pawns@, free_seats(self.riders@.len())).1));
                    }
                }
            } else {
                let ghost ww = waiting@;
                waiting.push(entry);
                proof {
                    assert(free_seats(seated as nat) == 0);
                    assert(q0.skip(j as int) =~= seq![entry] + q0.skip(j as int + 1));
                    assert(waiting@ + q0.skip(j as int + 1) =~= ww + q0.skip(j as int));
                }
            }
            j = j + 1;
        }
        proof {
            assert(q0.skip(q0.len() as int) =~= Seq::<(u64, u64)>::empty());
            assert(boarded@ + Seq::<(u64, u64)>::empty() =~= boarded@);
            assert(waiting@ + Seq::<(u64, u64)>::empty() =~= waiting@);
        }
        *queue = waiting;
        self.dwell = BUS_DWELL_TICKS;
        self.next_stop = line.next_stop(self.next_stop);
        (off, boarded)
    }
}

/// A demolished shelter drops out of every line. Returns whether the line
/// survives (it dissolves with fewer than two stops left).
pub fn prune_dead_stops(line: &mut TransitLine, live_stops: &Vec<u64>) -> (keep: bool)
    ensures
        final(line).stops@ == filter_live(old(line).stops@, live_stops@, old(line).stops@.len() as int),
        final(line).id == old(line).id,
        keep == (final(line).stops@.len() >= 2),
{
    let ghost s0 = line.stops@;
    let mut kept: Vec<u64> = Vec::new();
    let mut i: usize = 0;
    while i < line.stops.len()
        invariant
            i <= line.stops@.len(),
            line.stops@ == s0,
            kept@ == filter_live(s0, live_stops@, i as int),
        decreases line.stops.len() - i,
    {
        let s = line.stops[i];
        if contains_u64(live_stops, s) {
            kept.push(s);
        }
        i = i + 1;
    }
    line.stops = kept;
    line.stops.len() >= 2
}

/// The first `n` stops that are still standing, in order.
pub open spec fn filter_live(stops: Seq<u64>, live: Seq<u64>, n: int) -> Seq<u64>
    decreases n,
{
    if n <= 0 {
        Seq::empty()
    } else {
        let s = filter_live(stops, live, n - 1);
        if live.contains(stops[n - 1]) { s.push(stops[n - 1]) } else { s }
    }
}

/// A line may be created over at least two stops, every one of them a
/// road-docked bus stop (`docked_stop[i]` for stop `i`).
pub fn line_accepted(stops: &Vec<u64>, docked_stop: &Vec<bool>) -> (r: bool)
    requires
        docked_stop@.len() == stops@.len(),
    ensures
        r == (stops@.len() >= 2 && forall|i: int| 0 <= i < docked_stop@.len() ==> docked_stop@[i]),
{
    if stops.len() < 2 {
        return false;
    }
    let mut i: usize = 0;
    while i < docked_stop.len()
        invariant
            i <= docked_stop@.len(),
            forall|j: int| 0 <= j < i ==> docked_stop@[j],
        decreases docked_stop.len() - i,
    {
        if !docked_stop[i] {
            return false;
        }
        i = i + 1;
    }
    true
}

proof fn lemma_board_counts(q: Seq<(u64, u64)>, line: Seq<u64>, pawns: Seq<u64>, seats: nat)
    ensures
        board(q, line, pawns, seats).0.len() <= seats,
        board(q, line, pawns, seats).0.len() + board(q, line, pawns, seats).1.len() == q.len(),
    decreases q.len(),
{
    if q.len() > 0 && seats > 0 {
        if line.contains(q[0].1) && pawns.contains(q[0].0) {
            lemma_board_counts(q.drop_first(), line, pawns, (seats - 1) as nat);
        } else {
            lemma_board_counts(q.drop_first(), line, pawns, seats);
        }
    }
}

proof fn lemma_split_counts(riders: Seq<(u64, u64)>, stop: u64, live: Seq<u64>, n: int)
    requires
        0 <= n <= riders.len(),
    ensures
        riders_where(riders, stop, live, true, n).len() + riders_where(riders, stop, live, false, n).len() == n,
    decreases n,
{
    if n > 0 {
        lemma_split_counts(riders, stop, live, n - 1);
    }
}

/// The seat law: serving a stop never seats more than `BUS_CAPACITY` riders
/// on a bus that arrived within capacity.
pub proof fn law_bus_never_overfills(riders: Seq<(u64, u64)>, queue: Seq<(u64, u64)>, line: Seq<u64>, pawns: Seq<u64>, stop: u64, live: Seq<u64>)
    requires
        riders.len() <= BUS_CAPACITY,
    ensures
        ({
            let kept = riders_where(riders, stop, live, true, riders.len() as int);
            kept.len() + board(queue, line, pawns, free_seats(kept.len())).0.len() <= BUS_CAPACITY
        }),
{
    let kept = riders_where(riders, stop, live, true, riders.len() as int);
    lemma_split_counts(riders, stop, live, riders.len() as int);
    lemma_board_counts(queue, line, pawns, free_seats(kept.len()));
}

/// The nobody-vanishes law: every rider either stays aboard or steps off,
/// and every queued commuter either boards or keeps waiting.
pub proof fn law_stop_service_conserves_riders(riders: Seq<(u64, u64)>, queue: Seq<(u64, u64)>, line: Seq<u64>, pawns: Seq<u64>, stop: u64, live: Seq<u64>, seats: nat)
    ensures
        riders_where(riders, stop, live, true, riders.len() as int).len() + riders_where(riders, stop, live, false, riders.len() as int).len()
            == riders.len(),
        board(queue, line, pawns, seats).0.len() + board(queue, line, pawns, seats).1.len() == queue.len(),
{
    lemma_split_counts(riders, stop, live, riders.len() as int);
    lemma_board_counts(queue, line, pawns, seats);
}

} // verus!
