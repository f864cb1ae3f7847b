//! Route requests and the packed road graph they are solved on. The search
//! itself weighs fractional lengths and speeds and runs elsewhere; here are
//! the ticket desk with its fixed resolve latency, the key that decides
//! when the packed graph is stale, and the packing.
use std::collections::HashMap;
use vstd::prelude::*;
use crate::roads::LaneDir;
use crate::save::first_index;
use crate::vehicles::RouteLeg;

verus! {

/// A ticket resolves exactly this many ticks after submission.
pub const RESOLVE_LATENCY_TICKS: u32 = 2;

#[derive(Clone, Copy, PartialEq, Eq, Debug, Structural)]
pub struct PathTicket(pub u64);

#[derive(Clone, Copy, PartialEq, Eq, Debug, Structural)]
pub enum CostProfile {
    Vehicle,
    Pedestrian,
}

/// One route request: ticket, start node, goal node, profile.
#[derive(Clone, Copy, PartialEq, Eq, Debug, Structural)]
pub struct PathRequest {
    pub ticket: PathTicket,
    pub start: u64,
    pub goal: u64,
    pub profile: CostProfile,
}

/// `frame - since` on the wrapping frame clock.
pub open spec fn age(frame: u32, since: u32) -> int {
    (frame as int - since as int) % 0x1_0000_0000int
}

/// What polling a ticket finds.
pub enum PathPoll {
    /// Still solving: hold in place.
    Pending,
    /// Solved; `None` means no route exists on the graph searched.
    Ready(Option<Vec<RouteLeg>>),
}

/// The front desk of the path solver: tickets handed out, requests not yet
/// launched, launched tickets with the frame they were launched on, and
/// solved routes waiting to be collected, by ticket number.
pub struct PathService {
    pub next_ticket: u64,
    pub submitted: Vec<PathRequest>,
    pub in_flight: Vec<(PathTicket, u32)>,
    pub ready: HashMap<u64, Option<Vec<RouteLeg>>>,
    /// Bumped by the congestion pass to force a fresh graph snapshot.
    pub congestion_version: u64,
}

/// Collecting `ticket` from the solved routes `ready`: what is left, and
/// what the poll returns.
pub open spec fn spec_poll(ready: Map<u64, Option<Vec<RouteLeg>>>, ticket: PathTicket) -> (Map<u64, Option<Vec<RouteLeg>>>, PathPoll) {
    if ready.contains_key(ticket.0) {
        (ready.remove(ticket.0), PathPoll::Ready(ready[ticket.0]))
    } else {
        (ready, PathPoll::Pending)
    }
}

/// Tickets of `in_flight` whose age at `frame` is below the latency.
pub open spec fn spec_still(in_flight: Seq<(PathTicket, u32)>, frame: u32) -> Seq<(PathTicket, u32)>
    decreases in_flight.len(),
{
    if in_flight.len() == 0 {
        Seq::empty()
    } else {
        let rest = spec_still(in_flight.drop_last(), frame);
        if age(frame, in_flight.last().1) < RESOLVE_LATENCY_TICKS {
            rest.push(in_flight.last())
        } else {
            rest
        }
    }
}

/// Tickets of `in_flight` due at `frame`, in launch order.
pub open spec fn spec_due(in_flight: Seq<(PathTicket, u32)>, frame: u32) -> Seq<PathTicket>
    decreases in_flight.len(),
{
    if in_flight.len() == 0 {
        Seq::empty()
    } else {
        let rest = spec_due(in_flight.drop_last(), frame);
        if age(frame, in_flight.last().1) < RESOLVE_LATENCY_TICKS {
            rest
        } else {
            rest.push(in_flight.last().0)
        }
    }
}

impl PathService {
    pub fn new() -> (r: PathService)
        ensures
            r.next_ticket == 0,
            r.submitted@.len() == 0,
            r.in_flight@.len() == 0,
            r.ready@ == Map::<u64, Option<Vec<RouteLeg>>>::empty(),
            r.congestion_version == 0,
    {
        PathService { next_ticket: 0, submitted: Vec::new(), in_flight: Vec::new(), ready: HashMap::new(), congestion_version: 0 }
    }

    /// File the solver's answer for `ticket`, to be collected by `poll`.
    pub fn deliver(&mut self, ticket: PathTicket, route: Option<Vec<RouteLeg>>)
        ensures
            final(self).ready@ == old(self).ready@.insert(ticket.0, route),
            final(self).submitted@ == old(self).submitted@,
            final(self).in_flight@ == old(self).in_flight@,
            final(self).next_ticket == old(self).next_ticket,
            final(self).congestion_version == old(self).congestion_version,
    {
        broadcast use vstd::std_specs::hash::group_hash_axioms;
        self.ready.insert(ticket.0, route);
    }

    /// Collect the answer for `ticket`: `Ready` once, and only once, after
    /// it was delivered; `Pending` before.
    pub fn poll(&mut self, ticket: PathTicket) -> (r: PathPoll)
        ensures
            (final(self).ready@, r) == spec_poll(old(self).ready@, ticket),
            final(self).submitted@ == old(self).submitted@,
            final(self).in_flight@ == old(self).in_flight@,
            final(self).next_ticket == old(self).next_ticket,
            final(self).congestion_version == old(self).congestion_version,
    {
        broadcast use vstd::std_specs::hash::group_hash_axioms;
        match self.ready.remove(&ticket.0) {
            Some(route) => PathPoll::Ready(route),
            None => PathPoll::Pending,
        }
    }

    /// Queue a route request; the ticket is fresh.
    pub fn request(&mut self, start: u64, goal: u64, profile: CostProfile) -> (r: PathTicket)
        requires
            old(self).next_ticket < u64::MAX,
        ensures
            final(self).next_ticket == old(self).next_ticket + 1,
            r.0 == final(self).next_ticket,
            final(self).submitted@ == old(self).submitted@.push(PathRequest { ticket: r, start, goal, profile }),
            final(self).in_flight@ == old(self).in_flight@,
            final(self).ready@ == old(self).ready@,
            final(self).congestion_version == old(self).congestion_version,
    {
        self.next_ticket = self.next_ticket + 1;
        let ticket = PathTicket(self.next_ticket);
        self.submitted.push(PathRequest { ticket, start, goal, profile });
        ticket
    }

    /// Hand out every queued request for launching, emptying the queue.
    pub fn take_submitted(&mut self) -> (r: Vec<PathRequest>)
        ensures
            r@ == old(self).submitted@,
            final(self).submitted@.len() == 0,
            final(self).in_flight@ == old(self).in_flight@,
            final(self).next_ticket == old(self).next_ticket,
            final(self).ready@ == old(self).ready@,
            final(self).congestion_version == old(self).congestion_version,
    {
        let mut taken: Vec<PathRequest> = Vec::new();
        std::mem::swap(&mut taken, &mut self.submitted);
        taken
    }

    /// Record that `ticket` was launched on `frame`.
    pub fn launch(&mut self, ticket: PathTicket, frame: u32)
        ensures
            final(self).in_flight@ == old(self).in_flight@.push((ticket, frame)),
            final(self).submitted@ == old(self).submitted@,
            final(self).next_ticket == old(self).next_ticket,
            final(self).ready@ == old(self).ready@,
            final(self).congestion_version == old(self).congestion_version,
    {
        self.in_flight.push((ticket, frame));
    }

    /// Release the tickets that are due at `frame` (wrap-safe age check)
    /// and keep the rest in flight, launch order kept on both sides.
    pub fn harvest(&mut self, frame: u32) -> (r: Vec<PathTicket>)
        ensures
            r@ == spec_due(old(self).in_flight@, frame),
            final(self).in_flight@ == spec_still(old(self).in_flight@, frame),
            final(self).submitted@ == old(self).submitted@,
            final(self).next_ticket == old(self).next_ticket,
            final(self).ready@ == old(self).ready@,
            final(self).congestion_version == old(self).congestion_version,
    {
        let ghost listed = self.in_flight@;
        let mut due: Vec<PathTicket> = Vec::new();
        let mut still: Vec<(PathTicket, u32)> = Vec::new();
        let mut i: usize = 0;
        while i < self.in_flight.len()
            invariant
                i <= self.in_flight.len(),
                self.in_flight@ == listed,
                due@ == spec_due(listed.subrange(0, i as int), frame),
                still@ == spec_still(listed.subrange(0, i as int), frame),
            decreases self.in_flight.len() - i,
        {
            proof {
                assert(listed.subrange(0, i as int + 1).drop_last() =~= listed.subrange(0, i as int));
            }
            let (ticket, since) = self.in_flight[i];
            if frame.wrapping_sub(since) < RESOLVE_LATENCY_TICKS {
                still.push((ticket, since));
            } else {
                due.push(ticket);
            }
            i = i + 1;
        }
        proof {
            assert(listed.subrange(0, listed.len() as int) =~= listed);
        }
        self.in_flight = still;
        due
    }
}

/// A ticket launched on frame `f` is held on the next frame and released
/// on the frame after, whatever the clock's wrap.
pub proof fn law_fixed_resolve_latency(ticket: PathTicket, f: u32)
    ensures
        spec_due(seq![(ticket, f)], ((f as int + 1) % 0x1_0000_0000int) as u32).len() == 0,
        spec_due(seq![(ticket, f)], ((f as int + 2) % 0x1_0000_0000int) as u32) == seq![ticket],
        spec_due(seq![(ticket, f)], f).len() == 0,
{
    reveal_with_fuel(spec_due, 2);
    let s = seq![(ticket, f)];
    assert(s.drop_last() =~= Seq::<(PathTicket, u32)>::empty());
    assert(s.last() == (ticket, f));
    let f1 = ((f as int + 1) % 0x1_0000_0000int) as u32;
    let f2 = ((f as int + 2) % 0x1_0000_0000int) as u32;
    if f as int + 1 < 0x1_0000_0000int {
        assert(f1 as int == f as int + 1);
        assert(age(f1, f) == 1);
    } else {
        assert(f1 == 0);
        assert(age(f1, f) == 1);
    }
    if f as int + 2 < 0x1_0000_0000int {
        assert(f2 as int == f as int + 2);
        assert(age(f2, f) == 2);
    } else {
        assert(f2 as int == f as int + 2 - 0x1_0000_0000int);
        assert(age(f2, f) == 2);
    }
    assert(age(f, f) == 0);
    assert(seq![ticket] =~= Seq::<PathTicket>::empty().push(ticket));
}

/// A delivered answer is collected by the first poll of its ticket, exactly
/// as delivered; a second poll of the same ticket finds nothing; answers
/// for other tickets are untouched by both.
pub proof fn law_answer_collected_once(
    ready: Map<u64, Option<Vec<RouteLeg>>>,
    ticket: PathTicket,
    route: Option<Vec<RouteLeg>>,
    other: u64,
)
    requires
        other != ticket.0,
    ensures
        spec_poll(ready.insert(ticket.0, route), ticket).1 == PathPoll::Ready(route),
        spec_poll(spec_poll(ready.insert(ticket.0, route), ticket).0, ticket).1 == PathPoll::Pending,
        spec_poll(ready.insert(ticket.0, route), ticket).0.contains_key(other) == ready.contains_key(other),
        spec_poll(ready.insert(ticket.0, route), ticket).0[other] == ready[other],
{
}

/// Sum of `xs`, widened.
pub open spec fn sum_u32(xs: Seq<u32>) -> int
    decreases xs.len(),
{
    if xs.len() == 0 {
        0
    } else {
        sum_u32(xs.drop_last()) + xs.last() as int
    }
}

proof fn lemma_sum_bound(xs: Seq<u32>)
    ensures
        0 <= sum_u32(xs) <= xs.len() * (u32::MAX as int),
    decreases xs.len(),
{
    if xs.len() > 0 {
        lemma_sum_bound(xs.drop_last());
    }
}

/// The staleness key of the packed graph: the id counters, the live node
/// count, and the summed segment modification indices advanced by the
/// congestion version. Any structural edit, recompile or density change
/// moves it.
pub fn snapshot_key(next_node: u64, next_segment: u64, node_count: usize, modifications: &Vec<u32>, congestion_version: u64) -> (r: (
    u64,
    u64,
    usize,
    u64,
))
    requires
        modifications.len() <= u32::MAX,
    ensures
        r == (next_node, next_segment, node_count, ((sum_u32(modifications@) + congestion_version) % 0x1_0000_0000_0000_0000int) as u64),
{
    let mut sum: u64 = 0;
    let mut i: usize = 0;
    while i < modifications.len()
        invariant
            i <= modifications.len(),
            modifications.len() <= u32::MAX,
            sum == sum_u32(modifications@.subrange(0, i as int)),
        decreases modifications.len() - i,
    {
        proof {
            assert(modifications@.subrange(0, i as int + 1).drop_last() =~= modifications@.subrange(0, i as int));
            lemma_sum_bound(modifications@.subrange(0, i as int + 1));
            assert((i as int + 1) * (u32::MAX as int) <= (u32::MAX as int) * (u32::MAX as int)) by (nonlinear_arith)
                requires
                    i < u32::MAX,
            ;
        }
        sum = sum + modifications[i] as u64;
        i = i + 1;
    }
    proof {
        assert(modifications@.subrange(0, modifications.len() as int) =~= modifications@);
    }
    (next_node, next_segment, node_count, sum.wrapping_add(congestion_version))
}

/// Whether the packed graph must be rebuilt: there is none yet, or the key
/// moved.
pub fn snapshot_stale(have: bool, held: (u64, u64, usize, u64), key: (u64, u64, usize, u64)) -> (r: bool)
    ensures
        r == (!have || held != key),
{
    !have || held.0 != key.0 || held.1 != key.1 || held.2 != key.2 || held.3 != key.3
}

/// One direction of a segment in the packed graph: the node index it leads
/// to, the segment's position in the segment list, and the lane direction.
#[derive(Clone, Copy, PartialEq, Eq, Debug, Structural)]
pub struct HalfEdge {
    pub to: u32,
    pub segment: usize,
    pub dir: LaneDir,
}

/// The half-edges leaving node `i`, in segment order: every segment whose
/// two ends are live nodes leaves its `a` end forwards and its `b` end
/// backwards. `segments[k]` is (segment, a, b) by entity.
pub open spec fn spec_half_edges(nodes: Seq<u64>, segments: Seq<(u64, u64, u64)>, i: int) -> Seq<HalfEdge>
    decreases segments.len(),
{
    if segments.len() == 0 {
        Seq::empty()
    } else {
        let rest = spec_half_edges(nodes, segments.drop_last(), i);
        let k = segments.len() - 1;
        let a = first_index(nodes, segments.last().1);
        let b = first_index(nodes, segments.last().2);
        if a >= 0 && b >= 0 {
            let with_a = if a == i {
                rest.push(HalfEdge { to: b as u32, segment: k as usize, dir: LaneDir::Forward })
            } else {
                rest
            };
            if b == i {
                with_a.push(HalfEdge { to: a as u32, segment: k as usize, dir: LaneDir::Backward })
            } else {
                with_a
            }
        } else {
            rest
        }
    }
}

/// The packed adjacency: `offsets` has one entry per node plus one, and
/// node `i`'s half-edges are `edges[offsets[i]..offsets[i + 1]]`.
pub open spec fn spec_packed(
    nodes: Seq<u64>,
    segments: Seq<(u64, u64, u64)>,
    offsets: Seq<usize>,
    edges: Seq<HalfEdge>,
) -> bool {
    &&& offsets.len() == nodes.len() + 1
    &&& offsets[0] == 0
    &&& offsets[nodes.len() as int] == edges.len()
    &&& forall|i: int|
        0 <= i < nodes.len() ==> offsets[i] <= offsets[i + 1] && edges.subrange(offsets[i] as int, offsets[i + 1] as int)
            == #[trigger] spec_half_edges(nodes, segments, i)
}

fn node_index(nodes: &Vec<u64>, e: u64) -> (r: Option<u32>)
    requires
        nodes.len() <= u32::MAX,
    ensures
        r matches Some(i) ==> i as int == first_index(nodes@, e) && (i as int) < nodes.len(),
        r is None ==> first_index(nodes@, e) < 0,
{
    let mut i: usize = 0;
    while i < nodes.len()
        invariant
            i <= nodes.len(),
            nodes.len() <= u32::MAX,
            forall|k: int| 0 <= k < i ==> nodes@[k] != e,
        decreases nodes.len() - i,
    {
        if nodes[i] == e {
            proof {
                crate::save::lemma_first_index_at(nodes@, e, i as int);
            }
            return Some(i as u32);
        }
        i = i + 1;
    }
    proof {
        crate::save::lemma_first_index(nodes@, e);
    }
    None
}

/// Pack the road graph: node `i` is `nodes[i]`; each segment whose ends are
/// both live nodes becomes a forward half-edge at its `a` end and a
/// backward one at its `b` end, grouped by node in segment order.
pub fn pack_graph(nodes: &Vec<u64>, segments: &Vec<(u64, u64, u64)>) -> (r: (Vec<usize>, Vec<HalfEdge>))
    requires
        nodes.len() <= u32::MAX,
    ensures
        spec_packed(nodes@, segments@, r.0@, r.1@),
{
    let n = nodes.len();
    let mut adjacency: Vec<Vec<HalfEdge>> = Vec::new();
    let mut i: usize = 0;
    while i < n
        invariant
            i <= n,
            n == nodes.len(),
            adjacency.len() == i,
            forall|j: int| 0 <= j < i ==> (#[trigger] adjacency@[j])@.len() == 0,
        decreases n - i,
    {
        adjacency.push(Vec::new());
        i = i + 1;
    }
    proof {
        assert forall|j: int| 0 <= j < n implies (#[trigger] adjacency@[j])@ =~= spec_half_edges(nodes@, segments@.subrange(0, 0), j) by {
            assert(segments@.subrange(0, 0).len() == 0);
        }
    }
    let mut k: usize = 0;
    while k < segments.len()
        invariant
            k <= segments.len(),
            n == nodes.len(),
            n <= u32::MAX,
            adjacency.len() == n,
            forall|j: int| 0 <= j < n ==> (#[trigger] adjacency@[j])@ == spec_half_edges(nodes@, segments@.subrange(0, k as int), j),
        decreases segments.len() - k,
    {
        let ghost prefix = segments@.subrange(0, k as int + 1);
        proof {
            assert(prefix.drop_last() =~= segments@.subrange(0, k as int));
            assert(prefix.last() == segments@[k as int]);
        }
        let (_, a_e, b_e) = segments[k];
        let a = node_index(nodes, a_e);
        let b = node_index(nodes, b_e);
        let ghost before = adjacency@;
        match (a, b) {
            (Some(ai), Some(bi)) => {
                let mut list_a: Vec<HalfEdge> = Vec::new();
                std::mem::swap(&mut list_a, &mut adjacency[ai as usize]);
                list_a.push(HalfEdge { to: bi, segment: k, dir: LaneDir::Forward });
                adjacency.set(ai as usize, list_a);
                let mut list_b: Vec<HalfEdge> = Vec::new();
                std::mem::swap(&mut list_b, &mut adjacency[bi as usize]);
                list_b.push(HalfEdge { to: ai, segment: k, dir: LaneDir::Backward });
                adjacency.set(bi as usize, list_b);
                proof {
                    assert forall|j: int| 0 <= j < n implies (#[trigger] adjacency@[j])@ == spec_half_edges(nodes@, prefix, j) by {
                        assert(spec_half_edges(nodes@, prefix, j) == {
                            let rest = spec_half_edges(nodes@, prefix.drop_last(), j);
                            let with_a = if ai as int == j {
                                rest.push(HalfEdge { to: bi, segment: k, dir: LaneDir::Forward })
                            } else {
                                rest
                            };
                            if bi as int == j {
                                with_a.push(HalfEdge { to: ai, segment: k, dir: LaneDir::Backward })
                            } else {
                                with_a
                            }
                        });
                    }
                }
            },
            _ => {
                proof {
                    assert forall|j: int| 0 <= j < n implies (#[trigger] adjacency@[j])@ == spec_half_edges(nodes@, prefix, j) by {
                        assert(before[j]@ == spec_half_edges(nodes@, prefix.drop_last(), j));
                    }
                }
            },
        }
        k = k + 1;
    }
    proof {
        assert(segments@.subrange(0, segments.len() as int) =~= segments@);
    }
    let mut offsets: Vec<usize> = Vec::new();
    let mut edges: Vec<HalfEdge> = Vec::new();
    offsets.push(0);
    let mut i: usize = 0;
    while i < n
        invariant
            i <= n,
            n == nodes.len(),
            adjacency.len() == n,
            forall|j: int| 0 <= j < n ==> (#[trigger] adjacency@[j])@ == spec_half_edges(nodes@, segments@, j),
            offsets@.len() == i + 1,
            offsets@[0] == 0,
            offsets@[i as int] == edges@.len(),
            forall|j: int, k: int| 0 <= j <= k <= i ==> offsets@[j] <= offsets@[k],
            forall|j: int|
                0 <= j < i ==> offsets@[j] <= offsets@[j + 1] && edges@.subrange(offsets@[j] as int, offsets@[j + 1] as int)
                    == #[trigger] spec_half_edges(nodes@, segments@, j),
        decreases n - i,
    {
        let ghost before = edges@;
        let mut m: usize = 0;
        while m < adjacency[i].len()
            invariant
                i < n,
                adjacency.len() == n,
                m <= adjacency@[i as int]@.len(),
                edges@ == before + adjacency@[i as int]@.subrange(0, m as int),
            decreases adjacency@[i as int]@.len() - m,
        {
            edges.push(adjacency[i][m]);
            proof {
                assert(adjacency@[i as int]@.subrange(0, m as int + 1) =~= adjacency@[i as int]@.subrange(0, m as int).push(
                    adjacency@[i as int]@[m as int],
                ));
            }
            m = m + 1;
        }
        proof {
            assert(adjacency@[i as int]@.subrange(0, m as int) =~= adjacency@[i as int]@);
        }
        offsets.push(edges.len());
        proof {
            assert forall|j: int|
                0 <= j < i + 1 implies offsets@[j] <= offsets@[j + 1] && edges@.subrange(offsets@[j] as int, offsets@[j + 1] as int)
                    == #[trigger] spec_half_edges(nodes@, segments@, j) by {
                if j < i {
                    assert(offsets@[j + 1] <= offsets@[i as int]);
                    assert(edges@.subrange(offsets@[j] as int, offsets@[j + 1] as int) =~= before.subrange(
                        offsets@[j] as int,
                        offsets@[j + 1] as int,
                    ));
                } else {
                    assert(edges@.subrange(offsets@[j] as int, offsets@[j + 1] as int) =~= adjacency@[i as int]@);
                }
            }
        }
        i = i + 1;
    }
    (offsets, edges)
}

/// The congestion scatter's generator state for a request seed.
pub open spec fn spec_jitter_seed(seed: u64) -> u64 {
    seed.wrapping_mul(0x9E37_79B9_7F4A_7C15u64).wrapping_add(1u64)
}

pub fn jitter_seed(seed: u64) -> (r: u64)
    ensures
        r == spec_jitter_seed(seed),
{
    seed.wrapping_mul(0x9E37_79B9_7F4A_7C15u64).wrapping_add(1u64)
}

/// One xorshift step of the scatter generator.
pub open spec fn spec_xorshift(rng: u64) -> u64 {
    let a = rng ^ (rng << 13u64);
    let b = a ^ (a >> 7u64);
    b ^ (b << 17u64)
}

/// Advance the scatter generator: the next state, and its top 24 bits (the
/// scatter fraction is those bits over 2^24).
pub fn xorshift_step(rng: u64) -> (r: (u64, u32))
    ensures
        r.0 == spec_xorshift(rng),
        r.1 as u64 == spec_xorshift(rng) >> 40u64,
        r.1 < 0x100_0000u32,
{
    let mut x = rng;
    x = x ^ (x << 13u64);
    x = x ^ (x >> 7u64);
    x = x ^ (x << 17u64);
    let top = x >> 40u64;
    assert(x >> 40u64 < 0x100_0000u64) by (bit_vector);
    (x, top as u32)
}

} // verus!
