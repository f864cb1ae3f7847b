//! The owned fleet: stable vehicle ids, what each asset is, and the depot
//! parking rule — fleet size is the slot count, a parked vehicle needs a
//! painted slot. Entities are referred to by their stable `u64` bits.
use vstd::prelude::*;
use crate::buildings::BuildingKind;
use crate::resources::TransportClass;
use crate::traffic::count_in;
use crate::roads::LaneDir;
use crate::save::{first_index, lemma_first_index, lemma_first_index_at};

verus! {

#[derive(Clone, Copy, PartialEq, Eq, Debug, Structural)]
pub struct VehicleId(pub u64);

#[derive(Clone, Copy, PartialEq, Eq, Debug, Structural)]
pub enum VehicleKind {
    Truck,
    Bus,
    Excavator,
    Crane,
}

/// Physical parking slots per depot.
pub const DEPOT_SLOTS: u32 = 6;

/// The kind a saved asset is respawned as: only buses carry passengers.
pub open spec fn spec_kind_for_class(class: TransportClass) -> VehicleKind {
    if class == TransportClass::Passenger {
        VehicleKind::Bus
    } else {
        VehicleKind::Truck
    }
}

pub fn kind_for_class(class: TransportClass) -> (r: VehicleKind)
    ensures
        r == spec_kind_for_class(class),
{
    match class {
        TransportClass::Passenger => VehicleKind::Bus,
        _ => VehicleKind::Truck,
    }
}

/// The vehicle id counter: ids are never reused.
pub struct VehicleIds {
    pub next: u64,
}

impl VehicleIds {
    pub fn allocate(&mut self) -> (r: VehicleId)
        requires
            old(self).next < u64::MAX,
        ensures
            final(self).next == old(self).next + 1,
            r.0 == final(self).next,
    {
        self.next = self.next + 1;
        VehicleId(self.next)
    }
}

/// A truck purchase: the building it is to be homed at and that building's
/// kind (`None` when the entity is not a building).
#[derive(Clone, Copy, PartialEq, Eq, Debug, Structural)]
pub struct TruckOrder {
    pub depot: u64,
    pub depot_kind: Option<BuildingKind>,
}

/// Whether a purchase goes through against the fleet homes `homes`: it must
/// name a depot, and that depot must have a free slot.
pub open spec fn spec_granted(homes: Seq<u64>, order: TruckOrder) -> bool {
    order.depot_kind == Some(BuildingKind::Depot) && count_in(homes, order.depot) < DEPOT_SLOTS
}

/// The fleet homes after the purchases `orders`, in order, starting from
/// `homes`: each granted truck takes a slot at its depot.
pub open spec fn spec_homes_after(homes: Seq<u64>, orders: Seq<TruckOrder>) -> Seq<u64>
    decreases orders.len(),
{
    if orders.len() == 0 {
        homes
    } else {
        let prev = spec_homes_after(homes, orders.drop_last());
        if spec_granted(prev, orders.last()) {
            prev.push(orders.last().depot)
        } else {
            prev
        }
    }
}

proof fn lemma_count_push(s: Seq<u64>, x: u64, y: u64)
    ensures
        count_in(s.push(x), y) == count_in(s, y) + if x == y { 1nat } else { 0nat },
{
    assert(s.push(x).drop_last() =~= s);
}

/// Apply a batch of truck purchases in order. `homes` holds the depot of
/// every asset in the fleet and gains the depot of every truck bought; the
/// result holds, per order, the new truck's id or `None` where the order
/// was dropped (not a depot, or no free slot).
pub fn purchase_trucks(homes: &mut Vec<u64>, orders: &Vec<TruckOrder>, ids: &mut VehicleIds) -> (r: Vec<
    Option<VehicleId>,
>)
    requires
        old(ids).next + orders.len() <= u64::MAX,
        old(homes).len() + orders.len() <= u32::MAX,
    ensures
        final(homes)@ == spec_homes_after(old(homes)@, orders@),
        r.len() == orders.len(),
        forall|i: int|
            0 <= i < orders.len() ==> ((#[trigger] r[i]) is Some <==> spec_granted(
                spec_homes_after(old(homes)@, orders@.subrange(0, i)),
                orders@[i],
            )),
        final(ids).next == old(ids).next + (final(homes)@.len() - old(homes)@.len()),
        forall|i: int|
            0 <= i < orders.len() && (#[trigger] r[i]) is Some ==> old(ids).next < r[i].unwrap().0
                <= final(ids).next,
{
    let ghost start = homes@;
    let ghost first_id = ids.next;
    let mut out: Vec<Option<VehicleId>> = Vec::new();
    let mut i: usize = 0;
    while i < orders.len()
        invariant
            i <= orders.len(),
            homes@ == spec_homes_after(start, orders@.subrange(0, i as int)),
            out.len() == i,
            start.len() <= homes@.len() <= start.len() + i,
            ids.next == first_id + (homes@.len() - start.len()),
            first_id + orders.len() <= u64::MAX,
            start.len() + orders.len() <= u32::MAX,
            forall|k: int|
                0 <= k < i ==> ((#[trigger] out[k]) is Some <==> spec_granted(
                    spec_homes_after(start, orders@.subrange(0, k)),
                    orders@[k],
                )),
            forall|k: int| 0 <= k < i && (#[trigger] out[k]) is Some ==> first_id < out[k].unwrap().0 <= ids.next,
        decreases orders.len() - i,
    {
        proof {
            assert(orders@.subrange(0, i as int + 1).drop_last() =~= orders@.subrange(0, i as int));
        }
        let order = orders[i];
        let ghost prev = homes@;
        let mut occupied: u32 = 0;
        let mut j: usize = 0;
        while j < homes.len()
            invariant
                j <= homes.len(),
                homes@ == prev,
                homes.len() <= u32::MAX,
                occupied == count_in(prev.subrange(0, j as int), order.depot),
                occupied <= j,
            decreases homes.len() - j,
        {
            proof {
                assert(prev.subrange(0, j as int + 1).drop_last() =~= prev.subrange(0, j as int));
            }
            if homes[j] == order.depot {
                occupied = occupied + 1;
            }
            j = j + 1;
        }
        proof {
            assert(prev.subrange(0, prev.len() as int) =~= prev);
        }
        let is_depot = match order.depot_kind {
            Some(BuildingKind::Depot) => true,
            _ => false,
        };
        if is_depot && occupied < DEPOT_SLOTS {
            homes.push(order.depot);
            let id = ids.allocate();
            out.push(Some(id));
        } else {
            out.push(None);
        }
        i = i + 1;
    }
    proof {
        assert(orders@.subrange(0, orders.len() as int) =~= orders@);
    }
    out
}

/// A depot never holds more trucks than it has slots: if no depot is over
/// its slot count before a batch of purchases, none is after it.
pub proof fn law_depot_slots_bound_the_fleet(homes: Seq<u64>, orders: Seq<TruckOrder>, depot: u64)
    requires
        forall|d: u64| count_in(homes, d) <= DEPOT_SLOTS,
    ensures
        count_in(spec_homes_after(homes, orders), depot) <= DEPOT_SLOTS,
    decreases orders.len(),
{
    if orders.len() > 0 {
        let prev = spec_homes_after(homes, orders.drop_last());
        law_depot_slots_bound_the_fleet(homes, orders.drop_last(), depot);
        lemma_count_push(prev, orders.last().depot, depot);
    }
}


/// A road node as route search sees it: its entity and the segments
/// attached to it.
pub struct RoadNodeView {
    pub entity: u64,
    pub segments: Vec<u64>,
}

/// A road segment as route search sees it: its entity and its two ends.
#[derive(Clone, Copy, PartialEq, Eq, Debug, Structural)]
pub struct RoadSegmentView {
    pub entity: u64,
    pub a: u64,
    pub b: u64,
}

/// One leg of a route: the segment driven and the direction it is driven.
#[derive(Clone, Copy, PartialEq, Eq, Debug, Structural)]
pub struct RouteLeg {
    pub segment: u64,
    pub dir: LaneDir,
}

pub open spec fn node_column(nodes: Seq<RoadNodeView>) -> Seq<u64> {
    Seq::new(nodes.len(), |i: int| nodes[i].entity)
}

pub open spec fn segment_column(segments: Seq<RoadSegmentView>) -> Seq<u64> {
    Seq::new(segments.len(), |i: int| segments[i].entity)
}

/// Leaving node `u` along segment `s`: forwards to `b` from its `a` end,
/// backwards to `a` otherwise.
pub open spec fn step(s: RoadSegmentView, u: u64) -> (u64, LaneDir) {
    if s.a == u {
        (s.b, LaneDir::Forward)
    } else {
        (s.a, LaneDir::Backward)
    }
}

/// Where driving `leg` from node `u` leads: `u` must be a live node with
/// the segment attached, the segment must be live, and the leg's direction
/// must be the one that leaves `u`.
pub open spec fn spec_leg(nodes: Seq<RoadNodeView>, segments: Seq<RoadSegmentView>, u: u64, leg: RouteLeg) -> Option<u64> {
    let p = first_index(node_column(nodes), u);
    let q = first_index(segment_column(segments), leg.segment);
    if p >= 0 && nodes[p].segments@.contains(leg.segment) && q >= 0 && step(segments[q], u).1 == leg.dir {
        Some(step(segments[q], u).0)
    } else {
        None
    }
}

/// Where driving `legs` in order from `start` ends, if every leg can be
/// driven.
pub open spec fn spec_route_end(
    nodes: Seq<RoadNodeView>,
    segments: Seq<RoadSegmentView>,
    start: u64,
    legs: Seq<RouteLeg>,
) -> Option<u64>
    decreases legs.len(),
{
    if legs.len() == 0 {
        Some(start)
    } else {
        match spec_route_end(nodes, segments, start, legs.drop_last()) {
            Some(u) => spec_leg(nodes, segments, u, legs.last()),
            None => None,
        }
    }
}

/// Whether some route leads from `start` to `goal`.
pub open spec fn reachable(nodes: Seq<RoadNodeView>, segments: Seq<RoadSegmentView>, start: u64, goal: u64) -> bool {
    exists|legs: Seq<RouteLeg>| spec_route_end(nodes, segments, start, legs) == Some(goal)
}

/// Every end of every segment, two per segment.
pub open spec fn endpoints(segments: Seq<RoadSegmentView>) -> Seq<u64> {
    Seq::new(2 * segments.len(), |i: int| if i % 2 == 0 { segments[i / 2].a } else { segments[i / 2].b })
}

/// A node first reached during the search: reached from the queue entry
/// `from` (the parent node) along `leg`.
struct Discovery {
    child: u64,
    parent: u64,
    from: usize,
    leg: RouteLeg,
}

spec fn children(found: Seq<Discovery>) -> Seq<u64> {
    Seq::new(found.len(), |k: int| found[k].child)
}


fn find_node(nodes: &Vec<RoadNodeView>, e: u64) -> (r: Option<usize>)
    ensures
        r matches Some(p) ==> p as int == first_index(node_column(nodes@), e) && (p as int) < nodes.len(),
        r is None ==> first_index(node_column(nodes@), e) < 0,
{
    let ghost col = node_column(nodes@);
    let mut i: usize = 0;
    while i < nodes.len()
        invariant
            i <= nodes.len(),
            col == node_column(nodes@),
            forall|k: int| 0 <= k < i ==> col[k] != e,
        decreases nodes.len() - i,
    {
        if nodes[i].entity == e {
            proof {
                assert(col[i as int] == e);
                lemma_first_index_at(col, e, i as int);
            }
            return Some(i);
        }
        i = i + 1;
    }
    proof {
        lemma_first_index(col, e);
    }
    None
}

fn find_segment(segments: &Vec<RoadSegmentView>, e: u64) -> (r: Option<usize>)
    ensures
        r matches Some(q) ==> q as int == first_index(segment_column(segments@), e) && (q as int) < segments.len(),
        r is None ==> first_index(segment_column(segments@), e) < 0,
{
    let ghost col = segment_column(segments@);
    let mut i: usize = 0;
    while i < segments.len()
        invariant
            i <= segments.len(),
            col == segment_column(segments@),
            forall|k: int| 0 <= k < i ==> col[k] != e,
        decreases segments.len() - i,
    {
        if segments[i].entity == e {
            proof {
                assert(col[i as int] == e);
                lemma_first_index_at(col, e, i as int);
            }
            return Some(i);
        }
        i = i + 1;
    }
    proof {
        lemma_first_index(col, e);
    }
    None
}

proof fn lemma_distinct_within(c: Seq<u64>, e: Seq<u64>)
    requires
        c.no_duplicates(),
        forall|k: int| 0 <= k < c.len() ==> e.contains(#[trigger] c[k]),
    ensures
        c.len() <= e.len(),
{
    c.unique_seq_to_set();
    e.lemma_cardinality_of_set();
    assert(c.to_set().subset_of(e.to_set())) by {
        assert forall|x: u64| c.to_set().contains(x) implies e.to_set().contains(x) by {
            let k = choose|k: int| 0 <= k < c.len() && c[k] == x;
            assert(e.contains(c[k]));
        }
    }
    vstd::seq_lib::seq_to_set_is_finite(e);
    vstd::set_lib::lemma_len_subset(c.to_set(), e.to_set());
}

/// Whether `v` stands in the search queue.
spec fn queued(queue: Seq<u64>, v: u64) -> bool {
    exists|j: int| 0 <= j < queue.len() && queue[j] == v
}

/// Whether `v` stands in the search queue at a depth of at most `d`.
spec fn queued_within(queue: Seq<u64>, depth: Seq<nat>, v: u64, d: nat) -> bool {
    exists|j: int| 0 <= j < queue.len() && queue[j] == v && depth[j] <= d
}

/// The search's closure over processed entries: every leg out of queue
/// entry `i` leads to a queued node at most one level deeper.
spec fn explored(nodes: Seq<RoadNodeView>, segments: Seq<RoadSegmentView>, queue: Seq<u64>, depth: Seq<nat>, i: int) -> bool {
    forall|leg: RouteLeg|
        (#[trigger] spec_leg(nodes, segments, queue[i], leg)) is Some ==> queued_within(
            queue,
            depth,
            spec_leg(nodes, segments, queue[i], leg).unwrap(),
            depth[i] + 1,
        )
}

/// Every node a route from `start` reaches is queued, once every queued
/// node's legs have been explored.
proof fn lemma_closed_search(
    nodes: Seq<RoadNodeView>,
    segments: Seq<RoadSegmentView>,
    start: u64,
    queue: Seq<u64>,
    depth: Seq<nat>,
    legs: Seq<RouteLeg>,
)
    requires
        queue.len() >= 1,
        queue[0] == start,
        forall|i: int| 0 <= i < queue.len() ==> #[trigger] explored(nodes, segments, queue, depth, i),
        spec_route_end(nodes, segments, start, legs) is Some,
    ensures
        queued(queue, spec_route_end(nodes, segments, start, legs).unwrap()),
    decreases legs.len(),
{
    if legs.len() > 0 {
        lemma_closed_search(nodes, segments, start, queue, depth, legs.drop_last());
        let u = spec_route_end(nodes, segments, start, legs.drop_last()).unwrap();
        let j = choose|j: int| 0 <= j < queue.len() && queue[j] == u;
        assert(explored(nodes, segments, queue, depth, j));
        assert(spec_leg(nodes, segments, queue[j], legs.last()) is Some);
    }
}

/// Every node some route of `legs.len()` legs reaches, up to the depth of
/// the entry being processed, is queued no deeper than the route is long.
proof fn lemma_levels(
    nodes: Seq<RoadNodeView>,
    segments: Seq<RoadSegmentView>,
    start: u64,
    queue: Seq<u64>,
    depth: Seq<nat>,
    at: int,
    legs: Seq<RouteLeg>,
)
    requires
        0 <= at < queue.len(),
        depth.len() == queue.len(),
        queue[0] == start,
        depth[0] == 0,
        forall|i: int, j: int| 0 <= i <= j < queue.len() ==> depth[i] <= depth[j],
        forall|i: int| 0 <= i < at ==> #[trigger] explored(nodes, segments, queue, depth, i),
        legs.len() <= depth[at],
        spec_route_end(nodes, segments, start, legs) is Some,
    ensures
        queued_within(queue, depth, spec_route_end(nodes, segments, start, legs).unwrap(), legs.len()),
    decreases legs.len(),
{
    if legs.len() == 0 {
        assert(queue[0] == start && depth[0] <= 0);
    } else {
        let t = legs.drop_last();
        lemma_levels(nodes, segments, start, queue, depth, at, t);
        let u = spec_route_end(nodes, segments, start, t).unwrap();
        let ju = choose|j: int| 0 <= j < queue.len() && queue[j] == u && depth[j] <= t.len();
        if ju >= at {
            assert(depth[at] <= depth[ju]);
        }
        assert(ju < at);
        assert(explored(nodes, segments, queue, depth, ju));
        assert(spec_leg(nodes, segments, queue[ju], legs.last()) is Some);
    }
}

/// Breadth-first route search over the road graph from node `start` to
/// node `goal`: the legs of a route that leads there, one with the fewest
/// legs, or `None` when no route does. The same node is trivially reached
/// with no legs.
pub fn find_route(start: u64, goal: u64, nodes: &Vec<RoadNodeView>, segments: &Vec<RoadSegmentView>) -> (r: Option<
    Vec<RouteLeg>,
>)
    requires
        2 * segments.len() + 1 <= usize::MAX,
    ensures
        start == goal ==> (r matches Some(legs) && legs@.len() == 0),
        r matches Some(legs) ==> spec_route_end(nodes@, segments@, start, legs@) == Some(goal),
        r matches Some(legs) ==> forall|other: Seq<RouteLeg>|
            spec_route_end(nodes@, segments@, start, other) == Some(goal) ==> legs@.len() <= other.len(),
        r is None <==> !reachable(nodes@, segments@, start, goal),
{
    if start == goal {
        let legs: Vec<RouteLeg> = Vec::new();
        proof {
            assert(spec_route_end(nodes@, segments@, start, legs@) == Some(goal));
        }
        return Some(legs);
    }
    let ghost ends = endpoints(segments@);
    let mut found: Vec<Discovery> = Vec::new();
    let mut queue: Vec<u64> = Vec::new();
    queue.push(start);
    let ghost mut depth: Seq<nat> = seq![0nat];
    let mut head: usize = 0;
    while head < queue.len()
        invariant
            start != goal,
            2 * segments.len() + 1 <= usize::MAX,
            ends == endpoints(segments@),
            head <= queue.len(),
            queue.len() == found.len() + 1,
            queue.len() <= ends.len() + 1,
            depth.len() == queue.len(),
            queue@[0] == start,
            depth[0] == 0,
            forall|k: int| 0 <= k < found.len() ==> queue@[k + 1] == (#[trigger] found@[k]).child,
            forall|k: int| 0 <= k < found.len() ==> (#[trigger] found@[k]).child != start,
            forall|k: int| 0 <= k < found.len() ==> (#[trigger] found@[k]).child != goal,
            forall|k: int| 0 <= k < found.len() ==> ends.contains((#[trigger] found@[k]).child),
            children(found@).no_duplicates(),
            forall|k: int|
                0 <= k < found.len() ==> (#[trigger] found@[k]).from <= k && queue@[found@[k].from as int] == found@[k].parent
                    && spec_leg(nodes@, segments@, found@[k].parent, found@[k].leg) == Some(found@[k].child)
                    && depth[k + 1] == depth[found@[k].from as int] + 1,
            forall|i: int, j: int| 0 <= i <= j < queue.len() ==> depth[i] <= depth[j],
            head < queue.len() ==> forall|j: int| 0 <= j < queue.len() ==> depth[j] <= depth[head as int] + 1,
            forall|i: int| 0 <= i < head ==> #[trigger] explored(nodes@, segments@, queue@, depth, i),
        decreases ends.len() + 1 - head,
    {
        let node = queue[head];
        let at = head;
        head = head + 1;
        match find_node(nodes, node) {
            None => {
                proof {
                    assert forall|i: int| 0 <= i < head implies #[trigger] explored(nodes@, segments@, queue@, depth, i) by {
                        if i == at as int {
                            assert forall|leg: RouteLeg|
                                (#[trigger] spec_leg(nodes@, segments@, queue@[i], leg)) is Some implies queued_within(
                                    queue@,
                                    depth,
                                    spec_leg(nodes@, segments@, queue@[i], leg).unwrap(),
                                    depth[i] + 1,
                                ) by {
                                assert(spec_leg(nodes@, segments@, node, leg) is None);
                            }
                        }
                    }
                }
            },
            Some(p) => {
                let mut m: usize = 0;
                while m < nodes[p].segments.len()
                    invariant
                        start != goal,
                        2 * segments.len() + 1 <= usize::MAX,
                        ends == endpoints(segments@),
                        p < nodes.len(),
                        p as int == first_index(node_column(nodes@), node),
                        at < head,
                        head <= queue.len(),
                        at + 1 == head,
                        queue@[at as int] == node,
                        m <= nodes@[p as int].segments@.len(),
                        queue.len() == found.len() + 1,
                        queue.len() <= ends.len() + 1,
                        depth.len() == queue.len(),
                        queue@[0] == start,
                        depth[0] == 0,
                        forall|k: int| 0 <= k < found.len() ==> queue@[k + 1] == (#[trigger] found@[k]).child,
                        forall|k: int| 0 <= k < found.len() ==> (#[trigger] found@[k]).child != start,
                        forall|k: int| 0 <= k < found.len() ==> (#[trigger] found@[k]).child != goal,
                        forall|k: int| 0 <= k < found.len() ==> ends.contains((#[trigger] found@[k]).child),
                        children(found@).no_duplicates(),
                        forall|k: int|
                            0 <= k < found.len() ==> (#[trigger] found@[k]).from <= k && queue@[found@[k].from as int]
                                == found@[k].parent && spec_leg(nodes@, segments@, found@[k].parent, found@[k].leg)
                                == Some(found@[k].child) && depth[k + 1] == depth[found@[k].from as int] + 1,
                        forall|i: int, j: int| 0 <= i <= j < queue.len() ==> depth[i] <= depth[j],
                        forall|j: int| 0 <= j < queue.len() ==> depth[j] <= depth[at as int] + 1,
                        forall|i: int| 0 <= i < at ==> #[trigger] explored(nodes@, segments@, queue@, depth, i),
                        forall|leg: RouteLeg|
                            nodes@[p as int].segments@.subrange(0, m as int).contains(leg.segment) && (#[trigger] spec_leg(
                                nodes@,
                                segments@,
                                node,
                                leg,
                            )) is Some ==> queued_within(
                                queue@,
                                depth,
                                spec_leg(nodes@, segments@, node, leg).unwrap(),
                                depth[at as int] + 1,
                            ),
                    decreases nodes@[p as int].segments@.len() - m,
                {
                    let seg_e = nodes[p].segments[m];
                    let ghost before = found@;
                    let ghost queue_before = queue@;
                    let ghost depth_before = depth;
                    proof {
                        assert forall|leg: RouteLeg|
                            nodes@[p as int].segments@.subrange(0, m as int + 1).contains(leg.segment)
                                && !nodes@[p as int].segments@.subrange(0, m as int).contains(leg.segment) implies leg.segment
                            == seg_e by {
                            let t = choose|t: int|
                                0 <= t < m + 1 && #[trigger] nodes@[p as int].segments@.subrange(0, m as int + 1)[t] == leg.segment;
                            if t < m {
                                assert(nodes@[p as int].segments@.subrange(0, m as int)[t] == leg.segment);
                            }
                        }
                    }
                    match find_segment(segments, seg_e) {
                        None => {
                            proof {
                                assert forall|leg: RouteLeg|
                                    nodes@[p as int].segments@.subrange(0, m as int + 1).contains(leg.segment)
                                        && (#[trigger] spec_leg(nodes@, segments@, node, leg)) is Some implies queued_within(
                                        queue@,
                                        depth,
                                        spec_leg(nodes@, segments@, node, leg).unwrap(),
                                        depth[at as int] + 1,
                                    ) by {
                                    if !nodes@[p as int].segments@.subrange(0, m as int).contains(leg.segment) {
                                        assert(leg.segment == seg_e);
                                    }
                                }
                            }
                        },
                        Some(q) => {
                            let s = segments[q];
                            let (next, dir) = if s.a == node {
                                (s.b, LaneDir::Forward)
                            } else {
                                (s.a, LaneDir::Backward)
                            };
                            let leg = RouteLeg { segment: seg_e, dir };
                            proof {
                                assert(nodes@[p as int].segments@[m as int] == seg_e);
                                assert(nodes@[p as int].segments@.contains(seg_e));
                                assert(spec_leg(nodes@, segments@, node, leg) == Some(next));
                                assert(next == segments@[q as int].a || next == segments@[q as int].b);
                                if next == segments@[q as int].a {
                                    assert(ends[2 * q as int] == next);
                                } else {
                                    assert(ends[2 * q as int + 1] == next);
                                }
                                assert(ends.contains(next));
                            }
                            let mut seen = next == start;
                            let mut k: usize = 0;
                            while k < found.len() && !seen
                                invariant
                                    k <= found.len(),
                                    seen ==> (next == start || exists|j: int| 0 <= j < k && (#[trigger] found@[j]).child == next),
                                    !seen ==> next != start && forall|j: int| 0 <= j < k ==> (#[trigger] found@[j]).child != next,
                                decreases found.len() - k,
                            {
                                if found[k].child == next {
                                    seen = true;
                                }
                                k = k + 1;
                            }
                            if !seen {
                                found.push(Discovery { child: next, parent: node, from: at, leg });
                                proof {
                                    depth = depth.push(depth[at as int] + 1);
                                    assert(children(found@) =~= children(before).push(next));
                                    assert(!children(before).contains(next)) by {
                                        if children(before).contains(next) {
                                            let j = choose|j: int| 0 <= j < before.len() && children(before)[j] == next;
                                            assert(before[j].child == next);
                                        }
                                    }
                                    assert(children(found@).no_duplicates()) by {
                                        assert forall|x: int, y: int|
                                            0 <= x < y < children(found@).len() implies children(found@)[x] != children(
                                                found@,
                                            )[y] by {
                                            if y == before.len() {
                                                assert(children(before)[x] != next);
                                            } else {
                                                assert(children(before)[x] != children(before)[y]);
                                            }
                                        }
                                    }
                                    assert forall|j: int| 0 <= j < found.len() implies ends.contains(
                                        children(found@)[j],
                                    ) by {
                                        if j < before.len() {
                                            assert(found@[j] == before[j]);
                                        }
                                    }
                                    lemma_distinct_within(children(found@), ends);
                                }
                                if next == goal {
                                    proof {
                                        assert forall|other: Seq<RouteLeg>|
                                            spec_route_end(nodes@, segments@, start, other) == Some(goal) implies depth[found.len()
                                                as int] <= other.len() by {
                                            if other.len() <= depth_before[at as int] {
                                                lemma_levels(nodes@, segments@, start, queue_before, depth_before, at as int, other);
                                                let j = choose|j: int|
                                                    0 <= j < queue_before.len() && queue_before[j] == goal && depth_before[j]
                                                        <= other.len();
                                                if j > 0 {
                                                    assert(before[j - 1].child == goal);
                                                }
                                            }
                                        }
                                    }
                                    let legs = reconstruct(
                                        &found,
                                        start,
                                        goal,
                                        Ghost(queue@.push(next)),
                                        Ghost(depth),
                                        Ghost(nodes@),
                                        Ghost(segments@),
                                    );
                                    return Some(legs);
                                }
                                queue.push(next);
                            }
                            proof {
                                assert(forall|j: int| 0 <= j < queue_before.len() ==> queue@[j] == queue_before[j]);
                                assert(forall|j: int| 0 <= j < depth_before.len() ==> depth[j] == depth_before[j]);
                                assert forall|leg2: RouteLeg|
                                    nodes@[p as int].segments@.subrange(0, m as int + 1).contains(leg2.segment)
                                        && (#[trigger] spec_leg(nodes@, segments@, node, leg2)) is Some implies queued_within(
                                        queue@,
                                        depth,
                                        spec_leg(nodes@, segments@, node, leg2).unwrap(),
                                        depth[at as int] + 1,
                                    ) by {
                                    if !nodes@[p as int].segments@.subrange(0, m as int).contains(leg2.segment) {
                                        assert(leg2.segment == seg_e);
                                        assert(leg2 == leg);
                                        if !seen {
                                            assert(queue@[queue.len() - 1] == next);
                                        } else if next == start {
                                            assert(queue@[0] == next);
                                        } else {
                                            let j = choose|j: int| 0 <= j < before.len() && (#[trigger] before[j]).child == next;
                                            assert(queue@[j + 1] == next);
                                        }
                                    } else {
                                        let v = spec_leg(nodes@, segments@, node, leg2).unwrap();
                                        let j = choose|j: int|
                                            0 <= j < queue_before.len() && queue_before[j] == v && depth_before[j] <= depth_before[at as int]
                                                + 1;
                                        assert(queue@[j] == v && depth[j] == depth_before[j]);
                                    }
                                }
                                assert forall|i: int| 0 <= i < at implies #[trigger] explored(nodes@, segments@, queue@, depth, i) by {
                                    assert(explored(nodes@, segments@, queue_before, depth_before, i));
                                    assert forall|leg2: RouteLeg|
                                        (#[trigger] spec_leg(nodes@, segments@, queue@[i], leg2)) is Some implies queued_within(
                                            queue@,
                                            depth,
                                            spec_leg(nodes@, segments@, queue@[i], leg2).unwrap(),
                                            depth[i] + 1,
                                        ) by {
                                        assert(queue@[i] == queue_before[i]);
                                        let v = spec_leg(nodes@, segments@, queue@[i], leg2).unwrap();
                                        let j = choose|j: int|
                                            0 <= j < queue_before.len() && queue_before[j] == v && depth_before[j] <= depth_before[i] + 1;
                                        assert(queue@[j] == v && depth[j] == depth_before[j]);
                                    }
                                }
                            }
                        },
                    }
                    m = m + 1;
                }
                proof {
                    assert(nodes@[p as int].segments@.subrange(0, m as int) =~= nodes@[p as int].segments@);
                    assert forall|i: int| 0 <= i < head implies #[trigger] explored(nodes@, segments@, queue@, depth, i) by {
                        if i == at as int {
                            assert forall|leg: RouteLeg|
                                (#[trigger] spec_leg(nodes@, segments@, queue@[i], leg)) is Some implies queued_within(
                                    queue@,
                                    depth,
                                    spec_leg(nodes@, segments@, queue@[i], leg).unwrap(),
                                    depth[i] + 1,
                                ) by {
                                assert(nodes@[p as int].segments@.contains(leg.segment));
                            }
                        }
                    }
                }
            },
        }
        proof {
            if head < queue.len() {
                assert forall|j: int| 0 <= j < queue.len() implies depth[j] <= depth[head as int] + 1 by {
                    assert(depth[at as int] <= depth[head as int]);
                }
            }
        }
    }
    proof {
        assert forall|legs: Seq<RouteLeg>| spec_route_end(nodes@, segments@, start, legs) != Some(goal) by {
            if spec_route_end(nodes@, segments@, start, legs) == Some(goal) {
                lemma_closed_search(nodes@, segments@, start, queue@, depth, legs);
                let j = choose|j: int| 0 <= j < queue@.len() && queue@[j] == goal;
                if j > 0 {
                    assert(found@[j - 1].child == goal);
                }
            }
        }
    }
    None
}

/// Walk the discoveries back from the last one (the goal) to the start,
/// then emit their legs start-first: one leg per level of the goal's depth.
fn reconstruct(
    found: &Vec<Discovery>,
    start: u64,
    goal: u64,
    Ghost(queue): Ghost<Seq<u64>>,
    Ghost(depth): Ghost<Seq<nat>>,
    Ghost(nodes): Ghost<Seq<RoadNodeView>>,
    Ghost(segments): Ghost<Seq<RoadSegmentView>>,
) -> (r: Vec<RouteLeg>)
    requires
        found.len() >= 1,
        found@[found.len() - 1].child == goal,
        queue.len() == found.len() + 1,
        depth.len() == queue.len(),
        queue[0] == start,
        depth[0] == 0,
        forall|k: int| 0 <= k < found.len() ==> queue[k + 1] == (#[trigger] found@[k]).child,
        forall|k: int|
            0 <= k < found.len() ==> (#[trigger] found@[k]).from <= k && queue[found@[k].from as int] == found@[k].parent
                && spec_leg(nodes, segments, found@[k].parent, found@[k].leg) == Some(found@[k].child)
                && depth[k + 1] == depth[found@[k].from as int] + 1,
    ensures
        spec_route_end(nodes, segments, start, r@) == Some(goal),
        r@.len() == depth[found.len() as int],
{
    let mut chain: Vec<usize> = Vec::new();
    let mut cur: usize = found.len() - 1;
    chain.push(cur);
    while found[cur].from != 0
        invariant
            cur < found.len(),
            chain.len() >= 1,
            chain@[0] == found.len() - 1,
            chain@[chain.len() - 1] == cur,
            depth.len() == found.len() + 1,
            depth[found.len() as int] == (chain.len() - 1) + depth[cur + 1],
            forall|t: int| 0 <= t < chain.len() ==> (#[trigger] chain@[t]) < found.len(),
            forall|t: int|
                0 <= t < chain.len() - 1 ==> found@[#[trigger] chain@[t] as int].from > 0 && chain@[t + 1] == found@[chain@[t]
                    as int].from - 1,
            forall|k: int|
                0 <= k < found.len() ==> (#[trigger] found@[k]).from <= k && depth[k + 1] == depth[found@[k].from as int] + 1,
        decreases cur,
    {
        let next = found[cur].from - 1;
        cur = next;
        chain.push(cur);
    }
    let mut legs: Vec<RouteLeg> = Vec::new();
    let mut j: usize = chain.len();
    while j > 0
        invariant
            j <= chain.len(),
            chain.len() >= 1,
            chain@[0] == found.len() - 1,
            found@[chain@[chain.len() - 1] as int].from == 0,
            legs@.len() == chain.len() - j,
            forall|t: int| 0 <= t < chain.len() ==> (#[trigger] chain@[t]) < found.len(),
            forall|t: int|
                0 <= t < chain.len() - 1 ==> found@[#[trigger] chain@[t] as int].from > 0 && chain@[t + 1] == found@[chain@[t]
                    as int].from - 1,
            queue.len() == found.len() + 1,
            queue[0] == start,
            forall|k: int| 0 <= k < found.len() ==> queue[k + 1] == (#[trigger] found@[k]).child,
            forall|k: int|
                0 <= k < found.len() ==> (#[trigger] found@[k]).from <= k && queue[found@[k].from as int]
                    == found@[k].parent && spec_leg(nodes, segments, found@[k].parent, found@[k].leg) == Some(found@[k].child),
            spec_route_end(nodes, segments, start, legs@) == Some(
                if j == chain.len() {
                    start
                } else {
                    found@[chain@[j as int] as int].child
                },
            ),
        decreases j,
    {
        let idx = chain[j - 1];
        let ghost prior = legs@;
        legs.push(found[idx].leg);
        proof {
            assert(legs@.drop_last() =~= prior);
            let e = found@[idx as int];
            if j == chain.len() {
                assert(e.from == 0);
                assert(e.parent == start);
            } else {
                let up = chain@[j as int];
                assert(up == e.from - 1);
                assert(queue[e.from as int] == found@[up as int].child);
            }
        }
        j = j - 1;
    }
    proof {
        let last = chain@[chain.len() - 1];
        assert(depth[last + 1] == depth[0] + 1);
    }
    legs
}
} // verus!
