//! The road graph's discrete side: classes, stable ids, the graph of nodes
//! and segments with its edits (placing, snapping, removing, the dirty ring
//! awaiting a geometry rebuild), which placements the graph accepts, and
//! how removing a segment orphans its nodes. Nodes and segments are keyed
//! by their stable ids; positions and curves are the caller's.
use vstd::prelude::*;
use crate::save::{first_index, lemma_first_index, lemma_first_index_at};
use crate::vehicles::{node_column, segment_column, spec_leg, RoadNodeView, RoadSegmentView, RouteLeg};

verus! {

#[derive(Clone, Copy, PartialEq, Eq, Debug, Structural)]
pub enum RoadClass {
    Dirt,
    Paved,
}

#[derive(Clone, Copy, PartialEq, Eq, Debug, Structural)]
pub struct NodeId(pub u64);

#[derive(Clone, Copy, PartialEq, Eq, Debug, Structural)]
pub struct SegmentId(pub u64);

/// Travel direction along a segment.
#[derive(Clone, Copy, PartialEq, Eq, Hash, Debug, Structural)]
pub enum LaneDir {
    /// travels a → b
    Forward,
    /// travels b → a
    Backward,
}

/// The node and segment id counters: ids are never reused.
pub struct RoadIds {
    pub next_node: u64,
    pub next_segment: u64,
}

impl RoadIds {
    pub fn new() -> (r: RoadIds)
        ensures
            r.next_node == 0,
            r.next_segment == 0,
    {
        RoadIds { next_node: 0, next_segment: 0 }
    }

    pub fn allocate_node(&mut self) -> (r: NodeId)
        requires
            old(self).next_node < u64::MAX,
        ensures
            final(self).next_node == old(self).next_node + 1,
            final(self).next_segment == old(self).next_segment,
            r.0 == final(self).next_node,
    {
        self.next_node = self.next_node + 1;
        NodeId(self.next_node)
    }

    pub fn allocate_segment(&mut self) -> (r: SegmentId)
        requires
            old(self).next_segment < u64::MAX,
        ensures
            final(self).next_segment == old(self).next_segment + 1,
            final(self).next_node == old(self).next_node,
            r.0 == final(self).next_segment,
    {
        self.next_segment = self.next_segment + 1;
        SegmentId(self.next_segment)
    }
}

/// Whether the link `(a, b)` joins `x` and `y`, in either direction.
pub open spec fn joins(link: (u64, u64), x: u64, y: u64) -> bool {
    (link.0 == x && link.1 == y) || (link.0 == y && link.1 == x)
}

/// A segment of the road graph: its id, its two end nodes, its class, how
/// many times its geometry was rebuilt (wrapping), and whether a rebuild
/// is due.
#[derive(Clone, Copy, PartialEq, Eq, Debug, Structural)]
pub struct RoadSegment {
    pub entity: u64,
    pub a: u64,
    pub b: u64,
    pub class: RoadClass,
    pub modification_index: u32,
    pub dirty: bool,
}

/// Whether segment `s` ends at node `n`.
pub open spec fn touches(s: RoadSegment, n: u64) -> bool {
    s.a == n || s.b == n
}

/// The segments ending at node `n`, in segment order.
pub open spec fn spec_attached(segs: Seq<RoadSegment>, n: u64) -> Seq<u64>
    decreases segs.len(),
{
    if segs.len() == 0 {
        Seq::empty()
    } else {
        let rest = spec_attached(segs.drop_last(), n);
        if touches(segs.last(), n) {
            rest.push(segs.last().entity)
        } else {
            rest
        }
    }
}

/// Whether some segment of `segs` joins `x` and `y`.
pub open spec fn spec_joined(segs: Seq<RoadSegment>, x: u64, y: u64) -> bool {
    exists|i: int| 0 <= i < segs.len() && joins(((#[trigger] segs[i]).a, segs[i].b), x, y)
}

/// The 1-ring rebuild mark: every segment ending at `a` or `b` is due a
/// geometry rebuild, the others are untouched.
pub open spec fn spec_mark(segs: Seq<RoadSegment>, a: u64, b: u64) -> Seq<RoadSegment> {
    Seq::new(
        segs.len(),
        |i: int| if touches(segs[i], a) || touches(segs[i], b) { RoadSegment { dirty: true, ..segs[i] } } else { segs[i] },
    )
}

pub open spec fn segment_ids(segs: Seq<RoadSegment>) -> Seq<u64> {
    Seq::new(segs.len(), |i: int| segs[i].entity)
}

/// The road graph: id counters, node ids in creation order, segments in
/// creation order.
pub struct RoadGraph {
    pub ids: RoadIds,
    pub nodes: Vec<u64>,
    pub segments: Vec<RoadSegment>,
}

impl RoadGraph {
    /// Node ids and segment ids are distinct, handed out by the counters
    /// (never zero), and every segment joins two distinct live nodes.
    pub open spec fn wf(&self) -> bool {
        &&& self.nodes@.no_duplicates()
        &&& forall|i: int| 0 <= i < self.nodes@.len() ==> 0 < #[trigger] self.nodes@[i] <= self.ids.next_node
        &&& forall|i: int, j: int|
            0 <= i < j < self.segments@.len() ==> (#[trigger] self.segments@[i]).entity != (#[trigger] self.segments@[j]).entity
        &&& forall|i: int|
            0 <= i < self.segments@.len() ==> {
                let s = #[trigger] self.segments@[i];
                &&& 0 < s.entity <= self.ids.next_segment
                &&& s.a != s.b
                &&& self.nodes@.contains(s.a)
                &&& self.nodes@.contains(s.b)
            }
    }

    pub fn new() -> (r: RoadGraph)
        ensures
            r.wf(),
            r.ids.next_node == 0,
            r.ids.next_segment == 0,
            r.nodes@.len() == 0,
            r.segments@.len() == 0,
    {
        RoadGraph { ids: RoadIds::new(), nodes: Vec::new(), segments: Vec::new() }
    }

    pub fn has_node(&self, n: u64) -> (r: bool)
        ensures
            r == self.nodes@.contains(n),
    {
        let mut i: usize = 0;
        while i < self.nodes.len()
            invariant
                i <= self.nodes@.len(),
                forall|k: int| 0 <= k < i ==> self.nodes@[k] != n,
            decreases self.nodes.len() - i,
        {
            if self.nodes[i] == n {
                assert(self.nodes@[i as int] == n);
                return true;
            }
            i = i + 1;
        }
        false
    }

    /// The segments ending at node `n`, in segment order.
    pub fn attached_segments(&self, n: u64) -> (r: Vec<u64>)
        ensures
            r@ == spec_attached(self.segments@, n),
    {
        let mut r: Vec<u64> = Vec::new();
        let mut i: usize = 0;
        while i < self.segments.len()
            invariant
                i <= self.segments@.len(),
                r@ == spec_attached(self.segments@.subrange(0, i as int), n),
            decreases self.segments.len() - i,
        {
            proof {
                assert(self.segments@.subrange(0, i as int + 1).drop_last() =~= self.segments@.subrange(0, i as int));
            }
            let s = self.segments[i];
            if s.a == n || s.b == n {
                r.push(s.entity);
            }
            i = i + 1;
        }
        proof {
            assert(self.segments@.subrange(0, self.segments@.len() as int) =~= self.segments@);
        }
        r
    }

    /// The placement pre-check on the nodes the two ends would snap to: a
    /// segment from a node to itself, or a second one between two nodes
    /// already joined, is refused. An end that snaps to no node is never
    /// refused.
    pub fn refuses(&self, node_a: Option<u64>, node_b: Option<u64>) -> (r: bool)
        ensures
            r == match (node_a, node_b) {
                (Some(x), Some(y)) => x == y || spec_joined(self.segments@, x, y),
                _ => false,
            },
    {
        match (node_a, node_b) {
            (Some(x), Some(y)) => x == y || self.joined(x, y),
            _ => false,
        }
    }

    /// Whether some segment joins `x` and `y`.
    pub fn joined(&self, x: u64, y: u64) -> (r: bool)
        ensures
            r == spec_joined(self.segments@, x, y),
    {
        let mut i: usize = 0;
        while i < self.segments.len()
            invariant
                i <= self.segments@.len(),
                forall|k: int| 0 <= k < i ==> !joins(((#[trigger] self.segments@[k]).a, self.segments@[k].b), x, y),
            decreases self.segments.len() - i,
        {
            let s = self.segments[i];
            if (s.a == x && s.b == y) || (s.a == y && s.b == x) {
                assert(joins((self.segments@[i as int].a, self.segments@[i as int].b), x, y));
                return true;
            }
            i = i + 1;
        }
        false
    }

    /// Mark the 1-ring of nodes `a` and `b` for a geometry rebuild: every
    /// segment ending at either.
    pub fn mark_ring_dirty(&mut self, a: u64, b: u64)
        requires
            old(self).wf(),
        ensures
            final(self).wf(),
            final(self).segments@ == spec_mark(old(self).segments@, a, b),
            final(self).nodes@ == old(self).nodes@,
            final(self).ids == old(self).ids,
    {
        let ghost s0 = self.segments@;
        let mut i: usize = 0;
        while i < self.segments.len()
            invariant
                self.wf(),
                self.nodes@ == old(self).nodes@,
                self.ids == old(self).ids,
                s0 == old(self).segments@,
                i <= self.segments@.len(),
                self.segments@.len() == s0.len(),
                forall|k: int| 0 <= k < i ==> #[trigger] self.segments@[k] == spec_mark(s0, a, b)[k],
                forall|k: int| i <= k < s0.len() ==> #[trigger] self.segments@[k] == s0[k],
            decreases self.segments.len() - i,
        {
            let s = self.segments[i];
            if s.a == a || s.b == a || s.a == b || s.b == b {
                self.segments.set(i, RoadSegment { dirty: true, ..s });
            }
            i = i + 1;
        }
        proof {
            assert(self.segments@ =~= spec_mark(s0, a, b));
        }
    }

    /// Place a segment of `class` whose ends snapped to `node_a` and
    /// `node_b` (`None`: no node in range; `b_near_a`: the far end lies in
    /// range of the near end). The ends land as `spec_place_ends` says; a
    /// segment from a node to itself is not placed, else the new segment
    /// joins them and the 1-ring of both ends is due a rebuild, the new
    /// segment with it. Returns the new segment's id.
    pub fn place_segment(&mut self, node_a: Option<u64>, node_b: Option<u64>, b_near_a: bool, class: RoadClass) -> (r: Option<u64>)
        requires
            old(self).wf(),
            old(self).ids.next_node + 2 <= u64::MAX,
            old(self).ids.next_segment < u64::MAX,
        ensures
            final(self).wf(),
            ({
                let (a, b, created_a, created_b) = spec_place_ends(old(self).nodes@, old(self).ids.next_node, node_a, node_b, b_near_a);
                &&& final(self).nodes@ == if created_a && created_b {
                    old(self).nodes@.push(a).push(b)
                } else if created_a {
                    old(self).nodes@.push(a)
                } else if created_b {
                    old(self).nodes@.push(b)
                } else {
                    old(self).nodes@
                }
                &&& final(self).ids.next_node == old(self).ids.next_node + (if created_a { 1int } else { 0int }) + (if created_b { 1int } else { 0int })
                &&& a == b ==> r is None && final(self).segments@ == old(self).segments@
                    && final(self).ids.next_segment == old(self).ids.next_segment
                &&& a != b ==> r == Some((old(self).ids.next_segment + 1) as u64)
                    && final(self).ids.next_segment == old(self).ids.next_segment + 1
                    && final(self).segments@ == spec_mark(
                        old(self).segments@.push(RoadSegment {
                            entity: (old(self).ids.next_segment + 1) as u64,
                            a,
                            b,
                            class,
                            modification_index: 0,
                            dirty: true,
                        }),
                        a,
                        b,
                    )
            }),
    {
        let a_live = match node_a {
            Some(e) => self.has_node(e),
            None => false,
        };
        let b_live = match node_b {
            Some(e) => self.has_node(e),
            None => false,
        };
        let a = self.snap_or_create_node(node_a);
        let ghost ka: int = if a_live { choose|k: int| 0 <= k < old(self).nodes@.len() && old(self).nodes@[k] == a } else { self.nodes@.len() - 1 };
        assert(0 <= ka < self.nodes@.len() && self.nodes@[ka] == a);
        let b = if b_live {
            node_b.unwrap()
        } else if !a_live && b_near_a {
            a
        } else {
            self.snap_or_create_node(None)
        };
        assert(self.nodes@[ka] == a);
        assert(self.nodes@.contains(a));
        assert(self.nodes@.contains(b)) by {
            if b_live {
                let kb = choose|k: int| 0 <= k < old(self).nodes@.len() && old(self).nodes@[k] == b;
                assert(self.nodes@[kb] == b);
            } else if !a_live && b_near_a {
            } else {
                assert(self.nodes@[self.nodes@.len() - 1] == b);
            }
        }
        if a == b {
            return None;
        }
        let ghost s1 = self.segments@;
        let id = self.ids.allocate_segment();
        let seg = RoadSegment { entity: id.0, a, b, class, modification_index: 0, dirty: true };
        self.segments.push(seg);
        proof {
            assert forall|i: int, j: int| 0 <= i < j < self.segments@.len() implies
                (#[trigger] self.segments@[i]).entity != (#[trigger] self.segments@[j]).entity by {
                if j == s1.len() {
                    assert(s1[i].entity <= old(self).ids.next_segment);
                }
            }
        }
        self.mark_ring_dirty(a, b);
        Some(id.0)
    }

    /// Remove the segment with id `segment`: its ends lose it, an end left
    /// with no segment goes with it, and the 1-ring of both ends is due a
    /// rebuild. Returns the removed segment's ends and class, or `None`
    /// when no such segment exists (nothing changes).
    pub fn remove_segment(&mut self, segment: u64) -> (r: Option<(u64, u64, RoadClass)>)
        requires
            old(self).wf(),
        ensures
            final(self).wf(),
            final(self).ids == old(self).ids,
            ({
                let k = first_index(segment_ids(old(self).segments@), segment);
                &&& k < 0 ==> r is None && final(self).segments@ == old(self).segments@
                    && final(self).nodes@ == old(self).nodes@
                &&& k >= 0 ==> {
                    let s = old(self).segments@[k];
                    let rest = old(self).segments@.remove(k);
                    &&& r == Some((s.a, s.b, s.class))
                    &&& final(self).segments@ == spec_mark(rest, s.a, s.b)
                    &&& final(self).nodes@ == spec_prune(old(self).nodes@, rest, s.a, s.b)
                }
            }),
    {
        let ghost ids = segment_ids(self.segments@);
        proof {
            lemma_first_index(ids, segment);
        }
        let mut k: usize = 0;
        while k < self.segments.len()
            invariant
                k <= self.segments@.len(),
                ids == segment_ids(self.segments@),
                forall|j: int| 0 <= j < k ==> ids[j] != segment,
            ensures
                k <= self.segments@.len(),
                forall|j: int| 0 <= j < k ==> ids[j] != segment,
                k < self.segments@.len() ==> ids[k as int] == segment,
            decreases self.segments.len() - k,
        {
            if self.segments[k].entity == segment {
                break;
            }
            k = k + 1;
        }
        if k == self.segments.len() {
            proof {
                assert(!ids.contains(segment));
            }
            return None;
        }
        proof {
            lemma_first_index_at(ids, segment, k as int);
        }
        let ghost s0 = self.segments@;
        let removed = self.segments.remove(k);
        let a = removed.a;
        let b = removed.b;
        let ghost rest = self.segments@;
        let a_kept = self.attached_segments(a).len() > 0;
        let b_kept = self.attached_segments(b).len() > 0;
        let ghost n0 = self.nodes@;
        let mut kept: Vec<u64> = Vec::new();
        let mut i: usize = 0;
        while i < self.nodes.len()
            invariant
                i <= self.nodes@.len(),
                self.nodes@ == n0,
                self.segments@ == rest,
                a_kept == (spec_attached(rest, a).len() > 0),
                b_kept == (spec_attached(rest, b).len() > 0),
                kept@ == spec_prune(n0.subrange(0, i as int), rest, a, b),
            decreases self.nodes.len() - i,
        {
            proof {
                assert(n0.subrange(0, i as int + 1).drop_last() =~= n0.subrange(0, i as int));
            }
            let n = self.nodes[i];
            if !((n == a && !a_kept) || (n == b && !b_kept)) {
                kept.push(n);
            }
            i = i + 1;
        }
        proof {
            assert(n0.subrange(0, n0.len() as int) =~= n0);
            law_removal_prunes_exactly_the_orphans(n0, rest, a, b);
            assert forall|j: int| 0 <= j < rest.len() implies {
                let s = #[trigger] rest[j];
                &&& 0 < s.entity <= self.ids.next_segment
                &&& s.a != s.b
                &&& kept@.contains(s.a)
                &&& kept@.contains(s.b)
            } by {
                let s = rest[j];
                let jj = if j < k { j } else { j + 1 };
                assert(s == s0[jj]);
                lemma_attached_nonempty(rest, s.a, j);
                lemma_attached_nonempty(rest, s.b, j);
            }
            assert forall|x: int, y: int| 0 <= x < y < rest.len() implies (#[trigger] rest[x]).entity != (#[trigger] rest[y]).entity by {
                let xx = if x < k { x } else { x + 1 };
                let yy = if y < k { y } else { y + 1 };
                assert(rest[x] == s0[xx] && rest[y] == s0[yy]);
            }
            assert forall|j: int| 0 <= j < kept@.len() implies 0 < #[trigger] kept@[j] <= self.ids.next_node by {
                assert(kept@.contains(kept@[j]));
                let m = choose|m: int| 0 <= m < n0.len() && n0[m] == kept@[j];
            }
        }
        self.nodes = kept;
        self.mark_ring_dirty(a, b);
        Some((a, b, removed.class))
    }

    /// Hand out the segments due a geometry rebuild, in segment order, and
    /// count the rebuild: each is no longer due and its modification index
    /// moves on by one (wrapping).
    pub fn take_dirty(&mut self) -> (r: Vec<u64>)
        requires
            old(self).wf(),
        ensures
            final(self).wf(),
            r@ == spec_dirty_ids(old(self).segments@),
            final(self).segments@ == spec_rebuilt(old(self).segments@),
            final(self).nodes@ == old(self).nodes@,
            final(self).ids == old(self).ids,
    {
        let ghost s0 = self.segments@;
        let mut r: Vec<u64> = Vec::new();
        let mut i: usize = 0;
        while i < self.segments.len()
            invariant
                self.wf(),
                self.nodes@ == old(self).nodes@,
                self.ids == old(self).ids,
                s0 == old(self).segments@,
                i <= self.segments@.len(),
                self.segments@.len() == s0.len(),
                r@ == spec_dirty_ids(s0.subrange(0, i as int)),
                forall|k: int| 0 <= k < i ==> #[trigger] self.segments@[k] == spec_rebuilt(s0)[k],
                forall|k: int| i <= k < s0.len() ==> #[trigger] self.segments@[k] == s0[k],
            decreases self.segments.len() - i,
        {
            proof {
                assert(s0.subrange(0, i as int + 1).drop_last() =~= s0.subrange(0, i as int));
            }
            let s = self.segments[i];
            if s.dirty {
                r.push(s.entity);
                let m = s.modification_index.wrapping_add(1);
                self.segments.set(i, RoadSegment { dirty: false, modification_index: m, ..s });
            }
            i = i + 1;
        }
        proof {
            assert(s0.subrange(0, s0.len() as int) =~= s0);
            assert(self.segments@ =~= spec_rebuilt(s0));
        }
        r
    }

    /// The graph as route search reads it: each node with the segments
    /// ending at it, each segment with its two ends.
    pub fn route_views(&self) -> (r: (Vec<RoadNodeView>, Vec<RoadSegmentView>))
        ensures
            r.0@.len() == self.nodes@.len(),
            forall|i: int| 0 <= i < self.nodes@.len() ==> (#[trigger] r.0@[i]).entity == self.nodes@[i]
                && r.0@[i].segments@ == spec_attached(self.segments@, self.nodes@[i]),
            r.1@.len() == self.segments@.len(),
            forall|j: int| 0 <= j < self.segments@.len() ==> #[trigger] r.1@[j] == (RoadSegmentView {
                entity: self.segments@[j].entity,
                a: self.segments@[j].a,
                b: self.segments@[j].b,
            }),
    {
        let mut nv: Vec<RoadNodeView> = Vec::new();
        let mut i: usize = 0;
        while i < self.nodes.len()
            invariant
                i <= self.nodes@.len(),
                nv@.len() == i,
                forall|k: int| 0 <= k < i ==> (#[trigger] nv@[k]).entity == self.nodes@[k]
                    && nv@[k].segments@ == spec_attached(self.segments@, self.nodes@[k]),
            decreases self.nodes.len() - i,
        {
            let n = self.nodes[i];
            let segments = self.attached_segments(n);
            nv.push(RoadNodeView { entity: n, segments });
            i = i + 1;
        }
        let mut sv: Vec<RoadSegmentView> = Vec::new();
        let mut j: usize = 0;
        while j < self.segments.len()
            invariant
                j <= self.segments@.len(),
                sv@.len() == j,
                forall|k: int| 0 <= k < j ==> #[trigger] sv@[k] == (RoadSegmentView {
                    entity: self.segments@[k].entity,
                    a: self.segments@[k].a,
                    b: self.segments@[k].b,
                }),
            decreases self.segments.len() - j,
        {
            let s = self.segments[j];
            sv.push(RoadSegmentView { entity: s.entity, a: s.a, b: s.b });
            j = j + 1;
        }
        (nv, sv)
    }

    /// The node an end lands on: the node it snapped to, when that is a
    /// live node, else a new node with a fresh id.
    pub fn snap_or_create_node(&mut self, snapped: Option<u64>) -> (r: u64)
        requires
            old(self).wf(),
            old(self).ids.next_node < u64::MAX,
        ensures
            final(self).wf(),
            final(self).segments@ == old(self).segments@,
            final(self).ids.next_segment == old(self).ids.next_segment,
            (snapped matches Some(e) && old(self).nodes@.contains(e)) ==> r == snapped->0 && final(self).nodes@ == old(self).nodes@
                && final(self).ids.next_node == old(self).ids.next_node,
            !(snapped matches Some(e) && old(self).nodes@.contains(e)) ==> r == old(self).ids.next_node + 1
                && final(self).nodes@ == old(self).nodes@.push(r) && final(self).ids.next_node == r,
    {
        if let Some(e) = snapped {
            if self.has_node(e) {
                return e;
            }
        }
        let id = self.ids.allocate_node();
        proof {
            assert(!self.nodes@.contains(id.0)) by {
                if self.nodes@.contains(id.0) {
                    let k = choose|k: int| 0 <= k < self.nodes@.len() && self.nodes@[k] == id.0;
                    assert(0 < self.nodes@[k] <= old(self).ids.next_node);
                }
            }
        }
        self.nodes.push(id.0);
        proof {
            assert forall|i: int| 0 <= i < self.segments@.len() implies {
                let s = #[trigger] self.segments@[i];
                &&& 0 < s.entity <= self.ids.next_segment
                &&& s.a != s.b
                &&& self.nodes@.contains(s.a)
                &&& self.nodes@.contains(s.b)
            } by {
                let s = self.segments@[i];
                assert(old(self).nodes@.contains(s.a));
                assert(old(self).nodes@.contains(s.b));
                let ka = choose|k: int| 0 <= k < old(self).nodes@.len() && old(self).nodes@[k] == s.a;
                let kb = choose|k: int| 0 <= k < old(self).nodes@.len() && old(self).nodes@[k] == s.b;
                assert(self.nodes@[ka] == s.a);
                assert(self.nodes@[kb] == s.b);
            }
        }
        id.0
    }
}

/// Whether `e` names a live node of `nodes`.
pub open spec fn snaps_live(nodes: Seq<u64>, e: Option<u64>) -> bool {
    e matches Some(x) && nodes.contains(x)
}

/// Where a placement's two ends land, and which of them are new nodes:
/// an end that snapped to a live node keeps it; otherwise `a` is a fresh
/// node, and `b` is `a` again when it lies within snapping range of the
/// fresh `a` (`b_near_a`), else a fresh node after it.
pub open spec fn spec_place_ends(nodes: Seq<u64>, next_node: u64, node_a: Option<u64>, node_b: Option<u64>, b_near_a: bool) -> (u64, u64, bool, bool) {
    let created_a = !snaps_live(nodes, node_a);
    let a: u64 = if created_a { (next_node + 1) as u64 } else { node_a->0 };
    let n1: int = if created_a { next_node + 1 } else { next_node as int };
    let joins_a = !snaps_live(nodes, node_b) && created_a && b_near_a;
    let created_b = !snaps_live(nodes, node_b) && !joins_a;
    let b: u64 = if snaps_live(nodes, node_b) { node_b->0 } else if joins_a { a } else { (n1 + 1) as u64 };
    (a, b, created_a, created_b)
}


/// `nodes` without those of `a` and `b` that no segment of `segs` ends at
/// any more: the orphans a removal leaves.
pub open spec fn spec_prune(nodes: Seq<u64>, segs: Seq<RoadSegment>, a: u64, b: u64) -> Seq<u64>
    decreases nodes.len(),
{
    if nodes.len() == 0 {
        nodes
    } else {
        let rest = spec_prune(nodes.drop_last(), segs, a, b);
        let n = nodes.last();
        if (n == a || n == b) && spec_attached(segs, n).len() == 0 {
            rest
        } else {
            rest.push(n)
        }
    }
}

/// A node that some segment ends at has a non-empty attachment list.
pub proof fn lemma_attached_nonempty(segs: Seq<RoadSegment>, n: u64, i: int)
    requires
        0 <= i < segs.len(),
        touches(segs[i], n),
    ensures
        spec_attached(segs, n).len() > 0,
    decreases segs.len(),
{
    if i < segs.len() - 1 {
        lemma_attached_nonempty(segs.drop_last(), n, i);
    }
}

/// A removal keeps exactly the nodes that are not orphaned ends: an end of
/// the removed segment survives when another segment still ends at it,
/// every other node survives, and none is listed twice.
pub proof fn law_removal_prunes_exactly_the_orphans(nodes: Seq<u64>, segs: Seq<RoadSegment>, a: u64, b: u64)
    ensures
        forall|x: u64| #[trigger] spec_prune(nodes, segs, a, b).contains(x) <==> (nodes.contains(x)
            && !((x == a || x == b) && spec_attached(segs, x).len() == 0)),
        nodes.no_duplicates() ==> spec_prune(nodes, segs, a, b).no_duplicates(),
    decreases nodes.len(),
{
    if nodes.len() > 0 {
        let t = nodes.drop_last();
        law_removal_prunes_exactly_the_orphans(t, segs, a, b);
        let rest = spec_prune(t, segs, a, b);
        let n = nodes.last();
        assert forall|x: u64| #[trigger] spec_prune(nodes, segs, a, b).contains(x) <==> (nodes.contains(x)
            && !((x == a || x == b) && spec_attached(segs, x).len() == 0)) by {
            if nodes.contains(x) {
                let k = choose|k: int| 0 <= k < nodes.len() && nodes[k] == x;
                if k < t.len() {
                    assert(t[k] == x);
                    assert(t.contains(x));
                }
            }
            if t.contains(x) {
                let k = choose|k: int| 0 <= k < t.len() && t[k] == x;
                assert(nodes[k] == x);
            }
            if !((n == a || n == b) && spec_attached(segs, n).len() == 0) {
                let p = rest.push(n);
                if p.contains(x) {
                    let k = choose|k: int| 0 <= k < p.len() && p[k] == x;
                    if k < rest.len() {
                        assert(rest[k] == x);
                        assert(rest.contains(x));
                    }
                }
                if rest.contains(x) {
                    let k = choose|k: int| 0 <= k < rest.len() && rest[k] == x;
                    assert(p[k] == x);
                }
                assert(p[rest.len() as int] == n);
            }
        }
        if nodes.no_duplicates() {
            assert(t.no_duplicates()) by {
                assert forall|i: int, j: int| 0 <= i < t.len() && 0 <= j < t.len() && i != j implies t[i] != t[j] by {
                    assert(nodes[i] == t[i] && nodes[j] == t[j]);
                }
            }
            if !((n == a || n == b) && spec_attached(segs, n).len() == 0) {
                assert(!t.contains(n)) by {
                    if t.contains(n) {
                        let k = choose|k: int| 0 <= k < t.len() && t[k] == n;
                        assert(nodes[k] == nodes[nodes.len() - 1]);
                    }
                }
                assert(!rest.contains(n));
                let p = rest.push(n);
                assert forall|i: int, j: int| 0 <= i < p.len() && 0 <= j < p.len() && i != j implies p[i] != p[j] by {
                    if i < rest.len() && j < rest.len() {
                        assert(p[i] == rest[i] && p[j] == rest[j]);
                    } else if i == rest.len() {
                        assert(p[j] == rest[j]);
                        assert(rest.contains(rest[j]));
                    } else {
                        assert(p[i] == rest[i]);
                        assert(rest.contains(rest[i]));
                    }
                }
            }
        }
    }
}


/// A segment's modification index after one more rebuild, wrapping.
pub open spec fn bumped(m: u32) -> u32 {
    if m == u32::MAX { 0 } else { (m + 1) as u32 }
}

/// The ids of the segments due a rebuild, in segment order.
pub open spec fn spec_dirty_ids(segs: Seq<RoadSegment>) -> Seq<u64>
    decreases segs.len(),
{
    if segs.len() == 0 {
        Seq::empty()
    } else {
        let rest = spec_dirty_ids(segs.drop_last());
        if segs.last().dirty {
            rest.push(segs.last().entity)
        } else {
            rest
        }
    }
}

/// Every segment that was due a rebuild has had it: no longer due, its
/// modification index one further.
pub open spec fn spec_rebuilt(segs: Seq<RoadSegment>) -> Seq<RoadSegment> {
    Seq::new(
        segs.len(),
        |i: int| if segs[i].dirty {
            RoadSegment { dirty: false, modification_index: bumped(segs[i].modification_index), ..segs[i] }
        } else {
            segs[i]
        },
    )
}


/// A segment's id is among those of every node it ends at.
pub proof fn lemma_attached_contains(segs: Seq<RoadSegment>, n: u64, i: int)
    requires
        0 <= i < segs.len(),
        touches(segs[i], n),
    ensures
        spec_attached(segs, n).contains(segs[i].entity),
    decreases segs.len(),
{
    if i < segs.len() - 1 {
        lemma_attached_contains(segs.drop_last(), n, i);
        let t = spec_attached(segs.drop_last(), n);
        let k = choose|k: int| 0 <= k < t.len() && t[k] == segs[i].entity;
        if touches(segs.last(), n) {
            assert(t.push(segs.last().entity)[k] == segs[i].entity);
        }
    } else {
        let t = spec_attached(segs.drop_last(), n);
        assert(t.push(segs.last().entity)[t.len() as int] == segs[i].entity);
    }
}

/// Every segment of the graph can be driven both ways as route search
/// reads the graph (`nv` and `sv` as `route_views` builds them): forwards
/// from its `a` end to its `b` end, backwards from `b` to `a`.
pub proof fn law_every_segment_is_drivable(g: RoadGraph, nv: Seq<RoadNodeView>, sv: Seq<RoadSegmentView>, j: int)
    requires
        g.wf(),
        nv.len() == g.nodes@.len(),
        forall|i: int| 0 <= i < g.nodes@.len() ==> (#[trigger] nv[i]).entity == g.nodes@[i]
            && nv[i].segments@ == spec_attached(g.segments@, g.nodes@[i]),
        sv.len() == g.segments@.len(),
        forall|k: int| 0 <= k < g.segments@.len() ==> #[trigger] sv[k] == (RoadSegmentView {
            entity: g.segments@[k].entity,
            a: g.segments@[k].a,
            b: g.segments@[k].b,
        }),
        0 <= j < g.segments@.len(),
    ensures
        spec_leg(nv, sv, g.segments@[j].a, RouteLeg { segment: g.segments@[j].entity, dir: LaneDir::Forward })
            == Some(g.segments@[j].b),
        spec_leg(nv, sv, g.segments@[j].b, RouteLeg { segment: g.segments@[j].entity, dir: LaneDir::Backward })
            == Some(g.segments@[j].a),
{
    let s = g.segments@[j];
    assert(node_column(nv) =~= g.nodes@);
    assert(segment_column(sv) =~= segment_ids(g.segments@));
    let ids = segment_ids(g.segments@);
    assert forall|k: int| 0 <= k < j implies ids[k] != s.entity by {
        assert(g.segments@[k].entity != g.segments@[j].entity);
    }
    lemma_first_index_at(ids, s.entity, j);
    lemma_first_index(g.nodes@, s.a);
    lemma_first_index(g.nodes@, s.b);
    let pa = first_index(g.nodes@, s.a);
    let pb = first_index(g.nodes@, s.b);
    assert(nv[pa].entity == s.a);
    assert(nv[pb].entity == s.b);
    lemma_attached_contains(g.segments@, s.a, j);
    lemma_attached_contains(g.segments@, s.b, j);
    assert(sv[j] == (RoadSegmentView { entity: s.entity, a: s.a, b: s.b }));
}


/// Attachment lists read only the ends and ids of segments.
pub proof fn lemma_attached_ends_only(s1: Seq<RoadSegment>, s2: Seq<RoadSegment>, n: u64)
    requires
        s1.len() == s2.len(),
        forall|i: int| 0 <= i < s1.len() ==> (#[trigger] s1[i]).a == s2[i].a && s1[i].b == s2[i].b && s1[i].entity == s2[i].entity,
    ensures
        spec_attached(s1, n) == spec_attached(s2, n),
    decreases s1.len(),
{
    if s1.len() > 0 {
        lemma_attached_ends_only(s1.drop_last(), s2.drop_last(), n);
        assert(s1.last() == s1[s1.len() - 1]);
    }
}

/// A node no segment ends at has an empty attachment list.
pub proof fn lemma_attached_empty(segs: Seq<RoadSegment>, n: u64)
    requires
        forall|i: int| 0 <= i < segs.len() ==> !touches(#[trigger] segs[i], n),
    ensures
        spec_attached(segs, n).len() == 0,
    decreases segs.len(),
{
    if segs.len() > 0 {
        lemma_attached_empty(segs.drop_last(), n);
        assert(!touches(segs[segs.len() - 1], n));
    }
}

/// Pruning reads segments only through attachment lists.
pub proof fn lemma_prune_same_attached(nodes: Seq<u64>, s1: Seq<RoadSegment>, s2: Seq<RoadSegment>, a: u64, b: u64)
    requires
        forall|x: u64| #[trigger] spec_attached(s1, x) == spec_attached(s2, x),
    ensures
        spec_prune(nodes, s1, a, b) == spec_prune(nodes, s2, a, b),
    decreases nodes.len(),
{
    if nodes.len() > 0 {
        lemma_prune_same_attached(nodes.drop_last(), s1, s2, a, b);
        assert(spec_attached(s1, nodes.last()) == spec_attached(s2, nodes.last()));
    }
}

/// Removing a segment just placed undoes the placement. With `a` and `b`
/// the ends the placement landed on (`spec_place_ends`), when it placed a
/// segment: that segment is the one found under its id, and after its
/// removal the nodes are the old ones less those of `a` and `b` that no
/// segment ended at before (a fresh end always goes), and the segments
/// are the old ones with the 1-ring of `a` and `b` due a rebuild.
pub proof fn law_remove_undoes_place(g: RoadGraph, node_a: Option<u64>, node_b: Option<u64>, b_near_a: bool, class: RoadClass)
    requires
        g.wf(),
        g.ids.next_node + 2 <= u64::MAX,
        g.ids.next_segment < u64::MAX,
    ensures
        ({
            let (a, b, created_a, created_b) = spec_place_ends(g.nodes@, g.ids.next_node, node_a, node_b, b_near_a);
            let e = (g.ids.next_segment + 1) as u64;
            let placed = spec_mark(
                g.segments@.push(RoadSegment { entity: e, a, b, class, modification_index: 0, dirty: true }),
                a,
                b,
            );
            let nodes = if created_a && created_b {
                g.nodes@.push(a).push(b)
            } else if created_a {
                g.nodes@.push(a)
            } else if created_b {
                g.nodes@.push(b)
            } else {
                g.nodes@
            };
            let k = first_index(segment_ids(placed), e);
            a != b ==> {
                &&& k == g.segments@.len()
                &&& placed[k].a == a && placed[k].b == b
                &&& spec_mark(placed.remove(k), a, b) == spec_mark(g.segments@, a, b)
                &&& spec_prune(nodes, placed.remove(k), a, b) == spec_prune(g.nodes@, g.segments@, a, b)
            }
        }),
{
    let (a, b, created_a, created_b) = spec_place_ends(g.nodes@, g.ids.next_node, node_a, node_b, b_near_a);
    if a != b {
        let e = (g.ids.next_segment + 1) as u64;
        let old_segs = g.segments@;
        let pushed = old_segs.push(RoadSegment { entity: e, a, b, class, modification_index: 0, dirty: true });
        let placed = spec_mark(pushed, a, b);
        let n = old_segs.len() as int;
        let ids = segment_ids(placed);
        assert forall|k: int| 0 <= k < n implies ids[k] != e by {
            assert(placed[k].entity == old_segs[k].entity);
            assert(old_segs[k].entity <= g.ids.next_segment);
        }
        assert(ids[n] == e);
        lemma_first_index_at(ids, e, n);
        let rest = placed.remove(n);
        let marked = spec_mark(old_segs, a, b);
        assert(rest =~= marked);
        assert(spec_mark(rest, a, b) =~= marked);
        assert forall|x: u64| #[trigger] spec_attached(rest, x) == spec_attached(old_segs, x) by {
            lemma_attached_ends_only(rest, old_segs, x);
        }
        lemma_prune_same_attached(g.nodes@, rest, old_segs, a, b);
        // A fresh end is not a node yet, so no old segment ends at it.
        assert forall|x: u64| !g.nodes@.contains(x) implies spec_attached(old_segs, x).len() == 0 by {
            assert forall|i: int| 0 <= i < old_segs.len() implies !touches(#[trigger] old_segs[i], x) by {
                assert(g.nodes@.contains(old_segs[i].a) && g.nodes@.contains(old_segs[i].b));
            }
            lemma_attached_empty(old_segs, x);
        }
        assert forall|x: u64| x > g.ids.next_node implies !g.nodes@.contains(x) by {
            if g.nodes@.contains(x) {
                let m = choose|m: int| 0 <= m < g.nodes@.len() && g.nodes@[m] == x;
                assert(g.nodes@[m] <= g.ids.next_node);
            }
        }
        let pa = g.nodes@.push(a);
        assert(pa.drop_last() =~= g.nodes@);
        assert(pa.push(b).drop_last() =~= pa);
        assert(g.nodes@.push(b).drop_last() =~= g.nodes@);
        if created_a {
            assert(a > g.ids.next_node);
            assert(!g.nodes@.contains(a));
            assert(spec_attached(old_segs, a).len() == 0);
            assert(spec_attached(rest, a) == spec_attached(old_segs, a));
            assert(spec_attached(rest, a).len() == 0);
            assert(spec_prune(pa, rest, a, b) == spec_prune(g.nodes@, rest, a, b));
        }
        if created_b {
            assert(b > g.ids.next_node);
            assert(!g.nodes@.contains(b));
            assert(spec_attached(old_segs, b).len() == 0);
            assert(spec_attached(rest, b) == spec_attached(old_segs, b));
            assert(spec_attached(rest, b).len() == 0);
        }
    }
}

} // verus!
