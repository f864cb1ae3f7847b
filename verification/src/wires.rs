//! Utility networks strung pole to pole: power, water and heat share the
//! span/pole graph and are told apart by `NetKind`. Entities are referred to
//! by their stable `u64` bits.
use vstd::prelude::*;
use crate::buildings::BuildingKind;
use crate::network::PriorityClass;
use crate::roads::joins;

verus! {

/// Which utility a pole or span carries.
#[derive(Clone, Copy, PartialEq, Eq, Hash, Debug, Structural)]
pub enum NetKind {
    Power,
    Water,
    Heat,
}

impl Default for NetKind {
    fn default() -> (r: NetKind)
        ensures
            r == NetKind::Power,
    {
        NetKind::Power
    }
}

#[derive(Clone, Copy, PartialEq, Eq, Debug, Structural)]
pub struct PoleId(pub u64);

#[derive(Clone, Copy, PartialEq, Eq, Debug, Structural)]
pub struct SpanId(pub u64);

/// One span of the net: its two endpoint entities (pole or building).
#[derive(Clone, Copy, PartialEq, Eq, Debug, Structural)]
pub struct WireSpan {
    pub id: SpanId,
    pub a: u64,
    pub b: u64,
    pub kind: NetKind,
}

/// The pole and span id counters: ids are never reused.
pub struct WireIds {
    pub next_pole: u64,
    pub next_span: u64,
}

impl WireIds {
    pub fn new() -> (r: WireIds)
        ensures
            r.next_pole == 0,
            r.next_span == 0,
    {
        WireIds { next_pole: 0, next_span: 0 }
    }

    pub fn allocate_pole(&mut self) -> (r: PoleId)
        requires
            old(self).next_pole < u64::MAX,
        ensures
            final(self).next_pole == old(self).next_pole + 1,
            final(self).next_span == old(self).next_span,
            r.0 == final(self).next_pole,
    {
        self.next_pole = self.next_pole + 1;
        PoleId(self.next_pole)
    }

    pub fn allocate_span(&mut self) -> (r: SpanId)
        requires
            old(self).next_span < u64::MAX,
        ensures
            final(self).next_span == old(self).next_span + 1,
            final(self).next_pole == old(self).next_pole,
            r.0 == final(self).next_span,
    {
        self.next_span = self.next_span + 1;
        SpanId(self.next_span)
    }
}

/// Whether a span of `kind` between `a` and `b` is strung: never from an
/// endpoint to itself, never a second span of the same kind between the
/// same two endpoints.
pub open spec fn spec_span_accepted(spans: Seq<WireSpan>, a: u64, b: u64, kind: NetKind) -> bool {
    a != b && !exists|i: int|
        0 <= i < spans.len() && (#[trigger] spans[i]).kind == kind && joins((spans[i].a, spans[i].b), a, b)
}

/// Decide a span placement between the resolved endpoints `a` and `b`.
pub fn span_accepted(spans: &Vec<WireSpan>, a: u64, b: u64, kind: NetKind) -> (r: bool)
    ensures
        r == spec_span_accepted(spans@, a, b, kind),
{
    if a == b {
        return false;
    }
    let mut i: usize = 0;
    while i < spans.len()
        invariant
            i <= spans.len(),
            a != b,
            forall|k: int|
                0 <= k < i ==> !((#[trigger] spans@[k]).kind == kind && joins((spans@[k].a, spans@[k].b), a, b)),
        decreases spans.len() - i,
    {
        let s = spans[i];
        if s.kind == kind && ((s.a == a && s.b == b) || (s.a == b && s.b == a)) {
            assert(spans@[i as int].kind == kind && joins((spans@[i as int].a, spans@[i as int].b), a, b));
            return false;
        }
        i = i + 1;
    }
    true
}

/// Whether any span still touches `endpoint`.
pub open spec fn spec_attached(spans: Seq<WireSpan>, endpoint: u64) -> bool {
    exists|i: int| 0 <= i < spans.len() && ((#[trigger] spans[i]).a == endpoint || spans[i].b == endpoint)
}

/// After a span is removed, a pole that no remaining span touches goes
/// with it; buildings always stay.
pub fn pole_orphaned(remaining: &Vec<WireSpan>, endpoint: u64, is_pole: bool) -> (r: bool)
    ensures
        r == (is_pole && !spec_attached(remaining@, endpoint)),
{
    if !is_pole {
        return false;
    }
    let mut i: usize = 0;
    while i < remaining.len()
        invariant
            i <= remaining.len(),
            forall|k: int| 0 <= k < i ==> !((#[trigger] remaining@[k]).a == endpoint || remaining@[k].b == endpoint),
        decreases remaining.len() - i,
    {
        if remaining[i].a == endpoint || remaining[i].b == endpoint {
            assert(remaining@[i as int].a == endpoint || remaining@[i as int].b == endpoint);
            return false;
        }
        i = i + 1;
    }
    true
}

/// Only `kind` spans out of `spans`, as endpoint pairs, order kept: the
/// edges one net's component labelling is built from.
pub open spec fn spec_net_links(spans: Seq<WireSpan>, kind: NetKind) -> Seq<(u64, u64)>
    decreases spans.len(),
{
    if spans.len() == 0 {
        Seq::empty()
    } else if spans.last().kind == kind {
        spec_net_links(spans.drop_last(), kind).push((spans.last().a, spans.last().b))
    } else {
        spec_net_links(spans.drop_last(), kind)
    }
}

/// The endpoint pairs of the `kind` spans.
pub fn net_links(spans: &Vec<WireSpan>, kind: NetKind) -> (r: Vec<(u64, u64)>)
    ensures
        r@ == spec_net_links(spans@, kind),
{
    let mut out: Vec<(u64, u64)> = Vec::new();
    let mut i: usize = 0;
    while i < spans.len()
        invariant
            i <= spans.len(),
            out@ == spec_net_links(spans@.subrange(0, i as int), kind),
        decreases spans.len() - i,
    {
        proof {
            assert(spans@.subrange(0, i as int + 1).drop_last() =~= spans@.subrange(0, i as int));
        }
        if spans[i].kind == kind {
            out.push((spans[i].a, spans[i].b));
        }
        i = i + 1;
    }
    proof {
        assert(spans@.subrange(0, spans.len() as int) =~= spans@);
    }
    out
}

/// Which power consumers the grid serves and in which class: factories as
/// industry, dwellings as housing; nothing else draws from the grid.
pub open spec fn spec_power_class(kind: BuildingKind) -> Option<PriorityClass> {
    match kind {
        BuildingKind::Factory => Some(PriorityClass::Industry),
        BuildingKind::Dwelling => Some(PriorityClass::Housing),
        _ => None,
    }
}

pub fn power_class(kind: BuildingKind) -> (r: Option<PriorityClass>)
    ensures
        r == spec_power_class(kind),
{
    match kind {
        BuildingKind::Factory => Some(PriorityClass::Industry),
        BuildingKind::Dwelling => Some(PriorityClass::Housing),
        _ => None,
    }
}

/// What a building is to the water net.
#[derive(Clone, Copy, PartialEq, Eq, Debug, Structural)]
pub enum WaterRole {
    /// Draws water (and needs it drained), served in this class.
    Draws(PriorityClass),
    /// Pumps water into the net.
    Supplies,
    /// Takes sewage off the net.
    Drains,
}

pub open spec fn spec_water_role(kind: BuildingKind) -> Option<WaterRole> {
    match kind {
        BuildingKind::Factory => Some(WaterRole::Draws(PriorityClass::Industry)),
        BuildingKind::Dwelling => Some(WaterRole::Draws(PriorityClass::Housing)),
        BuildingKind::WaterPump => Some(WaterRole::Supplies),
        BuildingKind::SewagePlant => Some(WaterRole::Drains),
        _ => None,
    }
}

pub fn water_role(kind: BuildingKind) -> (r: Option<WaterRole>)
    ensures
        r == spec_water_role(kind),
{
    match kind {
        BuildingKind::Factory => Some(WaterRole::Draws(PriorityClass::Industry)),
        BuildingKind::Dwelling => Some(WaterRole::Draws(PriorityClass::Housing)),
        BuildingKind::WaterPump => Some(WaterRole::Supplies),
        BuildingKind::SewagePlant => Some(WaterRole::Drains),
        _ => None,
    }
}

/// What a building is to the district heating net.
#[derive(Clone, Copy, PartialEq, Eq, Debug, Structural)]
pub enum HeatRole {
    Consumer,
    Producer,
}

pub open spec fn spec_heat_role(kind: BuildingKind) -> Option<HeatRole> {
    match kind {
        BuildingKind::Dwelling => Some(HeatRole::Consumer),
        BuildingKind::HeatPlant => Some(HeatRole::Producer),
        _ => None,
    }
}

pub fn heat_role(kind: BuildingKind) -> (r: Option<HeatRole>)
    ensures
        r == spec_heat_role(kind),
{
    match kind {
        BuildingKind::Dwelling => Some(HeatRole::Consumer),
        BuildingKind::HeatPlant => Some(HeatRole::Producer),
        _ => None,
    }
}

/// A water consumer counts as watered only when both its supply and its
/// drain were served.
pub fn watered(supplied: bool, drained: bool) -> (r: bool)
    ensures
        r == (supplied && drained),
{
    supplied && drained
}

/// An accepted span is new: after stringing it, the same placement (either
/// way round) is refused.
pub proof fn law_no_duplicate_spans(spans: Seq<WireSpan>, id: SpanId, a: u64, b: u64, kind: NetKind)
    requires
        spec_span_accepted(spans, a, b, kind),
    ensures
        !spec_span_accepted(spans.push(WireSpan { id, a, b, kind }), a, b, kind),
        !spec_span_accepted(spans.push(WireSpan { id, a, b, kind }), b, a, kind),
{
    let after = spans.push(WireSpan { id, a, b, kind });
    assert(after[spans.len() as int].kind == kind && joins((after[spans.len() as int].a, after[spans.len() as int].b), a, b));
    assert(after[spans.len() as int].kind == kind && joins((after[spans.len() as int].a, after[spans.len() as int].b), b, a));
}

} // verus!
