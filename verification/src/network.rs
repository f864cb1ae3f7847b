//! The shared capacitated-network solver: undirected spans union their
//! endpoints into components, producers pour supply into their component's
//! pool, and consumers draw in priority order (housing before industry).
use vstd::prelude::*;

verus! {

/// Deficit-allocation rank: lower serves first. A starved component browns
/// out its highest ranks first — industry goes dark before homes.
#[derive(Clone, Copy, PartialEq, Eq, Debug, Structural)]
pub enum PriorityClass {
    /// Homes — the last thing the planner unplugs.
    Housing,
    Industry,
}

/// The rank of a class: lower serves first.
pub open spec fn class_rank(c: PriorityClass) -> int {
    match c {
        PriorityClass::Housing => 0,
        PriorityClass::Industry => 1,
    }
}

/// `x` and `y` are joined by one span, in either direction.
pub open spec fn adjacent(spans: Seq<(u64, u64)>, x: u64, y: u64) -> bool {
    exists|i: int| 0 <= i < spans.len() && (spans[i] == (x, y) || spans[i] == (y, x))
}

/// `p` is a walk over the spans.
pub open spec fn is_path(spans: Seq<(u64, u64)>, p: Seq<u64>) -> bool {
    &&& p.len() >= 1
    &&& forall|i: int| 0 <= i < p.len() - 1 ==> adjacent(spans, #[trigger] p[i], p[i + 1])
}

/// `a` reaches `b` over the spans.
pub open spec fn connected(spans: Seq<(u64, u64)>, a: u64, b: u64) -> bool {
    exists|p: Seq<u64>| #[trigger] is_path(spans, p) && p[0] == a && p.last() == b
}

/// Some span touches `e`.
pub open spec fn touched(spans: Seq<(u64, u64)>, e: u64) -> bool {
    exists|i: int| 0 <= i < spans.len() && (spans[i].0 == e || spans[i].1 == e)
}

/// Component labels over span endpoints. Entities never touched by a span
/// have no component — disconnected consumers get nothing.
pub struct Components {
    labels: Vec<(u64, u64)>,
    spans: Ghost<Seq<(u64, u64)>>,
}

/// Position of `e`'s entry in an association list, or -1.
pub open spec fn entry_of(labels: Seq<(u64, u64)>, e: u64) -> int
    decreases labels.len(),
{
    if labels.len() == 0 {
        -1
    } else if labels.last().0 == e {
        labels.len() - 1
    } else {
        entry_of(labels.drop_last(), e)
    }
}

impl Components {
    /// The spans the components were built from.
    pub closed spec fn spans(&self) -> Seq<(u64, u64)> {
        self.spans@
    }

    /// The component label of `e`, if a span touches it.
    pub closed spec fn label(&self, e: u64) -> Option<u64> {
        label_in(self.labels@, e)
    }

    /// The labelling invariant: exactly the touched entities are labelled,
    /// span endpoints share a label, and every entity reaches its label.
    pub closed spec fn wf(&self) -> bool {
        labels_wf(self.labels@, self.spans@)
    }

    fn find(&self, e: u64) -> (r: Option<usize>)
        ensures
            r is Some <==> entry_of(self.labels@, e) >= 0,
            r is Some ==> r->0 == entry_of(self.labels@, e),
    {
        proof {
            lemma_entry_of(self.labels@, e);
        }
        let mut i = self.labels.len();
        while i > 0
            invariant
                i <= self.labels@.len(),
                forall|j: int| i <= j < self.labels@.len() ==> self.labels@[j].0 != e,
            decreases i,
        {
            i = i - 1;
            if self.labels[i].0 == e {
                proof {
                    lemma_entry_of_last(self.labels@, e, i as int);
                }
                return Some(i);
            }
        }
        None
    }

    /// Union all spans: endpoints of a span end up with one label.
    pub fn from_spans(spans: &Vec<(u64, u64)>) -> (r: Self)
        ensures
            r.wf(),
            r.spans() == spans@,
    {
        let mut c = Components { labels: Vec::new(), spans: Ghost(Seq::empty()) };
        assert(spans@.take(0) =~= Seq::<(u64, u64)>::empty());
        let mut k: usize = 0;
        while k < spans.len()
            invariant
                k <= spans@.len(),
                c.wf(),
                c.spans@ == spans@.take(k as int),
            decreases spans.len() - k,
        {
            let (a, b) = spans[k];
            c.add_span(a, b);
            proof {
                assert(spans@.take(k as int).push((a, b)) =~= spans@.take(k as int + 1));
            }
            k = k + 1;
        }
        proof {
            assert(spans@.take(spans@.len() as int) =~= spans@);
        }
        c
    }

    /// Entry for `e`, creating a self-labelled one if absent.
    fn ensure(&mut self, e: u64) -> (r: usize)
        ensures
            r < final(self).labels@.len(),
            final(self).labels@[r as int].0 == e,
            final(self).spans@ == old(self).spans@,
            entry_of(final(self).labels@, e) == r,
            entry_of(old(self).labels@, e) >= 0 ==> final(self).labels@ == old(self).labels@,
            entry_of(old(self).labels@, e) < 0 ==> final(self).labels@ == old(self).labels@.push((e, e)),
    {
        match self.find(e) {
            Some(i) => {
                proof {
                    lemma_entry_of(self.labels@, e);
                }
                i
            },
            None => {
                let ghost old_labels = self.labels@;
                self.labels.push((e, e));
                proof {
                    lemma_entry_of_push(old_labels, e, (e, e));
                }
                self.labels.len() - 1
            },
        }
    }

    fn add_span(&mut self, a: u64, b: u64)
        requires
            labels_wf(old(self).labels@, old(self).spans@),
        ensures
            final(self).wf(),
            final(self).spans@ == old(self).spans@.push((a, b)),
    {
        let ghost s0 = self.spans@;
        let ghost s1 = s0.push((a, b));
        let ghost l0 = self.labels@;
        // Entries for both endpoints (fresh ones label themselves).
        let ia = self.ensure(a);
        let ghost l1 = self.labels@;
        let ib = self.ensure(b);
        let ghost l2 = self.labels@;
        proof {
            lemma_entry_of(l2, a);
            lemma_entry_of(l2, b);
            if entry_of(l1, b) < 0 {
                lemma_entry_of_push(l1, a, (b, b));
            }
            if entry_of(l0, a) < 0 {
                lemma_entry_of_push(l0, b, (a, a));
            }
            assert(entry_of(l2, a) == ia);
        }
        let la = self.labels[ia].1;
        let lb = self.labels[ib].1;
        self.spans = Ghost(s1);
        proof {
            lemma_wf_after_entries(l0, l2, s0, a, b);
        }
        if la != lb {
            let ghost l3 = self.labels@;
            let mut i: usize = 0;
            while i < self.labels.len()
                invariant
                    i <= self.labels@.len(),
                    self.labels@.len() == l3.len(),
                    forall|j: int| 0 <= j < l3.len() ==> (#[trigger] self.labels@[j]).0 == l3[j].0,
                    forall|j: int|
                        0 <= j < i ==> (#[trigger] self.labels@[j]).1 == if l3[j].1 == la { lb } else { l3[j].1 },
                    forall|j: int| i <= j < l3.len() ==> #[trigger] self.labels@[j] == l3[j],
                    self.spans@ == s1,
                decreases self.labels.len() - i,
            {
                if self.labels[i].1 == la {
                    let node = self.labels[i].0;
                    self.labels.set(i, (node, lb));
                }
                i = i + 1;
            }
            proof {
                lemma_relabel_wf(l3, self.labels@, s0, a, b, la, lb);
            }
        } else {
            proof {
                lemma_same_label_wf(self.labels@, s0, a, b);
            }
        }
    }

    /// The component label of a connected entity; `None` when no span ever
    /// touched it.
    pub fn root(&mut self, e: u64) -> (r: Option<u64>)
        requires
            old(self).wf(),
        ensures
            *final(self) == *old(self),
            r == old(self).label(e),
    {
        proof {
            lemma_entry_of(self.labels@, e);
        }
        match self.find(e) {
            Some(i) => Some(self.labels[i].1),
            None => None,
        }
    }
}


/// The label of `e` in an association list.
pub open spec fn label_in(labels: Seq<(u64, u64)>, e: u64) -> Option<u64> {
    let i = entry_of(labels, e);
    if i < 0 { None } else { Some(labels[i].1) }
}

/// The first `n` spans have endpoints with one label.
pub open spec fn spans_agree(labels: Seq<(u64, u64)>, spans: Seq<(u64, u64)>, n: int) -> bool {
    forall|i: int| 0 <= i < n ==> label_in(labels, #[trigger] spans[i].0) == label_in(labels, spans[i].1)
}

/// Exactly the touched entities are labelled, each reaches its label, and
/// no entity is listed twice.
pub open spec fn labels_core(labels: Seq<(u64, u64)>, spans: Seq<(u64, u64)>) -> bool {
    &&& forall|e: u64| #[trigger] touched(spans, e) <==> entry_of(labels, e) >= 0
    &&& forall|i: int| 0 <= i < labels.len() ==> connected(spans, #[trigger] labels[i].0, labels[i].1)
    &&& forall|i: int, j: int| 0 <= i < j < labels.len() ==> #[trigger] labels[i].0 != #[trigger] labels[j].0
}

pub open spec fn labels_wf(labels: Seq<(u64, u64)>, spans: Seq<(u64, u64)>) -> bool {
    labels_core(labels, spans) && spans_agree(labels, spans, spans.len() as int)
}

proof fn lemma_path_mono(spans: Seq<(u64, u64)>, x: (u64, u64), p: Seq<u64>)
    requires
        is_path(spans, p),
    ensures
        is_path(spans.push(x), p),
{
    assert forall|i: int| 0 <= i < p.len() - 1 implies adjacent(spans.push(x), #[trigger] p[i], p[i + 1]) by {
        let k = choose|k: int| 0 <= k < spans.len() && (spans[k] == (p[i], p[i + 1]) || spans[k] == (p[i + 1], p[i]));
        assert(spans.push(x)[k] == spans[k]);
    }
}

proof fn lemma_conn_mono(spans: Seq<(u64, u64)>, x: (u64, u64), a: u64, b: u64)
    requires
        connected(spans, a, b),
    ensures
        connected(spans.push(x), a, b),
{
    let p = choose|p: Seq<u64>| #[trigger] is_path(spans, p) && p[0] == a && p.last() == b;
    lemma_path_mono(spans, x, p);
}

proof fn lemma_conn_refl(spans: Seq<(u64, u64)>, a: u64)
    ensures
        connected(spans, a, a),
{
    let p = seq![a];
    assert(is_path(spans, p));
}

proof fn lemma_conn_edge(spans: Seq<(u64, u64)>, i: int)
    requires
        0 <= i < spans.len(),
    ensures
        connected(spans, spans[i].0, spans[i].1),
        connected(spans, spans[i].1, spans[i].0),
{
    let p = seq![spans[i].0, spans[i].1];
    assert(adjacent(spans, p[0], p[1]));
    assert(is_path(spans, p));
    let q = seq![spans[i].1, spans[i].0];
    assert(adjacent(spans, q[0], q[1]));
    assert(is_path(spans, q));
}

proof fn lemma_conn_sym(spans: Seq<(u64, u64)>, a: u64, b: u64)
    requires
        connected(spans, a, b),
    ensures
        connected(spans, b, a),
{
    let p = choose|p: Seq<u64>| #[trigger] is_path(spans, p) && p[0] == a && p.last() == b;
    let q = p.reverse();
    assert forall|i: int| 0 <= i < q.len() - 1 implies adjacent(spans, #[trigger] q[i], q[i + 1]) by {
        let j = p.len() - 2 - i;
        assert(adjacent(spans, p[j], p[j + 1]));
        assert(q[i] == p[j + 1]);
        assert(q[i + 1] == p[j]);
    }
    assert(is_path(spans, q));
}

proof fn lemma_conn_trans(spans: Seq<(u64, u64)>, a: u64, b: u64, c: u64)
    requires
        connected(spans, a, b),
        connected(spans, b, c),
    ensures
        connected(spans, a, c),
{
    let p = choose|p: Seq<u64>| #[trigger] is_path(spans, p) && p[0] == a && p.last() == b;
    let q = choose|q: Seq<u64>| #[trigger] is_path(spans, q) && q[0] == b && q.last() == c;
    let r = p + q.drop_first();
    assert forall|i: int| 0 <= i < r.len() - 1 implies adjacent(spans, #[trigger] r[i], r[i + 1]) by {
        if i < p.len() - 1 {
            assert(adjacent(spans, p[i], p[i + 1]));
        } else if i == p.len() - 1 {
            assert(r[i] == b);
            assert(r[i + 1] == q[1]);
            assert(adjacent(spans, q[0], q[1]));
        } else {
            let j = i - p.len() + 1;
            assert(r[i] == q[j]);
            assert(r[i + 1] == q[j + 1]);
            assert(adjacent(spans, q[j], q[j + 1]));
        }
    }
    assert(is_path(spans, r));
    if q.len() == 1 {
        assert(r.last() == p.last());
    } else {
        assert(r.last() == q.last());
    }
}

proof fn lemma_touched_push(spans: Seq<(u64, u64)>, x: (u64, u64), e: u64)
    ensures
        touched(spans.push(x), e) <==> (touched(spans, e) || x.0 == e || x.1 == e),
{
    let s = spans.push(x);
    if touched(spans, e) {
        let k = choose|k: int| 0 <= k < spans.len() && (spans[k].0 == e || spans[k].1 == e);
        assert(s[k] == spans[k]);
    }
    if x.0 == e || x.1 == e {
        assert(s[spans.len() as int] == x);
    }
    if touched(s, e) {
        let k = choose|k: int| 0 <= k < s.len() && (s[k].0 == e || s[k].1 == e);
        if k < spans.len() {
            assert(s[k] == spans[k]);
        }
    }
}

/// Core facts survive adding a self-labelled entry for `e` once `e` is
/// touched by the spans.
proof fn lemma_entry_same_nodes(l: Seq<(u64, u64)>, m: Seq<(u64, u64)>, e: u64)
    requires
        l.len() == m.len(),
        forall|j: int| 0 <= j < l.len() ==> l[j].0 == m[j].0,
    ensures
        entry_of(l, e) == entry_of(m, e),
    decreases l.len(),
{
    if l.len() > 0 {
        lemma_entry_same_nodes(l.drop_last(), m.drop_last(), e);
    }
}

/// After ensuring entries for both endpoints and adding the span, all facts
/// but the new span's agreement hold.
proof fn lemma_wf_after_entries(l0: Seq<(u64, u64)>, l2: Seq<(u64, u64)>, s0: Seq<(u64, u64)>, a: u64, b: u64)
    requires
        labels_wf(l0, s0),
        entry_of(l2, a) >= 0,
        entry_of(l2, b) >= 0,
        l2 == l0 || l2 == l0.push((a, a)) || l2 == l0.push((b, b)) || l2 == l0.push((a, a)).push((b, b)),
        l2 == l0.push((a, a)) ==> entry_of(l0, a) < 0,
        l2 == l0.push((b, b)) ==> entry_of(l0, b) < 0,
        l2 == l0.push((a, a)).push((b, b)) ==> entry_of(l0, a) < 0 && entry_of(l0, b) < 0 && a != b,
    ensures
        labels_core(l2, s0.push((a, b))),
        spans_agree(l2, s0.push((a, b)), s0.len() as int),
{
    let s1 = s0.push((a, b));
    lemma_entry_of(l0, a);
    lemma_entry_of(l0, b);
    // Old entries keep their position and label.
    assert forall|e: u64| entry_of(l0, e) >= 0 implies entry_of(l2, e) == entry_of(l0, e) && l2[entry_of(l0, e)] == l0[entry_of(l0, e)] && label_in(l2, e) == label_in(l0, e) by {
        lemma_entry_of(l0, e);
        if l2 == l0.push((a, a)) {
            lemma_entry_of_push(l0, e, (a, a));
        } else if l2 == l0.push((b, b)) {
            lemma_entry_of_push(l0, e, (b, b));
        } else if l2 == l0.push((a, a)).push((b, b)) {
            lemma_entry_of_push(l0, e, (a, a));
            lemma_entry_of_push(l0.push((a, a)), e, (b, b));
        }
    }
    assert forall|e: u64| #[trigger] touched(s1, e) <==> entry_of(l2, e) >= 0 by {
        lemma_touched_push(s0, (a, b), e);
        lemma_entry_of(l0, e);
        if l2 == l0.push((a, a)) {
            lemma_entry_of_push(l0, e, (a, a));
        } else if l2 == l0.push((b, b)) {
            lemma_entry_of_push(l0, e, (b, b));
        } else if l2 == l0.push((a, a)).push((b, b)) {
            lemma_entry_of_push(l0, e, (a, a));
            lemma_entry_of_push(l0.push((a, a)), e, (b, b));
        }
    }
    assert forall|i: int| 0 <= i < l2.len() implies connected(s1, #[trigger] l2[i].0, l2[i].1) by {
        if i < l0.len() {
            assert(l2[i] == l0[i]);
            lemma_conn_mono(s0, (a, b), l0[i].0, l0[i].1);
        } else {
            lemma_conn_refl(s1, l2[i].0);
        }
    }
    assert forall|i: int, j: int| 0 <= i < j < l2.len() implies #[trigger] l2[i].0 != #[trigger] l2[j].0 by {
        if j >= l0.len() {
            if i < l0.len() {
                assert(l2[i] == l0[i]);
            }
        } else {
            assert(l2[i] == l0[i]);
            assert(l2[j] == l0[j]);
        }
    }
    assert forall|i: int| 0 <= i < s0.len() implies label_in(l2, #[trigger] s1[i].0) == label_in(l2, s1[i].1) by {
        assert(s1[i] == s0[i]);
        assert(touched(s0, s0[i].0));
        assert(touched(s0, s0[i].1));
        assert(label_in(l0, s0[i].0) == label_in(l0, s0[i].1));
    }
}

/// Relabelling `la` to `lb` after adding span (a, b) restores the invariant.
proof fn lemma_relabel_wf(
    l3: Seq<(u64, u64)>,
    l4: Seq<(u64, u64)>,
    s0: Seq<(u64, u64)>,
    a: u64,
    b: u64,
    la: u64,
    lb: u64,
)
    requires
        labels_core(l3, s0.push((a, b))),
        spans_agree(l3, s0.push((a, b)), s0.len() as int),
        label_in(l3, a) == Some(la),
        label_in(l3, b) == Some(lb),
        la != lb,
        l4.len() == l3.len(),
        forall|j: int| 0 <= j < l3.len() ==> (#[trigger] l4[j]).0 == l3[j].0,
        forall|j: int| 0 <= j < l3.len() ==> (#[trigger] l4[j]).1 == if l3[j].1 == la { lb } else { l3[j].1 },
    ensures
        labels_wf(l4, s0.push((a, b))),
{
    let s1 = s0.push((a, b));
    assert forall|e: u64| entry_of(l4, e) == entry_of(l3, e) by {
        lemma_entry_same_nodes(l4, l3, e);
    }
    assert forall|e: u64| #[trigger] label_in(l4, e) == match label_in(l3, e) {
        Some(x) => Some(if x == la { lb } else { x }),
        None => None,
    } by {
        lemma_entry_of(l3, e);
    }
    let ia = entry_of(l3, a);
    let ib = entry_of(l3, b);
    lemma_entry_of(l3, a);
    lemma_entry_of(l3, b);
    // a reaches la, b reaches lb, and (a, b) is the new span.
    assert(connected(s1, l3[ia].0, l3[ia].1));
    assert(connected(s1, l3[ib].0, l3[ib].1));
    lemma_conn_sym(s1, a, la);
    lemma_conn_edge(s1, s0.len() as int);
    assert(s1[s0.len() as int] == (a, b));
    lemma_conn_trans(s1, la, a, b);
    lemma_conn_trans(s1, la, b, lb);
    assert forall|i: int| 0 <= i < l4.len() implies connected(s1, #[trigger] l4[i].0, l4[i].1) by {
        assert(connected(s1, l3[i].0, l3[i].1));
        if l3[i].1 == la {
            lemma_conn_trans(s1, l3[i].0, la, lb);
        }
    }
    assert forall|i: int, j: int| 0 <= i < j < l4.len() implies #[trigger] l4[i].0 != #[trigger] l4[j].0 by {
        assert(l3[i].0 != l3[j].0);
    }
    assert forall|e: u64| #[trigger] touched(s1, e) <==> entry_of(l4, e) >= 0 by {
        assert(touched(s1, e) <==> entry_of(l3, e) >= 0);
    }
    assert forall|i: int| 0 <= i < s1.len() implies label_in(l4, #[trigger] s1[i].0) == label_in(l4, s1[i].1) by {
        let _ = label_in(l4, s1[i].0);
        let _ = label_in(l4, s1[i].1);
        let _ = label_in(l3, s1[i].0);
        let _ = label_in(l3, s1[i].1);
        if i == s0.len() {
            assert(s1[i] == (a, b));
        }
    }
}

proof fn lemma_same_label_wf(l: Seq<(u64, u64)>, s0: Seq<(u64, u64)>, a: u64, b: u64)
    requires
        labels_core(l, s0.push((a, b))),
        spans_agree(l, s0.push((a, b)), s0.len() as int),
        label_in(l, a) == label_in(l, b),
    ensures
        labels_wf(l, s0.push((a, b))),
{
    let s1 = s0.push((a, b));
    assert forall|i: int| 0 <= i < s1.len() implies label_in(l, #[trigger] s1[i].0) == label_in(l, s1[i].1) by {
        if i == s0.len() {
            assert(s1[i] == (a, b));
        }
    }
}


proof fn lemma_path_labels(c: Seq<(u64, u64)>, spans: Seq<(u64, u64)>, p: Seq<u64>, k: int)
    requires
        labels_wf(c, spans),
        is_path(spans, p),
        0 <= k < p.len(),
    ensures
        label_in(c, p[k]) == label_in(c, p[0]),
    decreases k,
{
    if k > 0 {
        lemma_path_labels(c, spans, p, k - 1);
        assert(adjacent(spans, p[k - 1], p[k]));
        let i = choose|i: int| 0 <= i < spans.len() && (spans[i] == (p[k - 1], p[k]) || spans[i] == (p[k], p[k - 1]));
        assert(label_in(c, spans[i].0) == label_in(c, spans[i].1));
    }
}

/// The component law: an entity has a component exactly when some span
/// touches it, and two touched entities share a component exactly when the
/// spans connect them.
pub proof fn law_components_match_connectivity(c: &Components, a: u64, b: u64)
    requires
        c.wf(),
    ensures
        c.label(a) is Some <==> touched(c.spans(), a),
        touched(c.spans(), a) && touched(c.spans(), b) ==> (c.label(a) == c.label(b) <==> connected(
            c.spans(),
            a,
            b,
        )),
{
    let l = c.labels@;
    let s = c.spans@;
    lemma_entry_of(l, a);
    lemma_entry_of(l, b);
    assert(touched(s, a) <==> entry_of(l, a) >= 0);
    assert(touched(s, b) <==> entry_of(l, b) >= 0);
    if touched(s, a) && touched(s, b) {
        let ia = entry_of(l, a);
        let ib = entry_of(l, b);
        assert(connected(s, l[ia].0, l[ia].1));
        assert(connected(s, l[ib].0, l[ib].1));
        if c.label(a) == c.label(b) {
            lemma_conn_sym(s, b, l[ib].1);
            lemma_conn_trans(s, a, l[ia].1, b);
        }
        if connected(s, a, b) {
            let p = choose|p: Seq<u64>| #[trigger] is_path(s, p) && p[0] == a && p.last() == b;
            lemma_path_labels(l, s, p, p.len() - 1);
        }
    }
}

/// Consumers in service order: by class rank (housing first), then by stable
/// id; equal keys keep their input order. `demands[i]` is (stable id, class).
pub fn service_order(demands: &Vec<(u64, PriorityClass)>) -> (r: Vec<usize>)
    ensures
        r@.len() == demands@.len(),
        forall|k: int| 0 <= k < r@.len() ==> r@[k] < demands@.len(),
        forall|j: int, k: int| 0 <= j < k < r@.len() ==> r@[j] != r@[k],
        forall|j: int, k: int|
            0 <= j < k < r@.len() ==> key_le(demands@[#[trigger] r@[j] as int], demands@[#[trigger] r@[k] as int]),
        forall|j: int, k: int|
            0 <= j < k < r@.len() && demands@[r@[j] as int].0 == demands@[r@[k] as int].0
                && demands@[r@[j] as int].1 == demands@[r@[k] as int].1 ==> r@[j] < r@[k],
{
    let mut r: Vec<usize> = Vec::new();
    let mut i: usize = 0;
    while i < demands.len()
        invariant
            i <= demands@.len(),
            r@.len() == i,
            forall|k: int| 0 <= k < r@.len() ==> r@[k] < i,
            forall|j: int, k: int| 0 <= j < k < r@.len() ==> r@[j] != r@[k],
            forall|j: int, k: int|
                0 <= j < k < r@.len() ==> key_le(demands@[#[trigger] r@[j] as int], demands@[#[trigger] r@[k] as int]),
            forall|j: int, k: int|
                0 <= j < k < r@.len() && demands@[r@[j] as int].0 == demands@[r@[k] as int].0
                    && demands@[r@[j] as int].1 == demands@[r@[k] as int].1 ==> r@[j] < r@[k],
        decreases demands.len() - i,
    {
        // Insert after every entry whose key is not above this one's.
        let (id, class) = demands[i];
        let mut pos: usize = r.len();
        while pos > 0 && !key_le_exec(demands[r[pos - 1]], demands[i])
            invariant
                pos <= r@.len(),
                r@.len() == i,
                i < demands@.len(),
                forall|k: int| 0 <= k < r@.len() ==> r@[k] < i,
                forall|k: int| pos <= k < r@.len() ==> !key_le(demands@[#[trigger] r@[k] as int], demands@[i as int]),
            decreases pos,
        {
            pos = pos - 1;
        }
        let ghost before = r@;
        r.insert(pos, i);
        proof {
            assert(r@ =~= before.insert(pos as int, i));
            assert forall|j: int, k: int| 0 <= j < k < r@.len() implies key_le(demands@[#[trigger] r@[j] as int], demands@[#[trigger] r@[k] as int]) by {
                lemma_key_total(demands@[r@[j] as int], demands@[r@[k] as int]);
                if j < pos && k == pos {
                    // the entry just before the insertion point is not above `i`
                    assert(key_le(demands@[before[pos - 1] as int], demands@[i as int]));
                    if j < pos - 1 {
                        assert(key_le(demands@[before[j] as int], demands@[before[pos - 1] as int]));
                        lemma_key_trans(demands@[before[j] as int], demands@[before[pos - 1] as int], demands@[i as int]);
                    }
                } else if j == pos && k > pos {
                    assert(!key_le(demands@[before[k - 1] as int], demands@[i as int]));
                    lemma_key_total(demands@[before[k - 1] as int], demands@[i as int]);
                }
            }
        }
        i = i + 1;
    }
    r
}

/// Service-order key comparison: (class rank, id) not above.
pub open spec fn key_le(x: (u64, PriorityClass), y: (u64, PriorityClass)) -> bool {
    class_rank(x.1) < class_rank(y.1) || (class_rank(x.1) == class_rank(y.1) && x.0 <= y.0)
}

fn key_le_exec(x: (u64, PriorityClass), y: (u64, PriorityClass)) -> (r: bool)
    ensures
        r == key_le(x, y),
{
    let rx: u8 = match x.1 {
        PriorityClass::Housing => 0,
        PriorityClass::Industry => 1,
    };
    let ry: u8 = match y.1 {
        PriorityClass::Housing => 0,
        PriorityClass::Industry => 1,
    };
    rx < ry || (rx == ry && x.0 <= y.0)
}

proof fn lemma_key_total(x: (u64, PriorityClass), y: (u64, PriorityClass))
    ensures
        key_le(x, y) || key_le(y, x),
{
}

proof fn lemma_key_trans(x: (u64, PriorityClass), y: (u64, PriorityClass), z: (u64, PriorityClass))
    requires
        key_le(x, y),
        key_le(y, z),
    ensures
        key_le(x, z),
{
}

proof fn lemma_entry_of(labels: Seq<(u64, u64)>, e: u64)
    ensures
        -1 <= entry_of(labels, e) < labels.len(),
        entry_of(labels, e) >= 0 ==> labels[entry_of(labels, e)].0 == e,
        entry_of(labels, e) < 0 ==> forall|i: int| 0 <= i < labels.len() ==> labels[i].0 != e,
        entry_of(labels, e) >= 0 ==> forall|i: int| entry_of(labels, e) < i < labels.len() ==> labels[i].0 != e,
    decreases labels.len(),
{
    if labels.len() > 0 {
        lemma_entry_of(labels.drop_last(), e);
        assert forall|i: int| 0 <= i < labels.len() - 1 implies labels.drop_last()[i] == labels[i] by {}
    }
}

proof fn lemma_entry_of_last(labels: Seq<(u64, u64)>, e: u64, i: int)
    requires
        0 <= i < labels.len(),
        labels[i].0 == e,
        forall|j: int| i < j < labels.len() ==> labels[j].0 != e,
    ensures
        entry_of(labels, e) == i,
    decreases labels.len(),
{
    if i < labels.len() - 1 {
        lemma_entry_of_last(labels.drop_last(), e, i);
    }
}

proof fn lemma_entry_of_push(labels: Seq<(u64, u64)>, e: u64, x: (u64, u64))
    ensures
        entry_of(labels.push(x), e) == if x.0 == e { labels.len() as int } else { entry_of(labels, e) },
{
    assert(labels.push(x).drop_last() =~= labels);
}

} // verus!
