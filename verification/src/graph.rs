//! The temporal graph: a vertex set and undirected edges that each carry a
//! non-empty set of timestamps. Vertices, edges and timestamps are all kept
//! in ascending order, so that every scan visits them in a fixed order and
//! the stored edges are already the graph's canonical form.
use crate::model::{edge_key, key_lt, label_of, GraphView, Label, TimeStep, VertexId};
use crate::state::{
    canonical, entry_has, increasing_keys, increasing_times, increasing_vertices, is_state_of,
    key_position, labels_of, lemma_absent_key, lemma_absent_time, lemma_entry_labels,
    lemma_insert_entry, lemma_insert_time, lemma_remove_entry, lemma_remove_last_time,
    lemma_remove_time, state_entries, time_position, valid_entry, GraphState, StateEntry,
};
use vstd::prelude::*;

verus! {

/// An undirected edge with its timestamps. Inside a graph `u <= v` holds and
/// the timestamps ascend strictly and are not empty.
#[derive(Debug, Clone)]
pub struct TemporalEdge {
    pub u: VertexId,
    pub v: VertexId,
    pub timestamps: Vec<TimeStep>,
}

impl TemporalEdge {
    /// The key and timestamps of the edge as an entry of a canonical form.
    pub open spec fn entry(self) -> StateEntry {
        ((self.u, self.v), self.timestamps@)
    }

    /// Orders the endpoints of an edge: smaller first.
    pub fn normalize_pair(a: VertexId, b: VertexId) -> (k: (VertexId, VertexId))
        ensures
            k == edge_key(a, b),
    {
        if a <= b {
            (a, b)
        } else {
            (b, a)
        }
    }
}

/// A temporal graph. Its model, `graph@`, is the set of its vertices and the
/// set of its labels; every operation is specified over the model, and needs
/// and keeps the representation invariant [`TemporalGraph::wf`].
#[derive(Debug)]
pub struct TemporalGraph {
    pub(crate) vertices: Vec<VertexId>,
    pub(crate) edges: Vec<TemporalEdge>,
}

impl Default for TemporalGraph {
    fn default() -> (g: Self)
        ensures
            g.wf(),
            g@ == GraphView::empty(),
    {
        TemporalGraph::new()
    }
}

impl View for TemporalGraph {
    type V = GraphView;

    closed spec fn view(&self) -> GraphView {
        GraphView { vertices: self.vertices@.to_set(), labels: labels_of(self.entries()) }
    }
}

/// The first position in the ascending `items` whose element is not below
/// `x`, by bisection.
fn vertex_position(items: &Vec<VertexId>, x: VertexId) -> (p: usize)
    requires
        increasing_vertices(items@),
    ensures
        p <= items.len(),
        forall|i: int| 0 <= i < p ==> items[i] < x,
        forall|i: int| p <= i < items.len() ==> items[i] >= x,
        items@.contains(x) <==> (p < items.len() && items[p as int] == x),
{
    let mut low: usize = 0;
    let mut high: usize = items.len();
    while low < high
        invariant
            low <= high <= items.len(),
            increasing_vertices(items@),
            forall|i: int| 0 <= i < low ==> items[i] < x,
            forall|i: int| high <= i < items.len() ==> items[i] >= x,
        decreases high - low,
    {
        let middle = low + (high - low) / 2;
        if items[middle] < x {
            proof {
                assert forall|i: int| 0 <= i < middle + 1 implies items[i] < x by {
                    if i < middle {
                        assert(items[i] < items[middle as int]);
                    }
                }
            }
            low = middle + 1;
        } else {
            proof {
                assert forall|i: int| middle <= i < items.len() implies items[i] >= x by {
                    if i > middle {
                        assert(items[middle as int] < items[i]);
                    }
                }
            }
            high = middle;
        }
    }
    proof {
        if items@.contains(x) {
            let j = choose|j: int| 0 <= j < items.len() && items[j] == x;
            if j > low {
                assert(items[low as int] < items[j]);
            }
        }
    }
    low
}

/// The first position in the ascending `times` whose element is not below
/// `t`, by bisection.
pub(crate) fn timestamp_position(times: &Vec<TimeStep>, t: TimeStep) -> (q: usize)
    requires
        increasing_times(times@),
    ensures
        time_position(times@, t, q as int),
        times@.contains(t) <==> (q < times.len() && times[q as int] == t),
{
    let mut low: usize = 0;
    let mut high: usize = times.len();
    while low < high
        invariant
            low <= high <= times.len(),
            increasing_times(times@),
            forall|i: int| 0 <= i < low ==> times[i] < t,
            forall|i: int| high <= i < times.len() ==> times[i] >= t,
        decreases high - low,
    {
        let middle = low + (high - low) / 2;
        if times[middle] < t {
            proof {
                assert forall|i: int| 0 <= i < middle + 1 implies times[i] < t by {
                    if i < middle {
                        assert(times[i] < times[middle as int]);
                    }
                }
            }
            low = middle + 1;
        } else {
            proof {
                assert forall|i: int| middle <= i < times.len() implies times[i] >= t by {
                    if i > middle {
                        assert(times[middle as int] < times[i]);
                    }
                }
            }
            high = middle;
        }
    }
    proof {
        lemma_absent_time(times@, t, low as int);
    }
    low
}

/// Whether the edge with key `k` has `vertex` as an endpoint.
pub open spec fn touches(k: (VertexId, VertexId), vertex: VertexId) -> bool {
    k.0 == vertex || k.1 == vertex
}

/// The endpoint of the edge with key `k` that lies opposite `vertex`.
pub open spec fn other_end(k: (VertexId, VertexId), vertex: VertexId) -> VertexId {
    if k.0 == vertex {
        k.1
    } else {
        k.0
    }
}

/// Whether an entry is selected by `time`: it carries the timestamp where
/// one is given, and any entry is selected where none is.
pub open spec fn carries(e: StateEntry, time: Option<TimeStep>) -> bool {
    match time {
        Some(t) => e.1.contains(t),
        None => true,
    }
}

/// A copy of a vector of vertices.
fn copy_vertices(items: &Vec<VertexId>) -> (copy: Vec<VertexId>)
    ensures
        copy@ == items@,
{
    let mut copy: Vec<VertexId> = Vec::new();
    let mut i: usize = 0;
    while i < items.len()
        invariant
            i <= items.len(),
            copy@ == items@.subrange(0, i as int),
        decreases items.len() - i,
    {
        copy.push(items[i]);
        assert(copy@ =~= items@.subrange(0, i + 1));
        i += 1;
    }
    assert(copy@ =~= items@);
    copy
}

/// A copy of a vector of timestamps.
fn copy_times(items: &Vec<TimeStep>) -> (copy: Vec<TimeStep>)
    ensures
        copy@ == items@,
{
    let mut copy: Vec<TimeStep> = Vec::new();
    let mut i: usize = 0;
    while i < items.len()
        invariant
            i <= items.len(),
            copy@ == items@.subrange(0, i as int),
        decreases items.len() - i,
    {
        copy.push(items[i]);
        assert(copy@ =~= items@.subrange(0, i + 1));
        i += 1;
    }
    assert(copy@ =~= items@);
    copy
}

/// The keys of the entries of a canonical form are the keys of its labels,
/// each once.
pub proof fn lemma_edge_keys(s: Seq<StateEntry>, g: GraphView)
    requires
        canonical(s),
        g.labels == labels_of(s),
    ensures
        g.edge_keys() == s.map_values(|e: StateEntry| e.0).to_set(),
        g.edge_keys().finite(),
        g.edge_keys().len() == s.len(),
{
    let keys = s.map_values(|e: StateEntry| e.0);
    assert forall|k: (VertexId, VertexId)| g.edge_keys().contains(k) <==> keys.to_set().contains(
        k,
    ) by {
        if g.edge_keys().contains(k) {
            let t = choose|t: TimeStep| g.labels.contains((k.0, k.1, t));
            let i = choose|i: int| 0 <= i < s.len() && entry_has(#[trigger] s[i], (k.0, k.1, t));
            assert(keys[i] == k);
        }
        if keys.contains(k) {
            let i = choose|i: int| 0 <= i < keys.len() && keys[i] == k;
            assert(valid_entry(s[i]));
            assert(entry_has(s[i], (k.0, k.1, s[i].1[0])));
            assert(g.labels.contains((k.0, k.1, s[i].1[0])));
        }
    }
    assert(g.edge_keys() =~= keys.to_set());
    assert forall|i: int, j: int|
        0 <= i < keys.len() && 0 <= j < keys.len() && i != j implies keys[i] != keys[j] by {
        if i < j {
            assert(key_lt(s[i].0, s[j].0));
        } else {
            assert(key_lt(s[j].0, s[i].0));
        }
    }
    keys.unique_seq_to_set();
    vstd::seq_lib::seq_to_set_is_finite(keys);
}

/// Entering `x` anywhere in a sequence adds it to the sequence's elements.
proof fn lemma_insert_elements<T>(s: Seq<T>, p: int, x: T)
    requires
        0 <= p <= s.len(),
    ensures
        s.insert(p, x).to_set() == s.to_set().insert(x),
{
    let r = s.insert(p, x);
    assert forall|y: T| r.to_set().contains(y) <==> s.to_set().insert(x).contains(y) by {
        if r.contains(y) {
            let j = choose|j: int| 0 <= j < r.len() && r[j] == y;
            if j < p {
                assert(s[j] == y);
            } else if j > p {
                assert(s[j - 1] == y);
            }
        }
        if s.contains(y) {
            let j = choose|j: int| 0 <= j < s.len() && s[j] == y;
            if j < p {
                assert(r[j] == y);
            } else {
                assert(r[j + 1] == y);
            }
        }
        if y == x {
            assert(r[p] == x);
        }
    }
    assert(r.to_set() =~= s.to_set().insert(x));
}

impl TemporalGraph {
    /// The stored edges as a sequence of entries.
    pub closed spec fn entries(&self) -> Seq<StateEntry> {
        self.edges@.map_values(|e: TemporalEdge| e.entry())
    }

    /// The representation invariant: vertices ascend strictly, the edges are
    /// in canonical form (so no stored edge is without a timestamp), and the
    /// endpoints of every edge are vertices.
    pub closed spec fn wf(&self) -> bool {
        &&& increasing_vertices(self.vertices@)
        &&& canonical(self.entries())
        &&& forall|i: int|
            0 <= i < self.edges.len() ==> self.vertices@.contains((#[trigger] self.edges[i]).u)
                && self.vertices@.contains(self.edges[i].v)
    }

    /// A well-formed graph has a well-formed model, and its stored edges are
    /// the canonical form of its labels.
    pub proof fn lemma_view_wf(&self)
        requires
            self.wf(),
        ensures
            self@.wf(),
            is_state_of(self.entries(), self@.labels),
    {
        let s = self.entries();
        assert forall|l: Label| #[trigger] self@.labels.contains(l) implies l.0 <= l.1
            && self@.vertices.contains(l.0) && self@.vertices.contains(l.1) by {
            let i = choose|i: int| 0 <= i < s.len() && entry_has(#[trigger] s[i], l);
            assert(valid_entry(s[i]));
            assert(self.edges[i].u == l.0 && self.edges[i].v == l.1);
        }
        vstd::seq_lib::seq_to_set_is_finite(self.vertices@);
        lemma_labels_finite(s);
    }

    /// The first position among the edges whose key is not below `(a, b)`,
    /// by bisection.
    fn edge_position(&self, a: VertexId, b: VertexId) -> (p: usize)
        requires
            self.wf(),
        ensures
            key_position(self.entries(), (a, b), p as int),
            p <= self.edges.len(),
    {
        let ghost s = self.entries();
        let mut low: usize = 0;
        let mut high: usize = self.edges.len();
        while low < high
            invariant
                low <= high <= self.edges.len(),
                s == self.entries(),
                s.len() == self.edges.len(),
                canonical(s),
                forall|i: int| 0 <= i < low ==> key_lt((#[trigger] s[i]).0, (a, b)),
                forall|i: int| high <= i < s.len() ==> !key_lt((#[trigger] s[i]).0, (a, b)),
            decreases high - low,
        {
            let middle = low + (high - low) / 2;
            assert(s[middle as int] == self.edges[middle as int].entry());
            if self.edges[middle].u < a || (self.edges[middle].u == a && self.edges[middle].v
                < b) {
                proof {
                    assert forall|i: int| 0 <= i < middle + 1 implies key_lt(
                        (#[trigger] s[i]).0,
                        (a, b),
                    ) by {
                        if i < middle {
                            assert(key_lt(s[i].0, s[middle as int].0));
                        }
                    }
                }
                low = middle + 1;
            } else {
                proof {
                    assert forall|i: int| middle <= i < s.len() implies !key_lt(
                        (#[trigger] s[i]).0,
                        (a, b),
                    ) by {
                        if i > middle {
                            assert(key_lt(s[middle as int].0, s[i].0));
                        }
                    }
                }
                high = middle;
            }
        }
        low
    }

    /// Inserts vertex `id` if it is absent; returns whether it was inserted.
    pub fn add_vertex(&mut self, id: VertexId) -> (inserted: bool)
        requires
            old(self).wf(),
        ensures
            final(self).wf(),
            final(self)@ == old(self)@.with_vertex(id),
            inserted == !old(self)@.vertices.contains(id),
    {
        let p = vertex_position(&self.vertices, id);
        if p < self.vertices.len() && self.vertices[p] == id {
            proof {
                assert(self@.vertices =~= old(self)@.with_vertex(id).vertices);
            }
            false
        } else {
            self.vertices.insert(p, id);
            proof {
                let before = old(self).vertices@;
                let after = self.vertices@;
                lemma_insert_elements(before, p as int, id);
                assert forall|i: int, j: int| 0 <= i < j < after.len() implies after[i]
                    < after[j] by {
                    if j < p {
                    } else if j == p {
                    } else if i < p {
                        assert(after[j] == before[j - 1]);
                    } else if i == p {
                        assert(after[j] == before[j - 1]);
                    } else {
                        assert(after[i] == before[i - 1] && after[j] == before[j - 1]);
                    }
                }
                assert(self.entries() == old(self).entries());
                assert forall|i: int| 0 <= i < self.edges.len() implies self.vertices@.contains(
                    (#[trigger] self.edges[i]).u,
                ) && self.vertices@.contains(self.edges[i].v) by {
                    assert(before.to_set().contains(self.edges[i].u));
                    assert(before.to_set().contains(self.edges[i].v));
                    assert(after.to_set().contains(self.edges[i].u));
                    assert(after.to_set().contains(self.edges[i].v));
                }
            }
            true
        }
    }

    /// Adds timestamp `time` to the undirected edge `{u, v}`, creating the
    /// endpoints and the edge where they are missing. Adding a timestamp
    /// that the edge already has changes nothing.
    pub fn add_edge(&mut self, u: VertexId, v: VertexId, time: TimeStep)
        requires
            old(self).wf(),
        ensures
            final(self).wf(),
            final(self)@ == old(self)@.with_label(u, v, time),
    {
        self.add_vertex(u);
        self.add_vertex(v);
        let (a, b) = TemporalEdge::normalize_pair(u, v);
        let p = self.edge_position(a, b);
        let ghost before = self.entries();
        let ghost added = label_of(u, v, time);
        assert(self.vertices@.to_set().contains(a) && self.vertices@.to_set().contains(b));
        if p < self.edges.len() && self.edges[p].u == a && self.edges[p].v == b {
            assert(valid_entry(before[p as int]));
            let q = timestamp_position(&self.edges[p].timestamps, time);
            if q < self.edges[p].timestamps.len() && self.edges[p].timestamps[q] == time {
                proof {
                    lemma_entry_labels(before, p as int, added);
                    assert(labels_of(before) =~= labels_of(before).insert(added));
                }
            } else {
                self.edges[p].timestamps.insert(q, time);
                proof {
                    lemma_insert_time(before, p as int, time, q as int);
                    assert(self.entries() =~= before.update(
                        p as int,
                        (before[p as int].0, before[p as int].1.insert(q as int, time)),
                    ));
                }
            }
        } else {
            let mut timestamps: Vec<TimeStep> = Vec::new();
            timestamps.push(time);
            self.edges.insert(p, TemporalEdge { u: a, v: b, timestamps });
            proof {
                lemma_insert_entry(before, (a, b), time, p as int);
                assert(timestamps@ =~= seq![time]);
                assert(self.entries() =~= before.insert(p as int, ((a, b), seq![time])));
            }
        }
    }

    /// The position of edge `{u, v}` among the stored edges, if it exists.
    pub(crate) fn find_edge(&self, u: VertexId, v: VertexId) -> (found: Option<usize>)
        requires
            self.wf(),
        ensures
            match found {
                Some(i) => i < self.edges.len() && self.edges[i as int].entry().0 == edge_key(
                    u,
                    v,
                ) && self@.has_edge(u, v),
                None => !self@.has_edge(u, v),
            },
    {
        let (a, b) = TemporalEdge::normalize_pair(u, v);
        let p = self.edge_position(a, b);
        let ghost s = self.entries();
        if p < self.edges.len() && self.edges[p].u == a && self.edges[p].v == b {
            proof {
                assert(valid_entry(s[p as int]));
                let t = s[p as int].1[0];
                assert(entry_has(s[p as int], (a, b, t)));
                assert(self@.has_label(u, v, t));
            }
            Some(p)
        } else {
            proof {
                lemma_absent_key(s, (a, b), p as int);
            }
            None
        }
    }

    /// Relates the timestamps stored with the edge at position `i` to the
    /// model.
    pub(crate) proof fn lemma_edge_at(&self, i: int, u: VertexId, v: VertexId)
        requires
            self.wf(),
            0 <= i < self.edges.len(),
            self.edges[i].entry().0 == edge_key(u, v),
        ensures
            valid_entry(self.edges[i].entry()),
            forall|t: TimeStep| self@.has_label(u, v, t) <==> self.edges[i].timestamps@.contains(t),
            self@.is_min_label(u, v, self.edges[i].timestamps@[0]),
            self@.is_max_label(u, v, self.edges[i].timestamps@.last()),
    {
        let s = self.entries();
        let times = self.edges[i].timestamps@;
        assert(s[i] == self.edges[i].entry());
        assert(valid_entry(s[i]));
        assert forall|t: TimeStep| self@.has_label(u, v, t) <==> times.contains(t) by {
            lemma_entry_labels(s, i, label_of(u, v, t));
        }
        assert(times.contains(times[0]));
        assert(times.contains(times.last()));
        assert forall|t: TimeStep| #[trigger] self@.has_label(u, v, t) implies times[0] <= t && t
            <= times.last() by {
            let c = choose|c: int| 0 <= c < times.len() && times[c] == t;
            if 0 < c {
                assert(times[0] < times[c]);
            }
            if c < times.len() - 1 {
                assert(times[c] < times[times.len() - 1]);
            }
        }
    }

    /// Whether edge `{u, v}` carries timestamp `time`.
    pub fn has_edge_at_time(&self, u: VertexId, v: VertexId, time: TimeStep) -> (present: bool)
        requires
            self.wf(),
        ensures
            present == self@.has_label(u, v, time),
    {
        match self.find_edge(u, v) {
            Some(i) => {
                proof {
                    self.lemma_edge_at(i as int, u, v);
                }
                let q = timestamp_position(&self.edges[i].timestamps, time);
                q < self.edges[i].timestamps.len() && self.edges[i].timestamps[q] == time
            },
            None => false,
        }
    }

    /// The timestamps of edge `{u, v}` in ascending order, or `None` when
    /// the edge does not exist.
    pub fn edge_times(&self, u: VertexId, v: VertexId) -> (times: Option<Vec<TimeStep>>)
        requires
            self.wf(),
        ensures
            times is Some <==> self@.has_edge(u, v),
            times is Some ==> increasing_times(times.unwrap()@) && times.unwrap()@.to_set()
                == self@.edge_labels(u, v),
    {
        match self.find_edge(u, v) {
            Some(i) => {
                let times = self.edges[i].timestamps.clone();
                proof {
                    self.lemma_edge_at(i as int, u, v);
                    assert(times@ =~= self.edges[i as int].timestamps@);
                    assert(times@.to_set() =~= self@.edge_labels(u, v));
                }
                Some(times)
            },
            None => None,
        }
    }

    /// The smallest and the largest timestamp of edge `{u, v}`, or `None`
    /// when the edge does not exist.
    pub fn get_edge_time_range(&self, u: VertexId, v: VertexId) -> (range: Option<
        (TimeStep, TimeStep),
    >)
        requires
            self.wf(),
        ensures
            range == self@.time_range(u, v),
            range is Some ==> self@.is_min_label(u, v, range.unwrap().0) && self@.is_max_label(
                u,
                v,
                range.unwrap().1,
            ),
    {
        match self.find_edge(u, v) {
            Some(i) => {
                proof {
                    self.lemma_edge_at(i as int, u, v);
                    let times = self.edges[i as int].timestamps@;
                    crate::model::lemma_min_label(self@, u, v, times[0]);
                    crate::model::lemma_max_label(self@, u, v, times.last());
                }
                let n = self.edges[i].timestamps.len();
                Some((self.edges[i].timestamps[0], self.edges[i].timestamps[n - 1]))
            },
            None => None,
        }
    }

    /// Removes timestamp `time` from edge `{u, v}`; returns whether the edge
    /// carried it. An edge that loses its last timestamp is removed.
    pub fn remove_edge_timestamp(&mut self, u: VertexId, v: VertexId, time: TimeStep) -> (removed:
        bool)
        requires
            old(self).wf(),
        ensures
            final(self).wf(),
            final(self)@ == old(self)@.without_label(u, v, time),
            removed == old(self)@.has_label(u, v, time),
    {
        let ghost before = self.entries();
        let ghost gone = label_of(u, v, time);
        match self.find_edge(u, v) {
            Some(i) => {
                proof {
                    self.lemma_edge_at(i as int, u, v);
                }
                let q = timestamp_position(&self.edges[i].timestamps, time);
                if q < self.edges[i].timestamps.len() && self.edges[i].timestamps[q] == time {
                    if self.edges[i].timestamps.len() == 1 {
                        self.edges.remove(i);
                        proof {
                            lemma_remove_entry(before, i as int);
                            lemma_remove_last_time(before, i as int);
                            assert(self.entries() =~= before.remove(i as int));
                        }
                    } else {
                        self.edges[i].timestamps.remove(q);
                        proof {
                            lemma_remove_time(before, i as int, q as int);
                            assert(self.entries() =~= before.update(
                                i as int,
                                (before[i as int].0, before[i as int].1.remove(q as int)),
                            ));
                        }
                    }
                    true
                } else {
                    proof {
                        assert(labels_of(before) =~= labels_of(before).remove(gone));
                    }
                    false
                }
            },
            None => {
                proof {
                    assert(!self@.has_label(u, v, time));
                    assert(labels_of(before) =~= labels_of(before).remove(gone));
                }
                false
            },
        }
    }

    /// Removes edge `{u, v}` with all its timestamps; returns whether it
    /// existed.
    pub fn remove_edge(&mut self, u: VertexId, v: VertexId) -> (removed: bool)
        requires
            old(self).wf(),
        ensures
            final(self).wf(),
            final(self)@ == old(self)@.without_edge(u, v),
            removed == old(self)@.has_edge(u, v),
    {
        let ghost before = self.entries();
        match self.find_edge(u, v) {
            Some(i) => {
                self.edges.remove(i);
                proof {
                    lemma_remove_entry(before, i as int);
                    assert(self.entries() =~= before.remove(i as int));
                }
                true
            },
            None => {
                proof {
                    let kept = labels_of(before).filter(|l: Label| (l.0, l.1) != edge_key(u, v));
                    assert forall|l: Label| labels_of(before).contains(l) implies kept.contains(
                        l,
                    ) by {
                        if (l.0, l.1) == edge_key(u, v) {
                            assert(self@.has_label(u, v, l.2));
                        }
                    }
                    assert(labels_of(before) =~= kept);
                }
                false
            },
        }
    }

    /// What the representation invariant says of the stored edges.
    pub(crate) proof fn lemma_repr(&self)
        requires
            self.wf(),
        ensures
            self.entries() == self.edges@.map_values(|e: TemporalEdge| e.entry()),
            self.entries().len() == self.edges.len(),
            canonical(self.entries()),
            increasing_vertices(self.vertices@),
            self@.labels == labels_of(self.entries()),
            self@.vertices == self.vertices@.to_set(),
            self@.wf(),
    {
        self.lemma_view_wf();
    }

    /// The number of vertices.
    pub fn vertex_count(&self) -> (n: usize)
        requires
            self.wf(),
        ensures
            n == self@.vertices.len(),
    {
        proof {
            let all = self.vertices@;
            assert forall|i: int, j: int|
                0 <= i < all.len() && 0 <= j < all.len() && i != j implies all[i] != all[j] by {
                if i < j {
                    assert(self.vertices[i] < self.vertices[j]);
                } else {
                    assert(self.vertices[j] < self.vertices[i]);
                }
            }
            self.vertices@.unique_seq_to_set();
        }
        self.vertices.len()
    }

    /// The number of edges.
    pub fn edge_count(&self) -> (n: usize)
        requires
            self.wf(),
        ensures
            n == self@.edge_keys().len(),
    {
        proof {
            lemma_edge_keys(self.entries(), self@);
        }
        self.edges.len()
    }

    /// Whether `v` is a vertex of the graph.
    pub fn has_vertex(&self, v: VertexId) -> (present: bool)
        requires
            self.wf(),
        ensures
            present == self@.vertices.contains(v),
    {
        let p = vertex_position(&self.vertices, v);
        p < self.vertices.len() && self.vertices[p] == v
    }

    /// The vertices in ascending order.
    pub fn vertices(&self) -> (all: Vec<VertexId>)
        requires
            self.wf(),
        ensures
            increasing_vertices(all@),
            all@.to_set() == self@.vertices,
    {
        copy_vertices(&self.vertices)
    }

    /// A copy of the graph.
    pub fn clone_graph(&self) -> (copy: Self)
        requires
            self.wf(),
        ensures
            copy.wf(),
            copy@ == self@,
    {
        let vertices = copy_vertices(&self.vertices);
        let mut edges: Vec<TemporalEdge> = Vec::new();
        let mut i: usize = 0;
        while i < self.edges.len()
            invariant
                i <= self.edges.len(),
                edges.len() == i,
                forall|j: int|
                    0 <= j < i ==> (#[trigger] edges[j]).entry() == self.edges[j].entry(),
            decreases self.edges.len() - i,
        {
            let timestamps = copy_times(&self.edges[i].timestamps);
            edges.push(TemporalEdge { u: self.edges[i].u, v: self.edges[i].v, timestamps });
            i += 1;
        }
        let copy = TemporalGraph { vertices, edges };
        proof {
            assert(copy.entries() =~= self.entries());
            assert forall|j: int| 0 <= j < copy.edges.len() implies copy.vertices@.contains(
                (#[trigger] copy.edges[j]).u,
            ) && copy.vertices@.contains(copy.edges[j].v) by {
                assert(copy.edges[j].entry() == self.edges[j].entry());
            }
        }
        copy
    }

    /// The neighbours of `vertex` in ascending order: over the edges that
    /// carry `time` where one is given, over all edges where none is.
    fn neighbors_where(&self, vertex: VertexId, time: Option<TimeStep>) -> (found: Vec<VertexId>)
        requires
            self.wf(),
        ensures
            increasing_vertices(found@),
            forall|w: VertexId|
                found@.contains(w) <==> match time {
                    Some(t) => self@.has_label(vertex, w, t),
                    None => self@.has_edge(vertex, w),
                },
    {
        let mut found: Vec<VertexId> = Vec::new();
        let ghost s = self.entries();
        let ghost mut at: Seq<int> = Seq::empty();
        let mut i: usize = 0;
        while i < self.edges.len()
            invariant
                self.wf(),
                s == self.entries(),
                s.len() == self.edges.len(),
                i <= self.edges.len(),
                increasing_vertices(found@),
                at.len() == found.len(),
                forall|x: int|
                    0 <= x < found.len() ==> 0 <= #[trigger] at[x] < i && s[at[x]].0 == edge_key(
                        vertex,
                        found[x],
                    ) && carries(s[at[x]], time),
                forall|j: int|
                    0 <= j < i && touches((#[trigger] s[j]).0, vertex) && carries(s[j], time)
                        ==> found@.contains(other_end(s[j].0, vertex)),
            decreases self.edges.len() - i,
        {
            proof {
                self.lemma_repr();
                assert(s[i as int] == self.edges[i as int].entry());
                assert(valid_entry(s[i as int]));
            }
            let selected = match time {
                Some(t) => {
                    let q = timestamp_position(&self.edges[i].timestamps, t);
                    q < self.edges[i].timestamps.len() && self.edges[i].timestamps[q] == t
                },
                None => true,
            };
            if selected && (self.edges[i].u == vertex || self.edges[i].v == vertex) {
                let w = if self.edges[i].u == vertex {
                    self.edges[i].v
                } else {
                    self.edges[i].u
                };
                let ghost before = found@;
                proof {
                    assert forall|x: int| 0 <= x < before.len() implies before[x] < w by {
                        assert(key_lt(s[at[x]].0, s[i as int].0));
                    }
                }
                found.push(w);
                proof {
                    at = at.push(i as int);
                    assert forall|j: int|
                        0 <= j < i + 1 && touches((#[trigger] s[j]).0, vertex) && carries(
                            s[j],
                            time,
                        ) implies found@.contains(other_end(s[j].0, vertex)) by {
                        if j < i {
                            let x = choose|x: int|
                                0 <= x < before.len() && before[x] == other_end(s[j].0, vertex);
                            assert(found[x] == before[x]);
                        } else {
                            assert(found[before.len() as int] == w);
                        }
                    }
                }
            }
            i += 1;
        }
        proof {
            self.lemma_repr();
            assert forall|w: VertexId|
                found@.contains(w) <==> match time {
                    Some(t) => self@.has_label(vertex, w, t),
                    None => self@.has_edge(vertex, w),
                } by {
                if found@.contains(w) {
                    let x = choose|x: int| 0 <= x < found.len() && found[x] == w;
                    let e = s[at[x]];
                    assert(valid_entry(e));
                    match time {
                        Some(t) => {
                            assert(entry_has(e, label_of(vertex, w, t)));
                        },
                        None => {
                            assert(entry_has(e, label_of(vertex, w, e.1[0])));
                            assert(self@.has_label(vertex, w, e.1[0]));
                        },
                    }
                }
                match time {
                    Some(t) => {
                        if self@.has_label(vertex, w, t) {
                            let l = label_of(vertex, w, t);
                            let j = choose|j: int|
                                0 <= j < s.len() && entry_has(#[trigger] s[j], l);
                            assert(touches(s[j].0, vertex));
                            assert(other_end(s[j].0, vertex) == w);
                        }
                    },
                    None => {
                        if self@.has_edge(vertex, w) {
                            let t = choose|t: TimeStep| self@.has_label(vertex, w, t);
                            let l = label_of(vertex, w, t);
                            let j = choose|j: int|
                                0 <= j < s.len() && entry_has(#[trigger] s[j], l);
                            assert(touches(s[j].0, vertex));
                            assert(other_end(s[j].0, vertex) == w);
                        }
                    },
                }
            }
        }
        found
    }

    /// The neighbours of `vertex` over edges that carry timestamp `time`, in
    /// ascending order.
    pub fn neighbors_at_time(&self, vertex: VertexId, time: TimeStep) -> (found: Vec<VertexId>)
        requires
            self.wf(),
        ensures
            increasing_vertices(found@),
            forall|w: VertexId| found@.contains(w) <==> self@.has_label(vertex, w, time),
    {
        self.neighbors_where(vertex, Some(time))
    }

    /// The neighbours of `vertex` over its edges at any time, in ascending
    /// order.
    pub fn get_all_neighbors(&self, vertex: VertexId) -> (found: Vec<VertexId>)
        requires
            self.wf(),
        ensures
            increasing_vertices(found@),
            forall|w: VertexId| found@.contains(w) <==> self@.has_edge(vertex, w),
    {
        self.neighbors_where(vertex, None)
    }

    /// The keys of the edges that carry timestamp `time`, in ascending order.
    pub fn edges_at_time(&self, time: TimeStep) -> (found: Vec<(VertexId, VertexId)>)
        requires
            self.wf(),
        ensures
            increasing_keys(found@),
            forall|k: (VertexId, VertexId)|
                found@.contains(k) <==> self@.labels.contains((k.0, k.1, time)),
    {
        let mut found: Vec<(VertexId, VertexId)> = Vec::new();
        let ghost s = self.entries();
        let ghost mut at: Seq<int> = Seq::empty();
        let mut i: usize = 0;
        while i < self.edges.len()
            invariant
                self.wf(),
                s == self.entries(),
                s.len() == self.edges.len(),
                i <= self.edges.len(),
                increasing_keys(found@),
                at.len() == found.len(),
                forall|x: int|
                    0 <= x < found.len() ==> 0 <= #[trigger] at[x] < i && s[at[x]].0 == found[x]
                        && s[at[x]].1.contains(time),
                forall|j: int|
                    0 <= j < i && (#[trigger] s[j]).1.contains(time) ==> found@.contains(s[j].0),
            decreases self.edges.len() - i,
        {
            proof {
                self.lemma_repr();
                assert(s[i as int] == self.edges[i as int].entry());
                assert(valid_entry(s[i as int]));
            }
            let q = timestamp_position(&self.edges[i].timestamps, time);
            if q < self.edges[i].timestamps.len() && self.edges[i].timestamps[q] == time {
                let ghost before = found@;
                let k = (self.edges[i].u, self.edges[i].v);
                proof {
                    assert forall|x: int| 0 <= x < before.len() implies key_lt(before[x], k) by {
                        assert(key_lt(s[at[x]].0, s[i as int].0));
                    }
                }
                found.push(k);
                proof {
                    at = at.push(i as int);
                    assert forall|j: int|
                        0 <= j < i + 1 && (#[trigger] s[j]).1.contains(
                            time,
                        ) implies found@.contains(s[j].0) by {
                        if j < i {
                            let x = choose|x: int| 0 <= x < before.len() && before[x] == s[j].0;
                            assert(found[x] == before[x]);
                        } else {
                            assert(found[before.len() as int] == k);
                        }
                    }
                }
            }
            i += 1;
        }
        proof {
            self.lemma_repr();
            assert forall|k: (VertexId, VertexId)| found@.contains(k) <==> self@.labels.contains(
                (k.0, k.1, time),
            ) by {
                let l = (k.0, k.1, time);
                if found@.contains(k) {
                    let x = choose|x: int| 0 <= x < found.len() && found[x] == k;
                    assert(entry_has(s[at[x]], l));
                }
                if self@.labels.contains(l) {
                    let j = choose|j: int| 0 <= j < s.len() && entry_has(#[trigger] s[j], l);
                }
            }
        }
        found
    }

    /// The canonical state of the graph.
    pub fn to_state(&self) -> (state: GraphState)
        requires
            self.wf(),
        ensures
            is_state_of(state@, self@.labels),
    {
        let mut edge_labels: Vec<((VertexId, VertexId), Vec<TimeStep>)> = Vec::new();
        let mut i: usize = 0;
        while i < self.edges.len()
            invariant
                i <= self.edges.len(),
                edge_labels.len() == i,
                forall|j: int|
                    0 <= j < i ==> (#[trigger] edge_labels[j]).0 == (
                        self.edges[j].u,
                        self.edges[j].v,
                    ) && edge_labels[j].1@ == self.edges[j].timestamps@,
            decreases self.edges.len() - i,
        {
            let timestamps = copy_times(&self.edges[i].timestamps);
            edge_labels.push(((self.edges[i].u, self.edges[i].v), timestamps));
            i += 1;
        }
        proof {
            self.lemma_repr();
            assert(state_entries(edge_labels@) =~= self.entries());
        }
        GraphState::from_entries(edge_labels)
    }

    /// Whether the state of the graph is among `seen_states`.
    pub fn has_seen_state(&self, seen_states: &Vec<GraphState>) -> (seen: bool)
        requires
            self.wf(),
        ensures
            seen == exists|i: int|
                0 <= i < seen_states.len() && is_state_of(
                    (#[trigger] seen_states[i])@,
                    self@.labels,
                ),
    {
        let state = self.to_state();
        let mut i: usize = 0;
        while i < seen_states.len()
            invariant
                i <= seen_states.len(),
                is_state_of(state@, self@.labels),
                forall|j: int| 0 <= j < i ==> (#[trigger] seen_states[j])@ != state@,
            decreases seen_states.len() - i,
        {
            if state.equals(&seen_states[i]) {
                return true;
            }
            i += 1;
        }
        proof {
            assert forall|j: int| 0 <= j < seen_states.len() implies !is_state_of(
                (#[trigger] seen_states[j])@,
                self@.labels,
            ) by {
                if is_state_of(seen_states[j]@, self@.labels) {
                    crate::state::lemma_state_unique(seen_states[j]@, state@);
                }
            }
        }
        false
    }

    pub fn new() -> (g: Self)
        ensures
            g.wf(),
            g@ == GraphView::empty(),
    {
        let g = TemporalGraph { vertices: Vec::new(), edges: Vec::new() };
        proof {
            assert(g.vertices@.to_set() =~= Set::<VertexId>::empty());
            assert(labels_of(g.entries()) =~= Set::<Label>::empty());
        }
        g
    }
}

/// The labels of a sequence of entries are finitely many.
pub proof fn lemma_labels_finite(s: Seq<StateEntry>)
    ensures
        labels_of(s).finite(),
    decreases s.len(),
{
    if s.len() == 0 {
        assert(labels_of(s) =~= Set::<Label>::empty());
    } else {
        let e = s.last();
        let s0 = s.drop_last();
        lemma_labels_finite(s0);
        let own = e.1.to_set().map(|t: TimeStep| (e.0.0, e.0.1, t));
        vstd::seq_lib::seq_to_set_is_finite(e.1);
        e.1.to_set().lemma_map_finite(|t: TimeStep| (e.0.0, e.0.1, t));
        assert forall|l: Label| labels_of(s).contains(l) <==> labels_of(s0).union(own).contains(
            l,
        ) by {
            if labels_of(s).contains(l) {
                let i = choose|i: int| 0 <= i < s.len() && entry_has(#[trigger] s[i], l);
                if i < s.len() - 1 {
                    assert(entry_has(s0[i], l));
                } else {
                    assert(e.1.to_set().contains(l.2));
                    assert(own.contains(l));
                }
            }
            if labels_of(s0).contains(l) {
                let i = choose|i: int| 0 <= i < s0.len() && entry_has(#[trigger] s0[i], l);
                assert(entry_has(s[i], l));
            }
            if own.contains(l) {
                let t = choose|t: TimeStep| e.1.to_set().contains(t) && (e.0.0, e.0.1, t) == l;
                assert(entry_has(s[s.len() - 1], l));
            }
        }
        assert(labels_of(s) =~= labels_of(s0).union(own));
    }
}

} // verus!
