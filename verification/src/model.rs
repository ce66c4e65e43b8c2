//! The mathematical model of a temporal graph: a set of vertices and a set
//! of labels `(a, b, t)`, one for every timestamp `t` carried by the edge
//! whose normalised key is `(a, b)`. An edge exists exactly when it carries
//! at least one label, so an edge without labels cannot be expressed.
use vstd::prelude::*;

verus! {

pub type VertexId = usize;

pub type TimeStep = i64;

/// A timestamp on an edge: the two endpoints, smaller first, and the time.
pub type Label = (VertexId, VertexId, TimeStep);

/// A candidate for the wrap move: the neighbour, the vertex shared with the
/// wrappable edge, and the timestamp.
pub type Candidate = (VertexId, VertexId, TimeStep);

/// The normalised key of the undirected edge `{u, v}`: smaller endpoint first.
pub open spec fn edge_key(u: VertexId, v: VertexId) -> (VertexId, VertexId) {
    if u <= v {
        (u, v)
    } else {
        (v, u)
    }
}

/// The label that timestamp `t` on edge `{u, v}` is recorded as.
pub open spec fn label_of(u: VertexId, v: VertexId, t: TimeStep) -> Label {
    (edge_key(u, v).0, edge_key(u, v).1, t)
}

/// Strict lexicographic order on edge keys.
pub open spec fn key_lt(a: (VertexId, VertexId), b: (VertexId, VertexId)) -> bool {
    a.0 < b.0 || (a.0 == b.0 && a.1 < b.1)
}

/// Lexicographic order on edge keys.
pub open spec fn key_le(a: (VertexId, VertexId), b: (VertexId, VertexId)) -> bool {
    a == b || key_lt(a, b)
}

/// Whether the edge with key `e` is another edge than `{u, v}` that shares an
/// endpoint with it.
pub open spec fn incident(e: (VertexId, VertexId), u: VertexId, v: VertexId) -> bool {
    e != edge_key(u, v) && (e.0 == u || e.0 == v || e.1 == u || e.1 == v)
}

/// Order in which wrap candidates are preferred: smaller timestamp first,
/// ties broken by the neighbour and then by the shared vertex.
pub open spec fn candidate_le(c: Candidate, d: Candidate) -> bool {
    c.2 < d.2 || (c.2 == d.2 && (c.0 < d.0 || (c.0 == d.0 && c.1 <= d.1)))
}

/// One move of the rewriting system, as it is planned on a graph: the
/// wrappable edge, the candidate chosen for it, the endpoint of the edge
/// that lies opposite the shared vertex, how many timestamps the transfer
/// moves, and the timestamp that is wrapped.
#[derive(Debug, Clone, Copy)]
pub struct WrapMove {
    /// The key of the wrappable edge.
    pub edge: (VertexId, VertexId),
    /// The neighbour at the far end of the incident edge.
    pub neighbor: VertexId,
    /// The vertex that the incident edge shares with the wrappable edge.
    pub common: VertexId,
    /// The timestamp of the incident edge that was chosen.
    pub time: TimeStep,
    /// The endpoint of the wrappable edge that is not `common`.
    pub other_endpoint: VertexId,
    /// The number of timestamps moved by the transfer.
    pub transferred: usize,
    /// The smallest timestamp of the wrappable edge, which is wrapped.
    pub tmin: TimeStep,
}

pub struct GraphView {
    pub vertices: Set<VertexId>,
    pub labels: Set<Label>,
}

impl GraphView {
    /// The graph without vertices and edges.
    pub open spec fn empty() -> GraphView {
        GraphView { vertices: Set::empty(), labels: Set::empty() }
    }

    /// Finitely many vertices and labels, every label stored under its
    /// normalised key, and both endpoints of every edge among the vertices.
    pub open spec fn wf(self) -> bool {
        &&& self.vertices.finite()
        &&& self.labels.finite()
        &&& forall|l: Label| #[trigger]
            self.labels.contains(l) ==> l.0 <= l.1 && self.vertices.contains(l.0)
                && self.vertices.contains(l.1)
    }

    /// Whether edge `{u, v}` carries timestamp `t`.
    pub open spec fn has_label(self, u: VertexId, v: VertexId, t: TimeStep) -> bool {
        self.labels.contains(label_of(u, v, t))
    }

    /// Whether edge `{u, v}` exists, that is, carries at least one timestamp.
    pub open spec fn has_edge(self, u: VertexId, v: VertexId) -> bool {
        exists|t: TimeStep| self.has_label(u, v, t)
    }

    /// The timestamps of edge `{u, v}`; empty when the edge does not exist.
    pub open spec fn edge_labels(self, u: VertexId, v: VertexId) -> Set<TimeStep> {
        Set::new(|t: TimeStep| self.has_label(u, v, t))
    }

    /// The keys of the edges that exist.
    pub open spec fn edge_keys(self) -> Set<(VertexId, VertexId)> {
        Set::new(
            |k: (VertexId, VertexId)| exists|t: TimeStep| self.labels.contains((k.0, k.1, t)),
        )
    }

    pub open spec fn is_min_label(self, u: VertexId, v: VertexId, t: TimeStep) -> bool {
        self.has_label(u, v, t) && forall|s: TimeStep| #[trigger]
            self.has_label(u, v, s) ==> t <= s
    }

    pub open spec fn is_max_label(self, u: VertexId, v: VertexId, t: TimeStep) -> bool {
        self.has_label(u, v, t) && forall|s: TimeStep| #[trigger]
            self.has_label(u, v, s) ==> s <= t
    }

    /// The smallest timestamp of the edge with key `k`, if the edge exists.
    pub open spec fn min_of(self, k: (VertexId, VertexId)) -> TimeStep {
        choose|t: TimeStep| self.is_min_label(k.0, k.1, t)
    }

    /// The largest timestamp of the edge with key `k`, if the edge exists.
    pub open spec fn max_of(self, k: (VertexId, VertexId)) -> TimeStep {
        choose|t: TimeStep| self.is_max_label(k.0, k.1, t)
    }

    /// The smallest timestamp of edge `{u, v}`, if the edge exists.
    pub open spec fn min_label(self, u: VertexId, v: VertexId) -> TimeStep {
        self.min_of(edge_key(u, v))
    }

    /// The largest timestamp of edge `{u, v}`, if the edge exists.
    pub open spec fn max_label(self, u: VertexId, v: VertexId) -> TimeStep {
        self.max_of(edge_key(u, v))
    }

    /// The smallest and the largest timestamp of edge `{u, v}`.
    pub open spec fn time_range(self, u: VertexId, v: VertexId) -> Option<(TimeStep, TimeStep)> {
        if self.has_edge(u, v) {
            Some((self.min_label(u, v), self.max_label(u, v)))
        } else {
            None
        }
    }

    /// Whether `t` lies strictly between the smallest and the largest
    /// timestamp of edge `{u, v}`. Both bounds are excluded.
    pub open spec fn in_range(self, u: VertexId, v: VertexId, t: TimeStep) -> bool {
        self.has_edge(u, v) && self.min_label(u, v) < t < self.max_label(u, v)
    }

    /// Whether another edge that shares an endpoint with `{u, v}` carries a
    /// timestamp strictly between `lo` and `hi`.
    pub open spec fn incident_between(
        self,
        u: VertexId,
        v: VertexId,
        lo: TimeStep,
        hi: TimeStep,
    ) -> bool {
        exists|l: Label| #[trigger]
            self.labels.contains(l) && incident((l.0, l.1), u, v) && lo < l.2 < hi
    }

    /// Whether edge `{u, v}` can be wrapped: another edge that shares an
    /// endpoint with it carries a timestamp strictly between its smallest
    /// and its largest one. Such an edge has at least two timestamps.
    pub open spec fn is_wrappable(self, u: VertexId, v: VertexId) -> bool {
        self.has_edge(u, v) && self.incident_between(
            u,
            v,
            self.min_label(u, v),
            self.max_label(u, v),
        )
    }

    /// Whether `k` is the key of the first wrappable edge in ascending order
    /// of the keys.
    pub open spec fn is_first_wrappable(self, k: (VertexId, VertexId)) -> bool {
        &&& self.edge_keys().contains(k)
        &&& self.is_wrappable(k.0, k.1)
        &&& forall|j: (VertexId, VertexId)|
            self.edge_keys().contains(j) && #[trigger] self.is_wrappable(j.0, j.1) ==> key_le(
                k,
                j,
            )
    }

    /// The wrappable edge with the smallest key, if any edge is wrappable.
    pub open spec fn wrappable_edge(self) -> Option<(VertexId, VertexId)> {
        if exists|k: (VertexId, VertexId)| self.is_first_wrappable(k) {
            Some(choose|k: (VertexId, VertexId)| self.is_first_wrappable(k))
        } else {
            None
        }
    }

    /// Whether `c = (w, x, t)` is a wrap candidate for edge `{u, v}`: `x` is
    /// an endpoint of `{u, v}`, the edge `{w, x}` is another edge, and it
    /// carries `t` strictly inside the range of `{u, v}`.
    pub open spec fn is_candidate(self, u: VertexId, v: VertexId, c: Candidate) -> bool {
        &&& c.1 == u || c.1 == v
        &&& edge_key(c.0, c.1) != edge_key(u, v)
        &&& self.has_label(c.0, c.1, c.2)
        &&& self.in_range(u, v, c.2)
    }

    /// Whether `c` is the candidate for `{u, v}` that comes first in the
    /// order of preference.
    pub open spec fn is_min_candidate(self, u: VertexId, v: VertexId, c: Candidate) -> bool {
        &&& self.is_candidate(u, v, c)
        &&& forall|d: Candidate| #[trigger] self.is_candidate(u, v, d) ==> candidate_le(c, d)
    }

    /// The preferred wrap candidate for edge `{u, v}`, if there is any.
    pub open spec fn min_incident(self, u: VertexId, v: VertexId) -> Option<Candidate> {
        if exists|c: Candidate| self.is_min_candidate(u, v, c) {
            Some(choose|c: Candidate| self.is_min_candidate(u, v, c))
        } else {
            None
        }
    }

    /// Whether the transfer through `{anchor, pivot}` moves timestamp `t`
    /// from edge `{pivot, w}` to edge `{w, anchor}`.
    pub open spec fn is_moved(
        self,
        anchor: VertexId,
        pivot: VertexId,
        w: VertexId,
        t: TimeStep,
    ) -> bool {
        w != anchor && self.has_label(pivot, w, t) && self.in_range(anchor, pivot, t)
    }

    /// The pairs of neighbour and timestamp that the transfer moves.
    pub open spec fn moved(self, anchor: VertexId, pivot: VertexId) -> Set<(VertexId, TimeStep)> {
        Set::new(|m: (VertexId, TimeStep)| self.is_moved(anchor, pivot, m.0, m.1))
    }

    /// Whether the transfer takes label `l` away from its edge at the pivot.
    pub open spec fn is_source(self, anchor: VertexId, pivot: VertexId, l: Label) -> bool {
        l.0 <= l.1 && ((l.0 == pivot && self.is_moved(anchor, pivot, l.1, l.2)) || (l.1 == pivot
            && self.is_moved(anchor, pivot, l.0, l.2)))
    }

    /// Whether the transfer puts label `l` on an edge at the anchor.
    pub open spec fn is_target(self, anchor: VertexId, pivot: VertexId, l: Label) -> bool {
        l.0 <= l.1 && ((l.0 == anchor && self.is_moved(anchor, pivot, l.1, l.2)) || (l.1
            == anchor && self.is_moved(anchor, pivot, l.0, l.2)))
    }

    /// The graph after `transfer_labels_through_edge(anchor, pivot)`: every
    /// timestamp strictly inside the range of edge `{anchor, pivot}` on an
    /// edge `{pivot, w}` with `w != anchor` has left that edge and is on
    /// edge `{w, anchor}`.
    pub open spec fn after_transfer(self, anchor: VertexId, pivot: VertexId) -> GraphView {
        GraphView {
            vertices: self.vertices,
            labels: Set::new(
                |l: Label|
                    (self.labels.contains(l) && !self.is_source(anchor, pivot, l))
                        || self.is_target(anchor, pivot, l),
            ),
        }
    }

    /// The move that one iteration of the minimiser makes on this graph, or
    /// `None` when no edge is wrappable. The transfer goes through the
    /// wrappable edge with the shared vertex as anchor; the wrapped
    /// timestamp is the smallest one of the wrappable edge after the
    /// transfer.
    pub open spec fn next_move(self) -> Option<WrapMove> {
        match self.wrappable_edge() {
            None => None,
            Some(edge) => match self.min_incident(edge.0, edge.1) {
                None => None,
                Some(c) => {
                    let other = if c.1 == edge.0 {
                        edge.1
                    } else {
                        edge.0
                    };
                    Some(
                        WrapMove {
                            edge,
                            neighbor: c.0,
                            common: c.1,
                            time: c.2,
                            other_endpoint: other,
                            transferred: self.moved(c.1, other).len() as usize,
                            tmin: self.after_transfer(c.1, other).min_label(edge.0, edge.1),
                        },
                    )
                },
            },
        }
    }

    /// The graph after move `m`: the transfer through the wrappable edge,
    /// then the smallest timestamp of that edge added to the edge between
    /// the neighbour and the far endpoint and removed from the wrappable
    /// edge.
    pub open spec fn apply(self, m: WrapMove) -> GraphView {
        self.after_transfer(m.common, m.other_endpoint).with_label(
            m.neighbor,
            m.other_endpoint,
            m.tmin,
        ).without_label(m.edge.0, m.edge.1, m.tmin)
    }

    /// The graph after one iteration of the minimiser, or `None` when no
    /// edge is wrappable.
    pub open spec fn after_move(self) -> Option<GraphView> {
        match self.next_move() {
            None => None,
            Some(m) => Some(self.apply(m)),
        }
    }

    /// The graph after `n` iterations of the minimiser, or `None` when
    /// fewer than `n` moves exist.
    pub open spec fn after_moves(self, n: nat) -> Option<GraphView>
        decreases n,
    {
        if n == 0 {
            Some(self)
        } else {
            match self.after_moves((n - 1) as nat) {
                None => None,
                Some(g) => g.after_move(),
            }
        }
    }

    /// The graph after `add_vertex(id)`.
    pub open spec fn with_vertex(self, id: VertexId) -> GraphView {
        GraphView { vertices: self.vertices.insert(id), labels: self.labels }
    }

    /// The graph after `add_edge(u, v, t)`.
    pub open spec fn with_label(self, u: VertexId, v: VertexId, t: TimeStep) -> GraphView {
        GraphView {
            vertices: self.vertices.insert(u).insert(v),
            labels: self.labels.insert(label_of(u, v, t)),
        }
    }

    /// The graph after `remove_edge_timestamp(u, v, t)`.
    pub open spec fn without_label(self, u: VertexId, v: VertexId, t: TimeStep) -> GraphView {
        GraphView { vertices: self.vertices, labels: self.labels.remove(label_of(u, v, t)) }
    }

    /// The graph after `remove_edge(u, v)`.
    pub open spec fn without_edge(self, u: VertexId, v: VertexId) -> GraphView {
        GraphView {
            vertices: self.vertices,
            labels: self.labels.filter(|l: Label| (l.0, l.1) != edge_key(u, v)),
        }
    }
}

/// The smallest timestamp of an edge is unique.
pub proof fn lemma_min_label(g: GraphView, u: VertexId, v: VertexId, t: TimeStep)
    requires
        g.is_min_label(u, v, t),
    ensures
        g.min_label(u, v) == t,
        g.has_edge(u, v),
{
    let k = edge_key(u, v);
    assert(g.is_min_label(k.0, k.1, t)) by {
        assert forall|s: TimeStep| #[trigger] g.has_label(k.0, k.1, s) implies t <= s by {
            assert(g.has_label(u, v, s));
        }
    }
    let m = g.min_label(u, v);
    assert(g.is_min_label(k.0, k.1, m));
    assert(g.has_label(u, v, m));
}

/// The largest timestamp of an edge is unique.
pub proof fn lemma_max_label(g: GraphView, u: VertexId, v: VertexId, t: TimeStep)
    requires
        g.is_max_label(u, v, t),
    ensures
        g.max_label(u, v) == t,
        g.has_edge(u, v),
{
    let k = edge_key(u, v);
    assert(g.is_max_label(k.0, k.1, t)) by {
        assert forall|s: TimeStep| #[trigger] g.has_label(k.0, k.1, s) implies s <= t by {
            assert(g.has_label(u, v, s));
        }
    }
    let m = g.max_label(u, v);
    assert(g.is_max_label(k.0, k.1, m));
    assert(g.has_label(u, v, m));
}

/// At most one edge is the first wrappable one.
pub proof fn lemma_wrappable_edge(g: GraphView, k: (VertexId, VertexId))
    requires
        g.is_first_wrappable(k),
    ensures
        g.wrappable_edge() == Some(k),
{
    let c = choose|c: (VertexId, VertexId)| g.is_first_wrappable(c);
    assert(key_le(c, k) && key_le(k, c));
}

/// At most one candidate is the preferred one.
pub proof fn lemma_min_incident(g: GraphView, u: VertexId, v: VertexId, c: Candidate)
    requires
        g.is_min_candidate(u, v, c),
    ensures
        g.min_incident(u, v) == Some(c),
{
    let d = choose|d: Candidate| g.is_min_candidate(u, v, d);
    assert(candidate_le(c, d) && candidate_le(d, c));
}

/// A wrappable edge has a candidate, so the search for one cannot fail
/// after a positive check of the same edge.
pub proof fn lemma_wrappable_has_candidate(g: GraphView, u: VertexId, v: VertexId)
    requires
        g.is_wrappable(u, v),
        forall|l: Label| #[trigger] g.labels.contains(l) ==> l.0 <= l.1,
    ensures
        exists|c: Candidate| g.is_candidate(u, v, c),
{
    let l = choose|l: Label| #[trigger]
        g.labels.contains(l) && incident((l.0, l.1), u, v) && g.min_label(u, v) < l.2
            < g.max_label(u, v);
    let c: Candidate = if l.0 == u || l.0 == v {
        (l.1, l.0, l.2)
    } else {
        (l.0, l.1, l.2)
    };
    assert(edge_key(c.0, c.1) == (l.0, l.1));
    assert(g.is_candidate(u, v, c));
}

/// An edge with a candidate is wrappable.
pub proof fn lemma_candidate_makes_wrappable(g: GraphView, u: VertexId, v: VertexId, c: Candidate)
    requires
        g.is_candidate(u, v, c),
    ensures
        g.is_wrappable(u, v),
{
    let l = label_of(c.0, c.1, c.2);
    assert(g.labels.contains(l) && incident((l.0, l.1), u, v));
}

/// A transfer takes no timestamp from the edge it goes through.
pub proof fn lemma_transfer_keeps_edge(g: GraphView, anchor: VertexId, pivot: VertexId, t: TimeStep)
    requires
        g.has_label(anchor, pivot, t),
    ensures
        g.after_transfer(anchor, pivot).has_label(anchor, pivot, t),
{
    let l = label_of(anchor, pivot, t);
    assert(!g.is_source(anchor, pivot, l));
}

} // verus!
