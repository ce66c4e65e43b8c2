//! The queries and the move of the rewriting system: finding an edge that
//! can be wrapped, finding the incident timestamp to wrap it with, and
//! transferring timestamps through an edge. Every scan goes through the
//! edges in ascending order of their keys, so each result is determined by
//! the graph alone.
use crate::graph::{TemporalEdge, TemporalGraph};
use crate::model::{
    candidate_le, edge_key, incident, key_le, key_lt, label_of, lemma_candidate_makes_wrappable,
    lemma_max_label, lemma_min_incident, lemma_min_label, lemma_wrappable_edge,
    lemma_wrappable_has_candidate, Candidate, GraphView, Label, TimeStep, VertexId,
};
use crate::state::{entry_has, increasing_times, valid_entry};
use vstd::prelude::*;

verus! {

/// The position of the smallest of the ascending `times` that lies strictly
/// between `lo` and `hi`, if there is one.
fn first_in_range(times: &Vec<TimeStep>, lo: TimeStep, hi: TimeStep) -> (found: Option<usize>)
    requires
        increasing_times(times@),
    ensures
        match found {
            Some(q) => q < times.len() && lo < times[q as int] < hi && forall|j: int|
                0 <= j < q ==> times[j] <= lo,
            None => forall|j: int|
                0 <= j < times.len() ==> !(lo < #[trigger] times[j] && times[j] < hi),
        },
{
    let mut q: usize = 0;
    while q < times.len() && times[q] <= lo
        invariant
            q <= times.len(),
            forall|j: int| 0 <= j < q ==> times[j] <= lo,
        decreases times.len() - q,
    {
        q += 1;
    }
    if q < times.len() && times[q] < hi {
        Some(q)
    } else {
        proof {
            assert forall|j: int| 0 <= j < times.len() implies !(lo < #[trigger] times[j]
                && times[j] < hi) by {
                if j > q {
                    assert(times[q as int] < times[j]);
                }
            }
        }
        None
    }
}

/// A neighbour of the pivot and a timestamp that a transfer moves.
pub type Move = (VertexId, TimeStep);

/// Moves in strictly ascending order: by neighbour, then by timestamp.
pub open spec fn increasing_moves(moves: Seq<Move>) -> bool {
    forall|x: int, y: int|
        0 <= x < y < moves.len() ==> moves[x].0 < moves[y].0 || (moves[x].0 == moves[y].0
            && moves[x].1 < moves[y].1)
}

/// Whether `l` is the label that one of the first `n` moves takes from its
/// edge at `pivot`.
pub open spec fn taken(moves: Seq<Move>, pivot: VertexId, n: int, l: Label) -> bool {
    exists|x: int| 0 <= x < n && label_of(pivot, (#[trigger] moves[x]).0, moves[x].1) == l
}

/// Whether `l` is the label that one of the first `n` moves puts on its
/// edge at `anchor`.
pub open spec fn placed(moves: Seq<Move>, anchor: VertexId, n: int, l: Label) -> bool {
    exists|x: int| 0 <= x < n && label_of((#[trigger] moves[x]).0, anchor, moves[x].1) == l
}

/// The labels that are left of `labels` when the first `n` moves have taken
/// theirs.
pub open spec fn without_taken(
    labels: Set<Label>,
    moves: Seq<Move>,
    pivot: VertexId,
    n: int,
) -> Set<Label> {
    Set::new(|l: Label| labels.contains(l) && !taken(moves, pivot, n, l))
}

/// The labels `labels` together with those that the first `n` moves put on
/// their edges at `anchor`.
pub open spec fn with_placed(
    labels: Set<Label>,
    moves: Seq<Move>,
    anchor: VertexId,
    n: int,
) -> Set<Label> {
    Set::new(|l: Label| labels.contains(l) || placed(moves, anchor, n, l))
}

impl TemporalGraph {
    /// Whether an edge other than `{u, v}` that shares an endpoint with it
    /// carries a timestamp strictly between `tmin` and `tmax`.
    pub fn has_incident_edge_in_range(
        &self,
        u: VertexId,
        v: VertexId,
        tmin: TimeStep,
        tmax: TimeStep,
    ) -> (found: bool)
        requires
            self.wf(),
        ensures
            found == self@.incident_between(u, v, tmin, tmax),
    {
        let (a, b) = TemporalEdge::normalize_pair(u, v);
        let ghost s = self.entries();
        proof {
            self.lemma_repr();
        }
        let mut i: usize = 0;
        while i < self.edges.len()
            invariant
                self.wf(),
                s == self.entries(),
                s.len() == self.edges.len(),
                (a, b) == edge_key(u, v),
                i <= self.edges.len(),
                forall|j: int, c: int|
                    0 <= j < i && 0 <= c < (#[trigger] s[j]).1.len() && incident(s[j].0, u, v)
                        ==> !(tmin < #[trigger] s[j].1[c] && s[j].1[c] < tmax),
            decreases self.edges.len() - i,
        {
            proof {
                self.lemma_repr();
                assert(s[i as int] == self.edges[i as int].entry());
                assert(valid_entry(s[i as int]));
            }
            let eu = self.edges[i].u;
            let ev = self.edges[i].v;
            let same = eu == a && ev == b;
            if !same && (eu == u || eu == v || ev == u || ev == v) {
                match first_in_range(&self.edges[i].timestamps, tmin, tmax) {
                    Some(q) => {
                        proof {
                            let l = (eu, ev, self.edges[i as int].timestamps[q as int]);
                            assert(s[i as int].1[q as int] == l.2);
                            assert(entry_has(s[i as int], l));
                            assert(self@.labels.contains(l));
                        }
                        return true;
                    },
                    None => {},
                }
            }
            i += 1;
        }
        proof {
            self.lemma_repr();
            assert forall|l: Label| #[trigger]
                self@.labels.contains(l) && incident((l.0, l.1), u, v) implies !(tmin < l.2
                < tmax) by {
                let j = choose|j: int| 0 <= j < s.len() && entry_has(#[trigger] s[j], l);
                let c = choose|c: int| 0 <= c < s[j].1.len() && s[j].1[c] == l.2;
                assert(!(tmin < s[j].1[c] < tmax));
            }
        }
        false
    }

    /// The wrappable edge with the smallest key: an edge such that another
    /// edge sharing an endpoint with it carries a timestamp strictly between
    /// its smallest and its largest one. `None` when no edge is wrappable.
    pub fn find_wrappable_edge(&self) -> (found: Option<(VertexId, VertexId)>)
        requires
            self.wf(),
        ensures
            found == self@.wrappable_edge(),
            found is Some ==> self@.is_first_wrappable(found.unwrap()),
            found is None ==> forall|u: VertexId, v: VertexId| !self@.is_wrappable(u, v),
    {
        let ghost s = self.entries();
        proof {
            self.lemma_repr();
        }
        let mut i: usize = 0;
        while i < self.edges.len()
            invariant
                self.wf(),
                s == self.entries(),
                s.len() == self.edges.len(),
                i <= self.edges.len(),
                forall|j: int| 0 <= j < i ==> !self@.is_wrappable((#[trigger] s[j]).0.0, s[j].0.1),
            decreases self.edges.len() - i,
        {
            let u = self.edges[i].u;
            let v = self.edges[i].v;
            let n = self.edges[i].timestamps.len();
            proof {
                self.lemma_repr();
                assert(s[i as int] == self.edges[i as int].entry());
                assert(valid_entry(s[i as int]));
                self.lemma_edge_at(i as int, u, v);
                let times = self.edges[i as int].timestamps@;
                lemma_min_label(self@, u, v, times[0]);
                lemma_max_label(self@, u, v, times.last());
            }
            if n >= 2 {
                let tmin = self.edges[i].timestamps[0];
                let tmax = self.edges[i].timestamps[n - 1];
                if tmin < tmax && self.has_incident_edge_in_range(u, v, tmin, tmax) {
                    proof {
                        let k = (u, v);
                        assert(entry_has(s[i as int], (u, v, tmin)));
                        assert(self@.labels.contains((u, v, tmin)));
                        assert(self@.edge_keys().contains(k));
                        assert forall|j: (VertexId, VertexId)|
                            self@.edge_keys().contains(j) && #[trigger] self@.is_wrappable(
                                j.0,
                                j.1,
                            ) implies key_le(k, j) by {
                            let t = choose|t: TimeStep| self@.labels.contains((j.0, j.1, t));
                            let m = choose|m: int|
                                0 <= m < s.len() && entry_has(#[trigger] s[m], (j.0, j.1, t));
                            if m > i {
                                assert(key_lt(s[i as int].0, s[m].0));
                            }
                        }
                        lemma_wrappable_edge(self@, k);
                    }
                    return Some((u, v));
                }
            }
            i += 1;
        }
        proof {
            self.lemma_repr();
            assert forall|u: VertexId, v: VertexId| !self@.is_wrappable(u, v) by {
                if self@.is_wrappable(u, v) {
                    let t = choose|t: TimeStep| self@.has_label(u, v, t);
                    let l = label_of(u, v, t);
                    let m = choose|m: int| 0 <= m < s.len() && entry_has(#[trigger] s[m], l);
                    assert(s[m].0 == edge_key(u, v));
                    lemma_wrappable_symmetric(self@, u, v);
                    assert(false);
                }
            }
            assert(!exists|k: (VertexId, VertexId)| self@.is_first_wrappable(k));
        }
        None
    }

    /// The preferred wrap candidate `(neighbour, shared vertex, timestamp)`
    /// for edge `{u, v}`: among the timestamps that other edges at `u` or
    /// `v` carry strictly inside the range of `{u, v}`, the smallest one;
    /// among equal timestamps the one with the smaller neighbour, then the
    /// smaller shared vertex. `None` when there is no candidate, which is
    /// the case exactly when `{u, v}` is not wrappable.
    pub fn find_min_incident_in_range(&self, u: VertexId, v: VertexId) -> (found: Option<
        Candidate,
    >)
        requires
            self.wf(),
        ensures
            found == self@.min_incident(u, v),
            found is Some ==> self@.is_min_candidate(u, v, found.unwrap()),
            found is None ==> forall|c: Candidate| !self@.is_candidate(u, v, c),
            found is Some <==> self@.is_wrappable(u, v),
    {
        proof {
            self.lemma_view_wf();
            if self@.is_wrappable(u, v) {
                lemma_wrappable_has_candidate(self@, u, v);
            }
            assert forall|c: Candidate| self@.is_candidate(u, v, c) implies self@.is_wrappable(
                u,
                v,
            ) by {
                lemma_candidate_makes_wrappable(self@, u, v, c);
            }
        }
        let (a, b) = TemporalEdge::normalize_pair(u, v);
        let (tmin, tmax) = match self.get_edge_time_range(u, v) {
            Some(range) => range,
            None => {
                assert(!exists|c: Candidate| self@.is_min_candidate(u, v, c));
                return None;
            },
        };
        if tmin >= tmax {
            assert(!exists|c: Candidate| self@.is_min_candidate(u, v, c));
            return None;
        }
        let ghost s = self.entries();
        proof {
            self.lemma_repr();
        }
        let mut best: Option<Candidate> = None;
        let mut i: usize = 0;
        while i < self.edges.len()
            invariant
                self.wf(),
                s == self.entries(),
                s.len() == self.edges.len(),
                (a, b) == edge_key(u, v),
                self@.time_range(u, v) == Some((tmin, tmax)),
                i <= self.edges.len(),
                best is Some ==> self@.is_candidate(u, v, best.unwrap()),
                forall|d: Candidate, m: int|
                    0 <= m < i && (#[trigger] s[m]).0 == edge_key(d.0, d.1)
                        && #[trigger] self@.is_candidate(u, v, d) ==> best is Some
                        && candidate_le(best.unwrap(), d),
            decreases self.edges.len() - i,
        {
            proof {
                self.lemma_repr();
                assert(s[i as int] == self.edges[i as int].entry());
                assert(valid_entry(s[i as int]));
            }
            let eu = self.edges[i].u;
            let ev = self.edges[i].v;
            let ghost before = best;
            let touching = !(eu == a && ev == b) && (eu == u || eu == v || ev == u || ev == v);
            let hit = if touching {
                first_in_range(&self.edges[i].timestamps, tmin, tmax)
            } else {
                None
            };
            match hit {
                Some(q) => {
                    let (common, neighbor) = if eu == u || eu == v {
                        (eu, ev)
                    } else {
                        (ev, eu)
                    };
                    let t = self.edges[i].timestamps[q];
                    let candidate = (neighbor, common, t);
                    proof {
                        assert(s[i as int].1[q as int] == t);
                        assert(entry_has(s[i as int], label_of(neighbor, common, t)));
                        assert(self@.is_candidate(u, v, candidate));
                    }
                    let better = match best {
                        Some(c) => t < c.2 || (t == c.2 && (neighbor < c.0 || (neighbor == c.0
                            && common < c.1))),
                        None => true,
                    };
                    if better {
                        best = Some(candidate);
                    }
                },
                None => {},
            }
            proof {
                assert forall|d: Candidate, m: int|
                    0 <= m < i + 1 && (#[trigger] s[m]).0 == edge_key(d.0, d.1)
                        && #[trigger] self@.is_candidate(u, v, d) implies best is Some
                    && candidate_le(best.unwrap(), d) by {
                    if m < i {
                        assert(before is Some && candidate_le(before.unwrap(), d));
                    } else {
                        crate::state::lemma_entry_labels(s, i as int, label_of(d.0, d.1, d.2));
                        let times = self.edges[i as int].timestamps@;
                        let c = choose|c: int| 0 <= c < times.len() && times[c] == d.2;
                        assert(touching);
                        match hit {
                            Some(q) => {
                                if q < c {
                                    assert(times[q as int] < times[c]);
                                }
                            },
                            None => {
                                assert(!(tmin < times[c] && times[c] < tmax));
                            },
                        }
                    }
                }
            }
            i += 1;
        }
        proof {
            self.lemma_repr();
            assert forall|d: Candidate| #[trigger] self@.is_candidate(u, v, d) implies best is Some
                && candidate_le(best.unwrap(), d) by {
                let l = label_of(d.0, d.1, d.2);
                let m = choose|m: int| 0 <= m < s.len() && entry_has(#[trigger] s[m], l);
                assert(s[m].0 == edge_key(d.0, d.1));
            }
            match best {
                Some(c) => {
                    lemma_min_incident(self@, u, v, c);
                },
                None => {
                    assert(!exists|c: Candidate| self@.is_min_candidate(u, v, c));
                },
            }
        }
        best
    }

    /// The timestamps of edge `{u, v}` strictly between `tmin` and `tmax`,
    /// in ascending order.
    pub fn get_edge_timestamps_in_range(
        &self,
        u: VertexId,
        v: VertexId,
        tmin: TimeStep,
        tmax: TimeStep,
    ) -> (found: Vec<TimeStep>)
        requires
            self.wf(),
        ensures
            increasing_times(found@),
            forall|t: TimeStep| found@.contains(t) <==> self@.has_label(u, v, t) && tmin < t < tmax,
    {
        let mut found: Vec<TimeStep> = Vec::new();
        match self.find_edge(u, v) {
            Some(i) => {
                proof {
                    self.lemma_edge_at(i as int, u, v);
                }
                let ghost times = self.edges[i as int].timestamps@;
                let ghost mut at: Seq<int> = Seq::empty();
                let mut c: usize = 0;
                while c < self.edges[i as usize].timestamps.len()
                    invariant
                        i < self.edges.len(),
                        times == self.edges[i as int].timestamps@,
                        increasing_times(times),
                        c <= times.len(),
                        increasing_times(found@),
                        at.len() == found.len(),
                        forall|x: int|
                            0 <= x < found.len() ==> 0 <= #[trigger] at[x] < c && times[at[x]]
                                == found[x] && tmin < found[x] < tmax,
                        forall|j: int|
                            0 <= j < c && tmin < #[trigger] times[j] && times[j] < tmax
                                ==> found@.contains(times[j]),
                    decreases times.len() - c,
                {
                    let t = self.edges[i].timestamps[c];
                    if tmin < t && t < tmax {
                        let ghost before = found@;
                        proof {
                            assert forall|x: int| 0 <= x < before.len() implies before[x] < t by {
                                assert(times[at[x]] < times[c as int]);
                            }
                        }
                        found.push(t);
                        proof {
                            at = at.push(c as int);
                            assert forall|j: int|
                                0 <= j < c + 1 && tmin < #[trigger] times[j] && times[j]
                                    < tmax implies found@.contains(times[j]) by {
                                if j < c {
                                    let x = choose|x: int|
                                        0 <= x < before.len() && before[x] == times[j];
                                    assert(found[x] == before[x]);
                                } else {
                                    assert(found[before.len() as int] == t);
                                }
                            }
                        }
                    }
                    c += 1;
                }
                proof {
                    assert forall|t: TimeStep|
                        found@.contains(t) <==> self@.has_label(u, v, t) && tmin < t < tmax by {
                        if found@.contains(t) {
                            let x = choose|x: int| 0 <= x < found.len() && found[x] == t;
                            assert(times.contains(times[at[x]]));
                        }
                        if self@.has_label(u, v, t) && tmin < t < tmax {
                            let j = choose|j: int| 0 <= j < times.len() && times[j] == t;
                            assert(found@.contains(times[j]));
                        }
                    }
                }
            },
            None => {
                proof {
                    assert forall|t: TimeStep| !self@.has_label(u, v, t) by {}
                }
            },
        }
        found
    }

    /// The moves of the transfer through `{anchor, pivot}`, whose range is
    /// `(tmin, tmax)`, in ascending order.
    fn transfer_moves(
        &self,
        anchor: VertexId,
        pivot: VertexId,
        tmin: TimeStep,
        tmax: TimeStep,
    ) -> (moves: Vec<Move>)
        requires
            self.wf(),
            self@.time_range(anchor, pivot) == Some((tmin, tmax)),
        ensures
            increasing_moves(moves@),
            forall|m: Move| moves@.contains(m) <==> self@.is_moved(anchor, pivot, m.0, m.1),
    {
        let neighbors = self.get_all_neighbors(pivot);
        let mut moves: Vec<Move> = Vec::new();
        let mut i: usize = 0;
        while i < neighbors.len()
            invariant
                self.wf(),
                self@.time_range(anchor, pivot) == Some((tmin, tmax)),
                crate::state::increasing_vertices(neighbors@),
                forall|w: VertexId| neighbors@.contains(w) <==> self@.has_edge(pivot, w),
                i <= neighbors.len(),
                increasing_moves(moves@),
                forall|x: int, j: int|
                    0 <= x < moves.len() && i <= j < neighbors.len() ==> (#[trigger] moves[x]).0
                        < #[trigger] neighbors[j],
                forall|x: int|
                    0 <= x < moves.len() ==> self@.is_moved(
                        anchor,
                        pivot,
                        (#[trigger] moves[x]).0,
                        moves[x].1,
                    ),
                forall|j: int, t: TimeStep|
                    0 <= j < i && #[trigger] self@.is_moved(anchor, pivot, neighbors[j], t)
                        ==> moves@.contains((neighbors[j], t)),
            decreases neighbors.len() - i,
        {
            let w = neighbors[i];
            if w != anchor {
                let times = self.get_edge_timestamps_in_range(pivot, w, tmin, tmax);
                let mut c: usize = 0;
                while c < times.len()
                    invariant
                        self@.time_range(anchor, pivot) == Some((tmin, tmax)),
                        crate::state::increasing_vertices(neighbors@),
                        i < neighbors.len(),
                        w == neighbors[i as int],
                        w != anchor,
                        increasing_times(times@),
                        forall|t: TimeStep|
                            times@.contains(t) <==> self@.has_label(pivot, w, t) && tmin < t
                                < tmax,
                        c <= times.len(),
                        increasing_moves(moves@),
                        forall|x: int|
                            0 <= x < moves.len() ==> (#[trigger] moves[x]).0 < w || (moves[x].0
                                == w && c > 0 && moves[x].1 <= times[c - 1]),
                        forall|x: int|
                            0 <= x < moves.len() ==> self@.is_moved(
                                anchor,
                                pivot,
                                (#[trigger] moves[x]).0,
                                moves[x].1,
                            ),
                        forall|j: int, t: TimeStep|
                            0 <= j < i && #[trigger] self@.is_moved(anchor, pivot, neighbors[j], t)
                                ==> moves@.contains((neighbors[j], t)),
                        forall|j: int|
                            0 <= j < c ==> moves@.contains((w, #[trigger] times[j])),
                    decreases times.len() - c,
                {
                    let ghost before = moves@;
                    let t = times[c];
                    proof {
                        assert(times@.contains(t));
                        assert forall|x: int| 0 <= x < before.len() implies before[x].0 < w || (
                        before[x].0 == w && before[x].1 < t) by {
                            if before[x].0 == w {
                                assert(times[c - 1] < times[c as int]);
                            }
                        }
                    }
                    moves.push((w, t));
                    proof {
                        assert forall|j: int, t2: TimeStep|
                            0 <= j < i && #[trigger] self@.is_moved(
                                anchor,
                                pivot,
                                neighbors[j],
                                t2,
                            ) implies moves@.contains((neighbors[j], t2)) by {
                            let x = choose|x: int|
                                0 <= x < before.len() && before[x] == (neighbors[j], t2);
                            assert(moves[x] == before[x]);
                        }
                        assert forall|j: int| 0 <= j < c + 1 implies moves@.contains(
                            (w, #[trigger] times[j]),
                        ) by {
                            if j < c {
                                let x = choose|x: int|
                                    0 <= x < before.len() && before[x] == (w, times[j]);
                                assert(moves[x] == before[x]);
                            } else {
                                assert(moves[before.len() as int] == (w, t));
                            }
                        }
                    }
                    c += 1;
                }
                proof {
                    assert forall|t: TimeStep| #[trigger]
                        self@.is_moved(anchor, pivot, w, t) implies moves@.contains((w, t)) by {
                        assert(times@.contains(t));
                        let j = choose|j: int| 0 <= j < times.len() && times[j] == t;
                        assert(moves@.contains((w, times[j])));
                    }
                }
            }
            proof {
                assert forall|x: int, j: int|
                    0 <= x < moves.len() && i + 1 <= j < neighbors.len() implies (
                #[trigger] moves[x]).0 < #[trigger] neighbors[j] by {
                    assert(neighbors[i as int] < neighbors[j]);
                }
            }
            i += 1;
        }
        proof {
            assert forall|m: Move| moves@.contains(m) <==> self@.is_moved(
                anchor,
                pivot,
                m.0,
                m.1,
            ) by {
                if self@.is_moved(anchor, pivot, m.0, m.1) {
                    assert(self@.has_edge(pivot, m.0));
                    assert(neighbors@.contains(m.0));
                    let j = choose|j: int| 0 <= j < neighbors.len() && neighbors[j] == m.0;
                    assert(self@.is_moved(anchor, pivot, neighbors[j], m.1));
                }
            }
        }
        moves
    }

    /// Moves timestamps through edge `{u, v}` from the edges at `v` to the
    /// edges at `u`: every timestamp strictly inside the range of `{u, v}`
    /// on an edge `{v, w}` with `w != u` is removed from that edge, which
    /// disappears with its last timestamp, and added to edge `{w, u}`, which
    /// is created where it does not exist. Returns the number of timestamps
    /// moved; 0, with the graph unchanged, when `{u, v}` does not exist.
    pub fn transfer_labels_through_edge(&mut self, u: VertexId, v: VertexId) -> (count: usize)
        requires
            old(self).wf(),
        ensures
            final(self).wf(),
            final(self)@ == old(self)@.after_transfer(u, v),
            old(self)@.moved(u, v).finite(),
            count == old(self)@.moved(u, v).len(),
    {
        let ghost g = self@;
        proof {
            self.lemma_view_wf();
        }
        let (tmin, tmax) = match self.get_edge_time_range(u, v) {
            Some(range) => range,
            None => {
                proof {
                    assert(g.moved(u, v) =~= Set::<Move>::empty());
                    assert(g.after_transfer(u, v).labels =~= g.labels);
                }
                return 0;
            },
        };
        let moves = self.transfer_moves(u, v, tmin, tmax);
        proof {
            assert(moves@.to_set() =~= g.moved(u, v));
            assert forall|x: int, y: int|
                0 <= x < moves.len() && 0 <= y < moves.len() && x != y implies moves[x]
                != moves[y] by {
                if x < y {
                    assert(moves[x].0 < moves[y].0 || (moves[x].0 == moves[y].0 && moves[x].1
                        < moves[y].1));
                } else {
                    assert(moves[y].0 < moves[x].0 || (moves[y].0 == moves[x].0 && moves[y].1
                        < moves[x].1));
                }
            }
            moves@.unique_seq_to_set();
            vstd::seq_lib::seq_to_set_is_finite(moves@);
        }
        let mut i: usize = 0;
        proof {
            assert(g.labels =~= without_taken(g.labels, moves@, v, 0));
        }
        while i < moves.len()
            invariant
                self.wf(),
                i <= moves.len(),
                self@.vertices == g.vertices,
                self@.labels == without_taken(g.labels, moves@, v, i as int),
            decreases moves.len() - i,
        {
            let ghost before = self@.labels;
            let (w, t) = moves[i];
            self.remove_edge_timestamp(v, w, t);
            proof {
                let gone = label_of(v, w, t);
                let next = without_taken(g.labels, moves@, v, i + 1);
                assert(self@.labels == before.remove(gone));
                assert forall|l: Label| self@.labels.contains(l) <==> next.contains(l) by {
                    if taken(moves@, v, i as int, l) {
                        let x = choose|x: int|
                            0 <= x < i && label_of(v, (#[trigger] moves[x]).0, moves[x].1) == l;
                        assert(taken(moves@, v, i + 1, l));
                    }
                    if taken(moves@, v, i + 1, l) {
                        let x = choose|x: int|
                            0 <= x < i + 1 && label_of(v, (#[trigger] moves[x]).0, moves[x].1)
                                == l;
                        if x < i {
                            assert(taken(moves@, v, i as int, l));
                        }
                    }
                    if l == gone {
                        assert(label_of(v, moves[i as int].0, moves[i as int].1) == l);
                        assert(taken(moves@, v, i + 1, l));
                    }
                }
                assert(self@.labels =~= next);
            }
            i += 1;
        }
        let ghost rest = self@.labels;
        let mut i: usize = 0;
        proof {
            assert(rest =~= with_placed(rest, moves@, u, 0));
        }
        while i < moves.len()
            invariant
                self.wf(),
                g.wf(),
                i <= moves.len(),
                self@.vertices == g.vertices,
                forall|m: Move| moves@.contains(m) <==> g.is_moved(u, v, m.0, m.1),
                self@.labels == with_placed(rest, moves@, u, i as int),
            decreases moves.len() - i,
        {
            let ghost before = self@;
            let (w, t) = moves[i];
            self.add_edge(w, u, t);
            proof {
                let added = label_of(w, u, t);
                let next = with_placed(rest, moves@, u, i + 1);
                assert(self@.labels == before.labels.insert(added));
                assert(moves@.contains(moves[i as int]));
                assert(g.is_moved(u, v, w, t));
                assert(g.labels.contains(label_of(v, w, t)));
                let r = choose|r: TimeStep| g.has_label(u, v, r);
                assert(g.labels.contains(label_of(u, v, r)));
                assert(g.vertices.contains(w) && g.vertices.contains(u));
                assert(self@.vertices =~= g.vertices);
                assert forall|l: Label| self@.labels.contains(l) <==> next.contains(l) by {
                    if placed(moves@, u, i as int, l) {
                        let x = choose|x: int|
                            0 <= x < i && label_of((#[trigger] moves[x]).0, u, moves[x].1) == l;
                        assert(placed(moves@, u, i + 1, l));
                    }
                    if placed(moves@, u, i + 1, l) {
                        let x = choose|x: int|
                            0 <= x < i + 1 && label_of((#[trigger] moves[x]).0, u, moves[x].1)
                                == l;
                        if x < i {
                            assert(placed(moves@, u, i as int, l));
                        }
                    }
                    if l == added {
                        assert(label_of(moves[i as int].0, u, moves[i as int].1) == l);
                        assert(placed(moves@, u, i + 1, l));
                    }
                }
                assert(self@.labels =~= next);
            }
            i += 1;
        }
        proof {
            let n = moves.len() as int;
            assert forall|l: Label|
                self@.labels.contains(l) <==> g.after_transfer(u, v).labels.contains(l) by {
                if taken(moves@, v, n, l) {
                    let x = choose|x: int|
                        0 <= x < n && label_of(v, (#[trigger] moves[x]).0, moves[x].1) == l;
                    assert(moves@.contains(moves[x]));
                    assert(g.is_source(u, v, l));
                }
                if g.is_source(u, v, l) {
                    let w = if l.0 == v && g.is_moved(u, v, l.1, l.2) {
                        l.1
                    } else {
                        l.0
                    };
                    assert(g.is_moved(u, v, w, l.2));
                    assert(moves@.contains((w, l.2)));
                    let x = choose|x: int| 0 <= x < n && moves[x] == (w, l.2);
                    assert(label_of(v, moves[x].0, moves[x].1) == l);
                    assert(taken(moves@, v, n, l));
                }
                if placed(moves@, u, n, l) {
                    let x = choose|x: int|
                        0 <= x < n && label_of((#[trigger] moves[x]).0, u, moves[x].1) == l;
                    assert(moves@.contains(moves[x]));
                    assert(g.is_target(u, v, l));
                }
                if g.is_target(u, v, l) {
                    let w = if l.0 == u && g.is_moved(u, v, l.1, l.2) {
                        l.1
                    } else {
                        l.0
                    };
                    assert(g.is_moved(u, v, w, l.2));
                    assert(moves@.contains((w, l.2)));
                    let x = choose|x: int| 0 <= x < n && moves[x] == (w, l.2);
                    assert(label_of(moves[x].0, u, moves[x].1) == l);
                    assert(placed(moves@, u, n, l));
                }
            }
            assert(self@.labels =~= g.after_transfer(u, v).labels);
        }
        moves.len()
    }
}

/// Whether an edge is wrappable does not depend on the order in which its
/// endpoints are given.
pub proof fn lemma_wrappable_symmetric(g: GraphView, u: VertexId, v: VertexId)
    ensures
        g.is_wrappable(u, v) == g.is_wrappable(v, u),
        g.is_wrappable(u, v) == g.is_wrappable(edge_key(u, v).0, edge_key(u, v).1),
{
    lemma_symmetric(g, u, v);
}

/// The queries on an edge do not depend on the order in which its endpoints
/// are given.
pub proof fn lemma_symmetric(g: GraphView, u: VertexId, v: VertexId)
    ensures
        forall|t: TimeStep| g.has_label(u, v, t) == g.has_label(v, u, t),
        g.has_edge(u, v) == g.has_edge(v, u),
        g.min_label(u, v) == g.min_label(v, u),
        g.max_label(u, v) == g.max_label(v, u),
        g.time_range(u, v) == g.time_range(v, u),
        forall|t: TimeStep| g.in_range(u, v, t) == g.in_range(v, u, t),
        g.is_wrappable(u, v) == g.is_wrappable(v, u),
{
    assert(edge_key(u, v) == edge_key(v, u));
    assert forall|t: TimeStep| g.has_label(u, v, t) == g.has_label(v, u, t) by {}
    assert(g.has_edge(u, v) == g.has_edge(v, u)) by {
        if g.has_edge(u, v) {
            let t = choose|t: TimeStep| g.has_label(u, v, t);
            assert(g.has_label(v, u, t));
        }
        if g.has_edge(v, u) {
            let t = choose|t: TimeStep| g.has_label(v, u, t);
            assert(g.has_label(u, v, t));
        }
    }
    assert forall|l: Label| incident((l.0, l.1), u, v) == incident((l.0, l.1), v, u) by {}
}

} // verus!
