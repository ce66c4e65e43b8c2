//! Connectivity of a temporal graph when time is ignored: two vertices are
//! connected when a path of edges, each existing at some time, leads from
//! one to the other.
use crate::graph::TemporalGraph;
use crate::model::{GraphView, VertexId};
use crate::state::increasing_vertices;
use vstd::prelude::*;

verus! {

impl GraphView {
    /// Whether `path` is a walk in the graph: it is not empty, and each of
    /// its vertices is joined to the next by an edge.
    pub open spec fn is_path(self, path: Seq<VertexId>) -> bool {
        &&& path.len() > 0
        &&& forall|i: int|
            0 <= i < path.len() - 1 ==> self.has_edge(#[trigger] path[i], path[i + 1])
    }

    /// Whether a walk leads from `a` to `b`. Every vertex is connected to
    /// itself.
    pub open spec fn connected(self, a: VertexId, b: VertexId) -> bool {
        exists|path: Seq<VertexId>| #[trigger]
            self.is_path(path) && path[0] == a && path.last() == b
    }

    /// Whether every two vertices of the graph are connected. A graph
    /// without vertices is connected.
    pub open spec fn is_connected(self) -> bool {
        forall|a: VertexId, b: VertexId|
            self.vertices.contains(a) && self.vertices.contains(b) ==> #[trigger] self.connected(
                a,
                b,
            )
    }

    /// Whether every neighbour of a vertex in `inside` is in `inside`.
    pub open spec fn is_closed(self, inside: Set<VertexId>) -> bool {
        forall|a: VertexId, b: VertexId|
            inside.contains(a) && #[trigger] self.has_edge(a, b) ==> inside.contains(b)
    }
}

/// A walk can be extended by an edge at its end.
pub proof fn lemma_connected_step(g: GraphView, a: VertexId, b: VertexId, c: VertexId)
    requires
        g.connected(a, b),
        g.has_edge(b, c),
    ensures
        g.connected(a, c),
{
    let path = choose|path: Seq<VertexId>| #[trigger]
        g.is_path(path) && path[0] == a && path.last() == b;
    let longer = path.push(c);
    assert forall|i: int| 0 <= i < longer.len() - 1 implies g.has_edge(
        #[trigger] longer[i],
        longer[i + 1],
    ) by {
        if i < path.len() - 1 {
            assert(g.has_edge(path[i], path[i + 1]));
        }
    }
    assert(g.is_path(longer) && longer[0] == a && longer.last() == c);
}

/// Being connected is reflexive.
pub proof fn lemma_connected_reflexive(g: GraphView, a: VertexId)
    ensures
        g.connected(a, a),
{
    let path = seq![a];
    assert(g.is_path(path) && path[0] == a && path.last() == a);
}

/// Being connected is symmetric.
pub proof fn lemma_connected_symmetric(g: GraphView, a: VertexId, b: VertexId)
    requires
        g.connected(a, b),
    ensures
        g.connected(b, a),
{
    let path = choose|path: Seq<VertexId>| #[trigger]
        g.is_path(path) && path[0] == a && path.last() == b;
    let back = path.reverse();
    assert forall|i: int| 0 <= i < back.len() - 1 implies g.has_edge(
        #[trigger] back[i],
        back[i + 1],
    ) by {
        let j = path.len() - 2 - i;
        assert(g.has_edge(path[j], path[j + 1]));
        crate::moves::lemma_symmetric(g, path[j], path[j + 1]);
        assert(back[i] == path[j + 1] && back[i + 1] == path[j]);
    }
    assert(g.is_path(back) && back[0] == b && back.last() == a);
}

/// Being connected is transitive.
pub proof fn lemma_connected_transitive(g: GraphView, a: VertexId, b: VertexId, c: VertexId)
    requires
        g.connected(a, b),
        g.connected(b, c),
    ensures
        g.connected(a, c),
{
    let first = choose|path: Seq<VertexId>| #[trigger]
        g.is_path(path) && path[0] == a && path.last() == b;
    let second = choose|path: Seq<VertexId>| #[trigger]
        g.is_path(path) && path[0] == b && path.last() == c;
    let whole = first + second.drop_first();
    assert forall|i: int| 0 <= i < whole.len() - 1 implies g.has_edge(
        #[trigger] whole[i],
        whole[i + 1],
    ) by {
        if i < first.len() - 1 {
            assert(g.has_edge(first[i], first[i + 1]));
        } else {
            let j = i - (first.len() - 1);
            assert(g.has_edge(second[j], second[j + 1]));
            assert(whole[i + 1] == second[j + 1]);
            if j == 0 {
                assert(whole[i] == first.last());
            } else {
                assert(whole[i] == second[j]);
            }
        }
    }
    assert(whole[0] == a);
    if second.len() == 1 {
        assert(whole.last() == first.last());
    } else {
        assert(whole.last() == second.last());
    }
    assert(g.is_path(whole) && whole[0] == a && whole.last() == c);
}

/// A walk that begins in a closed set of vertices ends in it.
pub proof fn lemma_walk_stays_inside(g: GraphView, inside: Set<VertexId>, path: Seq<VertexId>)
    requires
        g.is_closed(inside),
        g.is_path(path),
        inside.contains(path[0]),
    ensures
        inside.contains(path.last()),
    decreases path.len(),
{
    if path.len() > 1 {
        let shorter = path.drop_last();
        assert forall|i: int| 0 <= i < shorter.len() - 1 implies g.has_edge(
            #[trigger] shorter[i],
            shorter[i + 1],
        ) by {
            assert(g.has_edge(path[i], path[i + 1]));
        }
        lemma_walk_stays_inside(g, inside, shorter);
        let n = path.len() - 2;
        assert(g.has_edge(path[n], path[n + 1]));
        assert(shorter.last() == path[n]);
    }
}

/// Whether `items` holds `x`.
fn holds(items: &Vec<VertexId>, x: VertexId) -> (found: bool)
    ensures
        found == items@.contains(x),
{
    let mut i: usize = 0;
    while i < items.len()
        invariant
            i <= items.len(),
            forall|j: int| 0 <= j < i ==> items[j] != x,
        decreases items.len() - i,
    {
        if items[i] == x {
            return true;
        }
        i += 1;
    }
    false
}

impl TemporalGraph {
    /// Whether every two vertices of the graph are connected by edges,
    /// whatever their timestamps.
    pub fn is_connected(&self) -> (connected: bool)
        requires
            self.wf(),
        ensures
            connected == self@.is_connected(),
    {
        let vertices = self.vertices();
        if vertices.len() == 0 {
            assert forall|a: VertexId| !self@.vertices.contains(a) by {
                assert(!vertices@.to_set().contains(a));
            }
            return true;
        }
        let start = vertices[0];
        let ghost g = self@;
        proof {
            self.lemma_view_wf();
            lemma_connected_reflexive(g, start);
            assert(vertices@.to_set().contains(start));
        }
        let mut reached: Vec<VertexId> = Vec::new();
        reached.push(start);
        let mut i: usize = 0;
        while i < reached.len()
            invariant
                self.wf(),
                g == self@,
                g.wf(),
                vertices@.to_set() == g.vertices,
                increasing_vertices(vertices@),
                i <= reached.len(),
                reached.len() >= 1,
                reached[0] == start,
                reached@.no_duplicates(),
                forall|j: int|
                    0 <= j < reached.len() ==> g.vertices.contains(#[trigger] reached[j]),
                forall|j: int|
                    0 <= j < reached.len() ==> g.connected(start, #[trigger] reached[j]),
                forall|j: int, w: VertexId|
                    0 <= j < i && #[trigger] g.has_edge(reached[j], w) ==> reached@.contains(w),
            decreases vertices.len() - i,
        {
            proof {
                lemma_count_bound(reached@, vertices@);
            }
            let current = reached[i];
            let neighbors = self.get_all_neighbors(current);
            let mut c: usize = 0;
            while c < neighbors.len()
                invariant
                    g.wf(),
                    vertices@.to_set() == g.vertices,
                    i < reached.len(),
                    current == reached[i as int],
                    reached[0] == start,
                    c <= neighbors.len(),
                    forall|w: VertexId| neighbors@.contains(w) <==> g.has_edge(current, w),
                    reached@.no_duplicates(),
                    forall|j: int|
                        0 <= j < reached.len() ==> g.vertices.contains(#[trigger] reached[j]),
                    forall|j: int|
                        0 <= j < reached.len() ==> g.connected(start, #[trigger] reached[j]),
                    forall|j: int, w: VertexId|
                        0 <= j < i && #[trigger] g.has_edge(reached[j], w) ==> reached@.contains(
                            w,
                        ),
                    forall|k: int| 0 <= k < c ==> reached@.contains(#[trigger] neighbors[k]),
                decreases neighbors.len() - c,
            {
                let w = neighbors[c];
                if !holds(&reached, w) {
                    let ghost before = reached@;
                    proof {
                        assert(neighbors@.contains(w));
                        lemma_connected_step(g, start, current, w);
                        let t = choose|t: crate::model::TimeStep| g.has_label(current, w, t);
                        assert(g.labels.contains(crate::model::label_of(current, w, t)));
                    }
                    reached.push(w);
                    proof {
                        assert forall|j: int, x: VertexId|
                            0 <= j < i && #[trigger] g.has_edge(
                                reached[j],
                                x,
                            ) implies reached@.contains(x) by {
                            assert(before[j] == reached[j]);
                            let p = choose|p: int| 0 <= p < before.len() && before[p] == x;
                            assert(reached[p] == x);
                        }
                        assert forall|k: int| 0 <= k < c + 1 implies reached@.contains(
                            #[trigger] neighbors[k],
                        ) by {
                            if k < c {
                                let p = choose|p: int|
                                    0 <= p < before.len() && before[p] == neighbors[k];
                                assert(reached[p] == neighbors[k]);
                            } else {
                                assert(reached[before.len() as int] == w);
                            }
                        }
                    }
                }
                c += 1;
            }
            proof {
                assert forall|j: int, w: VertexId|
                    0 <= j < i + 1 && #[trigger] g.has_edge(
                        reached[j],
                        w,
                    ) implies reached@.contains(w) by {
                    if j == i {
                        assert(neighbors@.contains(w));
                        let k = choose|k: int| 0 <= k < neighbors.len() && neighbors[k] == w;
                        assert(reached@.contains(neighbors[k]));
                    }
                }
            }
            i += 1;
        }
        proof {
            lemma_count_bound(reached@, vertices@);
            let inside = reached@.to_set();
            assert(g.is_closed(inside)) by {
                assert forall|a: VertexId, b: VertexId|
                    inside.contains(a) && #[trigger] g.has_edge(a, b) implies inside.contains(
                    b,
                ) by {
                    let j = choose|j: int| 0 <= j < reached.len() && reached[j] == a;
                    assert(g.has_edge(reached[j], b));
                }
            }
            assert(inside.contains(start)) by {
                assert(reached[0] == start);
            }
            if reached.len() == vertices.len() {
                lemma_same_count(reached@, vertices@);
                assert forall|a: VertexId, b: VertexId|
                    g.vertices.contains(a) && g.vertices.contains(b) implies #[trigger] g.connected(
                    a,
                    b,
                ) by {
                    let ja = choose|j: int| 0 <= j < reached.len() && reached[j] == a;
                    let jb = choose|j: int| 0 <= j < reached.len() && reached[j] == b;
                    assert(g.connected(start, reached[ja]));
                    assert(g.connected(start, reached[jb]));
                    lemma_connected_symmetric(g, start, a);
                    lemma_connected_transitive(g, a, start, b);
                }
            } else {
                let missing = lemma_missing(reached@, vertices@);
                if g.is_connected() {
                    assert(g.connected(start, missing));
                    let path = choose|path: Seq<VertexId>| #[trigger]
                        g.is_path(path) && path[0] == start && path.last() == missing;
                    lemma_walk_stays_inside(g, inside, path);
                }
            }
        }
        reached.len() == vertices.len()
    }
}

/// A sequence without duplicates whose elements all occur in `all` is at
/// most as long as `all`.
proof fn lemma_count_bound(part: Seq<VertexId>, all: Seq<VertexId>)
    requires
        part.no_duplicates(),
        forall|j: int| 0 <= j < part.len() ==> all.to_set().contains(#[trigger] part[j]),
    ensures
        part.len() <= all.len(),
{
    part.unique_seq_to_set();
    vstd::seq_lib::seq_to_set_is_finite(all);
    vstd::seq_lib::seq_to_set_is_finite(part);
    assert(part.to_set().subset_of(all.to_set())) by {
        assert forall|x: VertexId| part.to_set().contains(x) implies all.to_set().contains(x) by {
            let j = choose|j: int| 0 <= j < part.len() && part[j] == x;
            assert(all.to_set().contains(part[j]));
        }
    }
    vstd::set_lib::lemma_len_subset(part.to_set(), all.to_set());
    all.lemma_cardinality_of_set();
}

/// A sequence without duplicates whose elements all occur in the ascending
/// `all`, and which is as long as `all`, holds every element of `all`.
proof fn lemma_same_count(part: Seq<VertexId>, all: Seq<VertexId>)
    requires
        part.no_duplicates(),
        increasing_vertices(all),
        forall|j: int| 0 <= j < part.len() ==> all.to_set().contains(#[trigger] part[j]),
        part.len() == all.len(),
    ensures
        part.to_set() == all.to_set(),
{
    part.unique_seq_to_set();
    lemma_increasing_distinct(all);
    all.unique_seq_to_set();
    vstd::seq_lib::seq_to_set_is_finite(all);
    vstd::seq_lib::seq_to_set_is_finite(part);
    assert(part.to_set().subset_of(all.to_set())) by {
        assert forall|x: VertexId| part.to_set().contains(x) implies all.to_set().contains(x) by {
            let j = choose|j: int| 0 <= j < part.len() && part[j] == x;
            assert(all.to_set().contains(part[j]));
        }
    }
    vstd::set_lib::lemma_subset_equality(part.to_set(), all.to_set());
}

/// An ascending sequence has no duplicates.
proof fn lemma_increasing_distinct(all: Seq<VertexId>)
    requires
        increasing_vertices(all),
    ensures
        all.no_duplicates(),
{
    assert forall|i: int, j: int| 0 <= i < all.len() && 0 <= j < all.len() && i != j implies all[i]
        != all[j] by {
        if i < j {
            assert(all[i] < all[j]);
        } else {
            assert(all[j] < all[i]);
        }
    }
}

/// A sequence without duplicates whose elements all occur in the ascending
/// `all`, and which is shorter than `all`, lacks an element of `all`.
proof fn lemma_missing(part: Seq<VertexId>, all: Seq<VertexId>) -> (missing: VertexId)
    requires
        part.no_duplicates(),
        increasing_vertices(all),
        forall|j: int| 0 <= j < part.len() ==> all.to_set().contains(#[trigger] part[j]),
        part.len() < all.len(),
    ensures
        all.to_set().contains(missing),
        !part.to_set().contains(missing),
{
    part.unique_seq_to_set();
    lemma_increasing_distinct(all);
    all.unique_seq_to_set();
    if all.to_set().subset_of(part.to_set()) {
        vstd::seq_lib::seq_to_set_is_finite(part);
        vstd::set_lib::lemma_len_subset(all.to_set(), part.to_set());
        assert(false);
    }
    choose|x: VertexId| all.to_set().contains(x) && !part.to_set().contains(x)
}

} // verus!
