//! Laws of the graph model that relate several operations. Each is stated
//! over the functions of the model that the operations' own contracts use.
use crate::minimization::{
    cap_reached, fresh_run, MinimizationConfig, MinimizationResult, RunState, TerminationReason,
};
use crate::model::{edge_key, label_of, GraphView, Label, TimeStep, VertexId};
use crate::state::{is_state_of, lemma_state_unique, StateEntry};
use vstd::prelude::*;

verus! {

/// One call of `add_edge`: the two endpoints in the order given and the
/// timestamp.
pub type Insertion = (VertexId, VertexId, TimeStep);

/// The label that an insertion adds.
pub open spec fn inserted_label(op: Insertion) -> Label {
    label_of(op.0, op.1, op.2)
}

/// The labels that the insertions `ops` add, in their order.
pub open spec fn inserted_labels(ops: Seq<Insertion>) -> Seq<Label> {
    ops.map_values(|op: Insertion| inserted_label(op))
}

/// The graph that the insertions `ops`, made in this order on an empty
/// graph, build.
pub open spec fn built_by(ops: Seq<Insertion>) -> GraphView
    decreases ops.len(),
{
    if ops.len() == 0 {
        GraphView::empty()
    } else {
        built_by(ops.drop_last()).with_label(ops.last().0, ops.last().1, ops.last().2)
    }
}

/// The graph built by insertions holds the labels of the insertions, and its
/// vertices are the endpoints of its labels.
pub proof fn lemma_built_by(ops: Seq<Insertion>)
    ensures
        forall|l: Label|
            built_by(ops).labels.contains(l) <==> inserted_labels(ops).contains(l),
        forall|x: VertexId|
            built_by(ops).vertices.contains(x) <==> exists|l: Label| #[trigger]
                built_by(ops).labels.contains(l) && (l.0 == x || l.1 == x),
    decreases ops.len(),
{
    let labels = inserted_labels(ops);
    if ops.len() == 0 {
    } else {
        let rest = ops.drop_last();
        let rest_labels = inserted_labels(rest);
        let op = ops.last();
        let added = inserted_label(op);
        lemma_built_by(rest);
        assert forall|l: Label| built_by(ops).labels.contains(l) <==> labels.contains(l) by {
            if labels.contains(l) {
                let i = choose|i: int| 0 <= i < labels.len() && labels[i] == l;
                if i < rest.len() {
                    assert(rest_labels[i] == l);
                }
            }
            if rest_labels.contains(l) {
                let i = choose|i: int| 0 <= i < rest_labels.len() && rest_labels[i] == l;
                assert(labels[i] == l);
            }
            if l == added {
                assert(labels[ops.len() - 1] == l);
            }
        }
        assert forall|x: VertexId|
            built_by(ops).vertices.contains(x) <==> exists|l: Label| #[trigger]
                built_by(ops).labels.contains(l) && (l.0 == x || l.1 == x) by {
            if built_by(rest).vertices.contains(x) {
                let l = choose|l: Label| #[trigger]
                    built_by(rest).labels.contains(l) && (l.0 == x || l.1 == x);
                assert(built_by(ops).labels.contains(l));
            }
            if x == op.0 || x == op.1 {
                assert(built_by(ops).labels.contains(added));
            }
            if exists|l: Label| #[trigger]
                built_by(ops).labels.contains(l) && (l.0 == x || l.1 == x) {
                let l = choose|l: Label| #[trigger]
                    built_by(ops).labels.contains(l) && (l.0 == x || l.1 == x);
                if l != added {
                    assert(built_by(rest).labels.contains(l));
                }
            }
        }
    }
}

/// The state of a graph does not depend on the order in which its labels
/// were inserted, nor on the order in which the endpoints of an edge were
/// given: two sequences of insertions that hold the same labels, each as
/// often as the other, build the same graph, and equal graphs have the same
/// state.
pub proof fn lemma_state_ignores_insertion_order(
    a: Seq<Insertion>,
    b: Seq<Insertion>,
    state_a: Seq<StateEntry>,
    state_b: Seq<StateEntry>,
)
    requires
        inserted_labels(a).to_multiset() == inserted_labels(b).to_multiset(),
        is_state_of(state_a, built_by(a).labels),
        is_state_of(state_b, built_by(b).labels),
    ensures
        built_by(a) == built_by(b),
        state_a == state_b,
{
    let la = inserted_labels(a);
    let lb = inserted_labels(b);
    lemma_built_by(a);
    lemma_built_by(b);
    la.to_multiset_ensures();
    lb.to_multiset_ensures();
    assert forall|l: Label| built_by(a).labels.contains(l) <==> built_by(b).labels.contains(
        l,
    ) by {
        assert(la.contains(l) <==> la.to_multiset().count(l) > 0);
        assert(lb.contains(l) <==> lb.to_multiset().count(l) > 0);
    }
    assert(built_by(a).labels =~= built_by(b).labels);
    assert(built_by(a).vertices =~= built_by(b).vertices);
    lemma_state_unique(state_a, state_b);
}

/// Graphs with the same labels have the same state, and graphs with the
/// same state have the same labels.
pub proof fn lemma_state_determines_labels(
    state_a: Seq<StateEntry>,
    state_b: Seq<StateEntry>,
    labels_a: Set<Label>,
    labels_b: Set<Label>,
)
    requires
        is_state_of(state_a, labels_a),
        is_state_of(state_b, labels_b),
    ensures
        state_a == state_b <==> labels_a == labels_b,
{
    if labels_a == labels_b {
        lemma_state_unique(state_a, state_b);
    }
}

/// Inserting a label a second time changes nothing: neither the labels of
/// the edge nor the edges of the graph.
pub proof fn lemma_insertion_idempotent(g: GraphView, u: VertexId, v: VertexId, t: TimeStep)
    ensures
        g.with_label(u, v, t).with_label(u, v, t) == g.with_label(u, v, t),
        g.with_label(u, v, t).with_label(u, v, t).edge_labels(u, v) == g.with_label(
            u,
            v,
            t,
        ).edge_labels(u, v),
        g.with_label(u, v, t).with_label(u, v, t).edge_keys() == g.with_label(u, v, t).edge_keys(),
{
    let once = g.with_label(u, v, t);
    let twice = once.with_label(u, v, t);
    assert(twice.labels =~= once.labels);
    assert(twice.vertices =~= once.vertices);
}

/// Inserting a label that the graph holds changes nothing.
pub proof fn lemma_insertion_of_present_label(g: GraphView, u: VertexId, v: VertexId, t: TimeStep)
    requires
        g.wf(),
        g.has_label(u, v, t),
    ensures
        g.with_label(u, v, t) == g,
{
    assert(g.with_label(u, v, t).labels =~= g.labels);
    assert(g.with_label(u, v, t).vertices =~= g.vertices);
}

/// The edges of a well-formed graph are finitely many.
pub proof fn lemma_edge_keys_finite(g: GraphView)
    requires
        g.labels.finite(),
    ensures
        g.edge_keys().finite(),
{
    let key = |l: Label| (l.0, l.1);
    g.labels.lemma_map_finite(key);
    assert forall|k: (VertexId, VertexId)| g.edge_keys().contains(k) <==> g.labels.map(
        key,
    ).contains(k) by {
        if g.edge_keys().contains(k) {
            let t = choose|t: TimeStep| g.labels.contains((k.0, k.1, t));
            assert(g.labels.contains((k.0, k.1, t)) && key((k.0, k.1, t)) == k);
        }
        if g.labels.map(key).contains(k) {
            let l = choose|l: Label| g.labels.contains(l) && key(l) == k;
            assert(g.labels.contains((k.0, k.1, l.2)));
        }
    }
    assert(g.edge_keys() =~= g.labels.map(key));
}

/// Removing the only timestamp of an edge removes the edge: afterwards the
/// edge does not exist, and the graph has exactly one edge fewer.
pub proof fn lemma_last_label_removes_edge(g: GraphView, u: VertexId, v: VertexId, t: TimeStep)
    requires
        g.labels.finite(),
        g.has_label(u, v, t),
        forall|s: TimeStep| #[trigger] g.has_label(u, v, s) ==> s == t,
    ensures
        !g.without_label(u, v, t).has_edge(u, v),
        g.without_label(u, v, t).edge_keys() == g.edge_keys().remove(edge_key(u, v)),
        g.edge_keys().contains(edge_key(u, v)),
        g.without_label(u, v, t).edge_keys().len() == g.edge_keys().len() - 1,
{
    let after = g.without_label(u, v, t);
    let k = edge_key(u, v);
    lemma_edge_keys_finite(g);
    assert(g.labels.contains((k.0, k.1, t)));
    assert forall|j: (VertexId, VertexId)| after.edge_keys().contains(j) <==> g.edge_keys().remove(
        k,
    ).contains(j) by {
        if after.edge_keys().contains(j) {
            let s = choose|s: TimeStep| after.labels.contains((j.0, j.1, s));
            assert(g.labels.contains((j.0, j.1, s)));
            if j == k {
                assert(g.has_label(u, v, s));
            }
        }
        if g.edge_keys().remove(k).contains(j) {
            let s = choose|s: TimeStep| g.labels.contains((j.0, j.1, s));
            assert(after.labels.contains((j.0, j.1, s)));
        }
    }
    assert(after.edge_keys() =~= g.edge_keys().remove(k));
    assert(!after.has_edge(u, v)) by {
        if after.has_edge(u, v) {
            let s = choose|s: TimeStep| after.has_label(u, v, s);
            assert(g.has_label(u, v, s));
        }
    }
}

/// Removing one of several timestamps of an edge keeps the edge, and the
/// graph has as many edges as before.
pub proof fn lemma_other_label_keeps_edge(
    g: GraphView,
    u: VertexId,
    v: VertexId,
    t: TimeStep,
    s: TimeStep,
)
    requires
        g.has_label(u, v, t),
        g.has_label(u, v, s),
        s != t,
    ensures
        g.without_label(u, v, t).has_label(u, v, s),
        g.without_label(u, v, t).edge_keys() == g.edge_keys(),
{
    let after = g.without_label(u, v, t);
    let k = edge_key(u, v);
    assert forall|j: (VertexId, VertexId)|
        after.edge_keys().contains(j) <==> g.edge_keys().contains(j) by {
        if after.edge_keys().contains(j) {
            let r = choose|r: TimeStep| after.labels.contains((j.0, j.1, r));
            assert(g.labels.contains((j.0, j.1, r)));
        }
        if g.edge_keys().contains(j) {
            let r = choose|r: TimeStep| g.labels.contains((j.0, j.1, r));
            if j == k {
                assert(after.labels.contains((j.0, j.1, s)));
            } else {
                assert(after.labels.contains((j.0, j.1, r)));
            }
        }
    }
    assert(after.edge_keys() =~= g.edge_keys());
}

/// The range of an edge is open: a timestamp equal to the smallest or to
/// the largest timestamp of an edge is no wrap candidate for it, does not
/// make it wrappable, and is not moved by a transfer through it.
pub proof fn lemma_range_bounds_excluded(
    g: GraphView,
    u: VertexId,
    v: VertexId,
    w: VertexId,
    x: VertexId,
    t: TimeStep,
)
    requires
        t == g.min_label(u, v) || t == g.max_label(u, v),
    ensures
        !g.in_range(u, v, t),
        !g.is_candidate(u, v, (w, x, t)),
        !g.is_moved(u, v, w, t),
        !g.is_source(u, v, (w, x, t)),
        !g.is_target(u, v, (w, x, t)),
        g.after_transfer(u, v).labels.contains((w, x, t)) == g.labels.contains((w, x, t)),
        g.min_incident(u, v) is Some ==> g.min_incident(u, v).unwrap().2 != t,
{
    if g.min_incident(u, v) is Some {
        let c = g.min_incident(u, v).unwrap();
        assert(g.is_min_candidate(u, v, c));
    }
}

/// An edge is wrappable only through a timestamp strictly inside its range:
/// where every timestamp on the other edges at its endpoints is at most its
/// smallest or at least its largest timestamp, it is not wrappable.
pub proof fn lemma_not_wrappable_at_bounds(g: GraphView, u: VertexId, v: VertexId)
    requires
        forall|l: Label| #[trigger]
            g.labels.contains(l) && (l.0, l.1) != edge_key(u, v) ==> l.2 <= g.min_label(u, v)
                || l.2 >= g.max_label(u, v),
    ensures
        !g.is_wrappable(u, v),
{
}

/// A transfer through an edge takes no timestamp from that edge.
pub proof fn lemma_transfer_keeps_labels_of_edge(g: GraphView, anchor: VertexId, pivot: VertexId)
    ensures
        g.edge_labels(anchor, pivot).subset_of(
            g.after_transfer(anchor, pivot).edge_labels(anchor, pivot),
        ),
{
    assert forall|t: TimeStep| g.edge_labels(anchor, pivot).contains(t) implies g.after_transfer(
        anchor,
        pivot,
    ).edge_labels(anchor, pivot).contains(t) by {
        crate::model::lemma_transfer_keeps_edge(g, anchor, pivot, t);
    }
}

/// A transfer through an edge does not alter that edge, unless the pivot
/// has a loop whose timestamps inside the range the edge lacks: those move
/// onto the edge.
pub proof fn lemma_transfer_leaves_edge(g: GraphView, anchor: VertexId, pivot: VertexId)
    requires
        forall|t: TimeStep| #[trigger]
            g.is_moved(anchor, pivot, pivot, t) ==> g.has_label(anchor, pivot, t),
    ensures
        g.after_transfer(anchor, pivot).edge_labels(anchor, pivot) == g.edge_labels(
            anchor,
            pivot,
        ),
{
    let after = g.after_transfer(anchor, pivot);
    assert forall|t: TimeStep| after.edge_labels(anchor, pivot).contains(t) <==> g.edge_labels(
        anchor,
        pivot,
    ).contains(t) by {
        let l = label_of(anchor, pivot, t);
        assert(!g.is_source(anchor, pivot, l));
        if g.is_target(anchor, pivot, l) {
            assert(g.is_moved(anchor, pivot, pivot, t));
        }
    }
    assert(after.edge_labels(anchor, pivot) =~= g.edge_labels(anchor, pivot));
}

/// A transfer merges: after it, the edge between a neighbour `w` and the
/// anchor carries the timestamps it carried before together with those
/// moved from the edge between the pivot and `w`. None is lost and none is
/// there twice, the timestamps of an edge being a set.
pub proof fn lemma_transfer_merges(g: GraphView, anchor: VertexId, pivot: VertexId, w: VertexId)
    ensures
        g.after_transfer(anchor, pivot).edge_labels(w, anchor) == g.edge_labels(w, anchor).union(
            Set::new(|t: TimeStep| g.is_moved(anchor, pivot, w, t)),
        ),
{
    let after = g.after_transfer(anchor, pivot);
    let merged = g.edge_labels(w, anchor).union(
        Set::new(|t: TimeStep| g.is_moved(anchor, pivot, w, t)),
    );
    assert forall|t: TimeStep| after.edge_labels(w, anchor).contains(t) <==> merged.contains(
        t,
    ) by {
        let l = label_of(w, anchor, t);
        if g.is_moved(anchor, pivot, w, t) {
            assert(g.is_target(anchor, pivot, l));
        }
        if g.is_target(anchor, pivot, l) {
            assert(g.is_moved(anchor, pivot, w, t));
        }
        if g.is_source(anchor, pivot, l) {
            assert(g.is_moved(anchor, pivot, w, t));
        }
    }
    assert(after.edge_labels(w, anchor) =~= merged);
}

/// A transfer leaves every edge alone that has neither the pivot nor the
/// anchor as an endpoint.
pub proof fn lemma_transfer_is_local(g: GraphView, anchor: VertexId, pivot: VertexId, l: Label)
    requires
        l.0 != pivot && l.1 != pivot && l.0 != anchor && l.1 != anchor,
    ensures
        g.after_transfer(anchor, pivot).labels.contains(l) == g.labels.contains(l),
{
}

/// A run ends in one iteration only: the number of iterations that do not
/// end it is determined by the state in which it begins.
pub proof fn lemma_run_deterministic(
    begin: RunState,
    config: MinimizationConfig,
    n: nat,
    m: nat,
    result_n: MinimizationResult,
    result_m: MinimizationResult,
    end_n: RunState,
    end_m: RunState,
)
    requires
        begin.runs_to(config, n, result_n, end_n),
        begin.runs_to(config, m, result_m, end_m),
    ensures
        n == m,
        result_n == result_m,
        end_n == end_m,
{
    let begun = begin.start();
    if n < m {
        assert(begun.after_rounds(config, n).round(config).1 is None);
    }
    if m < n {
        assert(begun.after_rounds(config, m).round(config).1 is None);
    }
}

/// With an iteration cap of 0 a run ends in its first iteration, without
/// verdict and with the graph unchanged, whatever the graph.
pub proof fn lemma_run_with_zero_cap(
    begin: RunState,
    config: MinimizationConfig,
    n: nat,
    result: MinimizationResult,
    end: RunState,
)
    requires
        config.max_iterations == Some(0usize),
        begin.runs_to(config, n, result, end),
    ensures
        n == 0,
        result.termination_reason == TerminationReason::MaxIterationsReached,
        !result.is_minimal,
        end.graph == begin.graph,
{
    let begun = begin.start();
    assert(begun.after_rounds(config, 0) == begun);
    assert(cap_reached(config, (begun.stats.iterations + 1) as usize));
    assert(begun.round(config).1 is Some);
    if n > 0 {
        assert(begun.after_rounds(config, 0).round(config).1 is None);
    }
}

/// The verdict of a run goes with the reason for which it ended: the graph
/// counts as minimal exactly when a state repeated. A run that ended for
/// the cap or for want of a move made no move in its last iteration.
pub proof fn lemma_verdict(
    begin: RunState,
    config: MinimizationConfig,
    n: nat,
    result: MinimizationResult,
    end: RunState,
)
    requires
        begin.runs_to(config, n, result, end),
    ensures
        result.is_minimal <==> result.termination_reason == TerminationReason::CycleDetected,
        result.stats is Some <==> config.track_statistics,
        result.stats is Some ==> result.stats.unwrap() == end.stats,
        result.termination_reason == TerminationReason::CycleDetected ==> end.seen.contains(
            end.graph.labels,
        ),
        result.termination_reason == TerminationReason::UselessLabelFound
            ==> end.graph.wrappable_edge() is None || end.graph.min_incident(
            end.graph.wrappable_edge().unwrap().0,
            end.graph.wrappable_edge().unwrap().1,
        ) is None,
{
}

/// Where `k` moves exist, fewer exist too.
pub proof fn lemma_earlier_moves_exist(g: GraphView, j: nat, k: nat)
    requires
        j <= k,
        g.after_moves(k) is Some,
    ensures
        g.after_moves(j) is Some,
    decreases k - j,
{
    if j < k {
        lemma_earlier_moves_exist(g, j + 1, k);
    }
}

/// While a run on a fresh minimiser goes on, its graph is the graph after
/// as many moves as iterations were made, the initial state stays recorded,
/// and the iterations are counted.
pub proof fn lemma_rounds_follow_moves(g: GraphView, config: MinimizationConfig, j: nat)
    requires
        config.max_iterations is Some ==> j <= usize::MAX,
        forall|i: nat|
            i < j ==> (#[trigger] fresh_run(g).start().after_rounds(config, i)).round(config).1
                is None,
    ensures
        g.after_moves(j) == Some(fresh_run(g).start().after_rounds(config, j).graph),
        fresh_run(g).start().after_rounds(config, j).seen.contains(g.labels),
        config.max_iterations is Some ==> fresh_run(g).start().after_rounds(
            config,
            j,
        ).stats.iterations == j,
    decreases j,
{
    let begun = fresh_run(g).start();
    if j > 0 {
        let before = (j - 1) as nat;
        lemma_rounds_follow_moves(g, config, before);
        let state = begun.after_rounds(config, before);
        assert(state.round(config).1 is None);
    }
}

/// A graph that the moves lead back to its initial state is found minimal:
/// where the graph after `k` moves, `k` at least 1, has the labels it began
/// with, a run on a fresh minimiser whose iteration cap is above `k`, or
/// which has none, ends because a state repeated, within `k` iterations.
pub proof fn lemma_returning_run_detects_cycle(
    g: GraphView,
    config: MinimizationConfig,
    k: nat,
    n: nat,
    result: MinimizationResult,
    end: RunState,
)
    requires
        k >= 1,
        g.after_moves(k) is Some,
        g.after_moves(k).unwrap().labels == g.labels,
        config.max_iterations is Some ==> config.max_iterations.unwrap() > k,
        fresh_run(g).runs_to(config, n, result, end),
    ensures
        n < k,
        result.termination_reason == TerminationReason::CycleDetected,
        result.is_minimal,
{
    let begun = fresh_run(g).start();
    if n >= k {
        let last = (k - 1) as nat;
        assert forall|i: nat| i < last implies (#[trigger] begun.after_rounds(config, i)).round(
            config,
        ).1 is None by {}
        lemma_rounds_follow_moves(g, config, last);
        let state = begun.after_rounds(config, last);
        assert(state.round(config).1 is None);
        assert(g.after_moves(k) == state.graph.after_move());
        assert(false);
    }
    lemma_rounds_follow_moves(g, config, n);
    lemma_earlier_moves_exist(g, n + 1, k);
    let state = begun.after_rounds(config, n);
    assert(g.after_moves(n + 1) == state.graph.after_move());
}

} // verus!
