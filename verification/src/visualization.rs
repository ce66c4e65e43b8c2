//! What a drawing of a temporal graph shows, as plain data: the nodes, the
//! edges and their labels, in the vocabulary of the DOT language. Turning
//! this into a picture is left to the program that uses the library.
use crate::graph::{timestamp_position, TemporalGraph};
use crate::model::{Label, TimeStep, VertexId};
use crate::state::{
    entry_has, increasing_keys, increasing_times, increasing_vertices, lemma_state_of,
    state_entries, state_of, GraphState, StateEntry,
};
use crate::text::{append_signed, append_unsigned, decimal_of, texts};
use vstd::prelude::*;
use vstd::string::StringExecFns;

verus! {

/// One attribute of a DOT statement.
#[derive(Debug)]
pub struct DotAttribute {
    pub name: String,
    pub value: String,
}

/// One edge of a DOT graph, with its label if it has one. A label is to be
/// written in quotes.
#[derive(Debug)]
pub struct DotEdge {
    pub from: VertexId,
    pub to: VertexId,
    pub label: Option<String>,
}

/// A DOT graph: its name, whether it is strict, the attributes that all
/// its nodes share, its nodes and its edges.
#[derive(Debug)]
pub struct DotGraph {
    pub name: String,
    pub strict: bool,
    pub node_attributes: Vec<DotAttribute>,
    pub nodes: Vec<VertexId>,
    pub edges: Vec<DotEdge>,
}

/// The model of a DOT edge.
pub struct DotEdgeView {
    pub from: VertexId,
    pub to: VertexId,
    pub label: Option<Seq<char>>,
}

impl View for DotEdge {
    type V = DotEdgeView;

    open spec fn view(&self) -> DotEdgeView {
        DotEdgeView {
            from: self.from,
            to: self.to,
            label: match self.label {
                Some(text) => Some(text@),
                None => None,
            },
        }
    }
}

impl DotGraph {
    /// The attributes of the nodes as pairs of name and value.
    pub open spec fn attribute_texts(&self) -> Seq<(Seq<char>, Seq<char>)> {
        self.node_attributes@.map_values(|a: DotAttribute| (a.name@, a.value@))
    }

    /// The models of the edges.
    pub open spec fn edge_views(&self) -> Seq<DotEdgeView> {
        self.edges@.map_values(|e: DotEdge| e@)
    }
}

/// The timestamps `times` as text, separated by a comma and a blank.
pub open spec fn joined_times(times: Seq<TimeStep>) -> Seq<char>
    decreases times.len(),
{
    if times.len() == 0 {
        Seq::empty()
    } else if times.len() == 1 {
        decimal_of(times[0] as int)
    } else {
        joined_times(times.drop_last()) + ", "@ + decimal_of(times.last() as int)
    }
}

/// The label of an edge with the timestamps `times`: all of them where
/// they are at most five, else the first, the last and their number.
pub open spec fn label_text(times: Seq<TimeStep>) -> Seq<char> {
    if times.len() <= 5 {
        joined_times(times)
    } else {
        decimal_of(times[0] as int) + ".."@ + decimal_of(times.last() as int) + " ("@
            + decimal_of(times.len() as int) + " times)"@
    }
}

/// Appends the timestamps `times`, separated by a comma and a blank.
pub fn append_times(text: &mut String, times: &Vec<TimeStep>)
    ensures
        final(text)@ == old(text)@ + joined_times(times@),
{
    let mut i: usize = 0;
    proof {
        assert(times@.take(0) =~= Seq::<TimeStep>::empty());
        assert(text@ =~= old(text)@ + joined_times(times@.take(0)));
    }
    while i < times.len()
        invariant
            i <= times.len(),
            text@ == old(text)@ + joined_times(times@.take(i as int)),
        decreases times.len() - i,
    {
        let ghost written = joined_times(times@.take(i as int));
        if i > 0 {
            text.append(", ");
        }
        append_signed(text, times[i]);
        proof {
            let longer = times@.take(i + 1);
            assert(longer.drop_last() =~= times@.take(i as int));
            assert(longer.last() == times[i as int]);
            if i == 0 {
                assert(written =~= Seq::<char>::empty());
                assert(longer[0] == times[0]);
                assert(text@ =~= old(text)@ + joined_times(longer));
            } else {
                assert(joined_times(longer) == written + ", "@ + decimal_of(
                    times[i as int] as int,
                ));
                assert(text@ =~= old(text)@ + (written + ", "@ + decimal_of(
                    times[i as int] as int,
                )));
            }
        }
        i += 1;
    }
    proof {
        assert(times@.take(i as int) =~= times@);
    }
}

/// The label of an edge with the timestamps `times`.
pub fn edge_label(times: &Vec<TimeStep>) -> (label: String)
    ensures
        label@ == label_text(times@),
{
    let mut label = String::new();
    if times.len() <= 5 {
        append_times(&mut label, times);
        assert(label@ =~= label_text(times@));
    } else {
        append_signed(&mut label, times[0]);
        label.append("..");
        append_signed(&mut label, times[times.len() - 1]);
        label.append(" (");
        append_unsigned(&mut label, times.len());
        label.append(" times)");
        assert(label@ =~= label_text(times@));
    }
    label
}

/// The line that shows one edge of a state: `    u -- v : [t1, t2]`.
pub open spec fn entry_line(e: StateEntry) -> Seq<char> {
    "    "@ + decimal_of(e.0.0 as int) + " -- "@ + decimal_of(e.0.1 as int) + " : ["@
        + joined_times(e.1) + "]"@
}

/// The lines that show a state: a heading, then one line for each edge, or
/// a line that says that there are none.
pub open spec fn state_lines(s: Seq<StateEntry>) -> Seq<Seq<char>> {
    if s.len() == 0 {
        seq!["Graph State:"@, "  (no edges)"@]
    } else {
        seq!["Graph State:"@] + s.map_values(|e: StateEntry| entry_line(e))
    }
}

impl GraphState {
    /// The lines that show the state.
    pub fn lines(&self) -> (lines: Vec<String>)
        ensures
            texts(lines@) == state_lines(self@),
    {
        let entries = self.edge_labels();
        let mut lines: Vec<String> = Vec::new();
        lines.push(String::from_str("Graph State:"));
        if entries.len() == 0 {
            lines.push(String::from_str("  (no edges)"));
            assert(texts(lines@) =~= state_lines(self@));
            return lines;
        }
        let mut i: usize = 0;
        while i < entries.len()
            invariant
                i <= entries.len(),
                state_entries(entries@) == self@,
                lines.len() == i + 1,
                lines[0]@ == "Graph State:"@,
                forall|j: int| 0 <= j < i ==> (#[trigger] lines[j + 1])@ == entry_line(self@[j]),
            decreases entries.len() - i,
        {
            assert(self@[i as int] == (entries[i as int].0, entries[i as int].1@));
            let mut line = String::from_str("    ");
            append_unsigned(&mut line, entries[i].0.0);
            line.append(" -- ");
            append_unsigned(&mut line, entries[i].0.1);
            line.append(" : [");
            append_times(&mut line, &entries[i].1);
            line.append("]");
            assert(line@ =~= entry_line(self@[i as int]));
            lines.push(line);
            i += 1;
        }
        proof {
            let shown = state_lines(self@);
            assert(self@.len() == entries.len());
            assert(texts(lines@).len() == shown.len());
            assert forall|k: int| 0 <= k < shown.len() implies texts(lines@)[k] == shown[k] by {
                if k > 0 {
                    assert(lines[(k - 1) + 1]@ == entry_line(self@[k - 1]));
                }
            }
            assert(texts(lines@) =~= shown);
        }
        lines
    }
}

/// The DOT attribute `name=value`.
fn attribute(name: &str, value: &str) -> (a: DotAttribute)
    ensures
        a.name@ == name@,
        a.value@ == value@,
{
    DotAttribute { name: String::from_str(name), value: String::from_str(value) }
}

impl TemporalGraph {
    /// The drawing of the whole graph: a strict graph named
    /// `temporal_graph` with filled light-blue circles for the vertices, in
    /// ascending order, and the edges in ascending order of their keys,
    /// each labelled with its timestamps.
    pub fn to_dot_with_time_labels(&self) -> (dot: DotGraph)
        requires
            self.wf(),
        ensures
            dot.name@ == "temporal_graph"@,
            dot.strict,
            dot.attribute_texts() == seq![
                ("shape"@, "circle"@),
                ("style"@, "filled"@),
                ("fillcolor"@, "lightblue"@),
            ],
            increasing_vertices(dot.nodes@),
            dot.nodes@.to_set() == self@.vertices,
            dot.edge_views() == state_of(self@.labels).map_values(
                |e: StateEntry|
                    DotEdgeView { from: e.0.0, to: e.0.1, label: Some(label_text(e.1)) },
            ),
    {
        let mut node_attributes: Vec<DotAttribute> = Vec::new();
        node_attributes.push(attribute("shape", "circle"));
        node_attributes.push(attribute("style", "filled"));
        node_attributes.push(attribute("fillcolor", "lightblue"));
        let state = self.to_state();
        let entries = state.edge_labels();
        proof {
            lemma_state_of(state@, self@.labels);
        }
        let mut edges: Vec<DotEdge> = Vec::new();
        let mut i: usize = 0;
        while i < entries.len()
            invariant
                i <= entries.len(),
                state_entries(entries@) == state@,
                edges.len() == i,
                forall|j: int|
                    0 <= j < i ==> (#[trigger] edges[j])@ == (DotEdgeView {
                        from: state@[j].0.0,
                        to: state@[j].0.1,
                        label: Some(label_text(state@[j].1)),
                    }),
            decreases entries.len() - i,
        {
            assert(state@[i as int] == (entries[i as int].0, entries[i as int].1@));
            let label = edge_label(&entries[i].1);
            edges.push(DotEdge { from: entries[i].0.0, to: entries[i].0.1, label: Some(label) });
            i += 1;
        }
        let dot = DotGraph {
            name: String::from_str("temporal_graph"),
            strict: true,
            node_attributes,
            nodes: self.vertices(),
            edges,
        };
        proof {
            assert(dot.attribute_texts() =~= seq![
                ("shape"@, "circle"@),
                ("style"@, "filled"@),
                ("fillcolor"@, "lightblue"@),
            ]);
            assert(dot.edge_views() =~= state@.map_values(
                |e: StateEntry|
                    DotEdgeView { from: e.0.0, to: e.0.1, label: Some(label_text(e.1)) },
            ));
        }
        dot
    }

    /// The drawing of the graph at time `time`: a strict graph named
    /// `temporal_graph` with circles for all vertices, in ascending order,
    /// and the edges that carry `time`, in ascending order of their keys,
    /// without labels.
    pub fn to_dot_at_time(&self, time: TimeStep) -> (dot: DotGraph)
        requires
            self.wf(),
        ensures
            dot.name@ == "temporal_graph"@,
            dot.strict,
            dot.attribute_texts() == seq![("shape"@, "circle"@)],
            increasing_vertices(dot.nodes@),
            dot.nodes@.to_set() == self@.vertices,
            increasing_keys(dot.edge_views().map_values(|e: DotEdgeView| (e.from, e.to))),
            forall|i: int| 0 <= i < dot.edges.len() ==> (#[trigger] dot.edges[i]).label is None,
            forall|k: (VertexId, VertexId)|
                dot.edge_views().map_values(|e: DotEdgeView| (e.from, e.to)).contains(k)
                    <==> self@.labels.contains((k.0, k.1, time)),
    {
        let mut node_attributes: Vec<DotAttribute> = Vec::new();
        node_attributes.push(attribute("shape", "circle"));
        let active = self.edges_at_time(time);
        let mut edges: Vec<DotEdge> = Vec::new();
        let mut i: usize = 0;
        while i < active.len()
            invariant
                i <= active.len(),
                edges.len() == i,
                forall|j: int|
                    0 <= j < i ==> (#[trigger] edges[j]).from == active[j].0 && edges[j].to
                        == active[j].1 && edges[j].label is None,
            decreases active.len() - i,
        {
            edges.push(DotEdge { from: active[i].0, to: active[i].1, label: None });
            i += 1;
        }
        let dot = DotGraph {
            name: String::from_str("temporal_graph"),
            strict: true,
            node_attributes,
            nodes: self.vertices(),
            edges,
        };
        proof {
            assert(dot.attribute_texts() =~= seq![("shape"@, "circle"@)]);
            assert(dot.edge_views().map_values(|e: DotEdgeView| (e.from, e.to)) =~= active@);
        }
        dot
    }
}

/// Whether one of the first `i` entries of `s` carries `t`.
pub open spec fn carried_before(s: Seq<StateEntry>, i: int, t: TimeStep) -> bool {
    exists|j: int| 0 <= j < i && (#[trigger] s[j]).1.contains(t)
}

/// Whether one of the first `c` of `times` is `t`.
pub open spec fn among_first(times: Seq<TimeStep>, c: int, t: TimeStep) -> bool {
    exists|q: int| 0 <= q < c && #[trigger] times[q] == t
}

/// Enters `t` into the ascending `times` unless it is there.
fn enter_time(times: &mut Vec<TimeStep>, t: TimeStep)
    requires
        increasing_times(old(times)@),
    ensures
        increasing_times(final(times)@),
        forall|x: TimeStep| final(times)@.contains(x) <==> old(times)@.contains(x) || x == t,
{
    let q = timestamp_position(times, t);
    if q < times.len() && times[q] == t {
        return ;
    }
    let ghost before = times@;
    times.insert(q, t);
    proof {
        let after = times@;
        assert forall|a: int, b: int| 0 <= a < b < after.len() implies after[a] < after[b] by {
            if b < q {
            } else if b == q {
            } else if a < q {
                assert(after[b] == before[b - 1]);
            } else if a == q {
                assert(after[b] == before[b - 1]);
                assert(before[b - 1] >= t);
                assert(!before.contains(t));
            } else {
                assert(after[a] == before[a - 1] && after[b] == before[b - 1]);
            }
        }
        assert forall|x: TimeStep| after.contains(x) <==> before.contains(x) || x == t by {
            if after.contains(x) {
                let j = choose|j: int| 0 <= j < after.len() && after[j] == x;
                if j < q {
                    assert(before[j] == x);
                } else if j > q {
                    assert(before[j - 1] == x);
                }
            }
            if before.contains(x) {
                let j = choose|j: int| 0 <= j < before.len() && before[j] == x;
                if j < q {
                    assert(after[j] == x);
                } else {
                    assert(after[j + 1] == x);
                }
            }
            if x == t {
                assert(after[q as int] == t);
            }
        }
    }
}

impl TemporalGraph {
    /// The timestamps that occur on any edge of the graph, each once, in
    /// ascending order.
    pub fn all_times(&self) -> (times: Vec<TimeStep>)
        requires
            self.wf(),
        ensures
            increasing_times(times@),
            forall|t: TimeStep|
                times@.contains(t) <==> exists|l: Label| #[trigger]
                    self@.labels.contains(l) && l.2 == t,
    {
        let state = self.to_state();
        let entries = state.edge_labels();
        let ghost s = state@;
        let mut times: Vec<TimeStep> = Vec::new();
        let mut i: usize = 0;
        while i < entries.len()
            invariant
                i <= entries.len(),
                s == state@,
                s == state_entries(entries@),
                increasing_times(times@),
                forall|t: TimeStep| times@.contains(t) <==> carried_before(s, i as int, t),
            decreases entries.len() - i,
        {
            let ghost own = entries[i as int].1@;
            assert(s[i as int] == (entries[i as int].0, own));
            let mut c: usize = 0;
            while c < entries[i].1.len()
                invariant
                    i < entries.len(),
                    own == entries[i as int].1@,
                    c <= own.len(),
                    increasing_times(times@),
                    forall|t: TimeStep|
                        times@.contains(t) <==> carried_before(s, i as int, t) || among_first(
                            own,
                            c as int,
                            t,
                        ),
                decreases own.len() - c,
            {
                let t = entries[i].1[c];
                enter_time(&mut times, t);
                proof {
                    assert forall|x: TimeStep|
                        times@.contains(x) <==> carried_before(s, i as int, x) || among_first(
                            own,
                            c + 1,
                            x,
                        ) by {
                        if among_first(own, c as int, x) {
                            let q = choose|q: int| 0 <= q < c && #[trigger] own[q] == x;
                            assert(among_first(own, c + 1, x));
                        }
                        if among_first(own, c + 1, x) {
                            let q = choose|q: int| 0 <= q < c + 1 && #[trigger] own[q] == x;
                            if q < c {
                                assert(among_first(own, c as int, x));
                            }
                        }
                        if x == t {
                            assert(own[c as int] == x);
                            assert(among_first(own, c + 1, x));
                        }
                    }
                }
                c += 1;
            }
            proof {
                assert forall|x: TimeStep| times@.contains(x) <==> carried_before(
                    s,
                    i + 1,
                    x,
                ) by {
                    if carried_before(s, i as int, x) {
                        let j = choose|j: int| 0 <= j < i && (#[trigger] s[j]).1.contains(x);
                        assert(carried_before(s, i + 1, x));
                    }
                    if among_first(own, c as int, x) {
                        let q = choose|q: int| 0 <= q < c && #[trigger] own[q] == x;
                        assert(s[i as int].1.contains(x));
                        assert(carried_before(s, i + 1, x));
                    }
                    if carried_before(s, i + 1, x) {
                        let j = choose|j: int| 0 <= j < i + 1 && (#[trigger] s[j]).1.contains(x);
                        if j < i {
                            assert(carried_before(s, i as int, x));
                        } else {
                            let q = choose|q: int| 0 <= q < own.len() && own[q] == x;
                            assert(among_first(own, c as int, x));
                        }
                    }
                }
            }
            i += 1;
        }
        proof {
            assert(s.len() == entries.len());
            assert forall|t: TimeStep|
                times@.contains(t) <==> exists|l: Label| #[trigger]
                    self@.labels.contains(l) && l.2 == t by {
                if carried_before(s, i as int, t) {
                    let j = choose|j: int| 0 <= j < i && (#[trigger] s[j]).1.contains(t);
                    let l = (s[j].0.0, s[j].0.1, t);
                    assert(entry_has(s[j], l));
                    assert(self@.labels.contains(l) && l.2 == t);
                }
                if exists|l: Label| #[trigger] self@.labels.contains(l) && l.2 == t {
                    let l = choose|l: Label| #[trigger] self@.labels.contains(l) && l.2 == t;
                    let j = choose|j: int| 0 <= j < s.len() && entry_has(#[trigger] s[j], l);
                    assert(s[j].1.contains(t));
                    assert(carried_before(s, i as int, t));
                }
            }
        }
        times
    }
}

} // verus!
