//! The text formats of graphs, one graph per line. A temporal graph is
//! written `<vertices> <edges> {u v k t1 .. tk}*`: the number of vertices,
//! the number of edges, and for each edge its endpoints, the number of its
//! timestamps and the timestamps. A multigraph is written
//! `<vertices> <edges> {u v m}*`, with the multiplicity `m` of each edge.
//! Tokens are separated by white space.
use crate::graph::TemporalGraph;
use crate::model::{GraphView, Label, TimeStep, VertexId};
use crate::text::{
    append_unsigned, chars_of, decimal_of, is_space, is_whitespace, parse_signed, parse_unsigned,
    signed_of, texts, tokens, tokens_of, unsigned_of, views, with_number,
};
use itertools::Itertools;
use vstd::prelude::*;
use vstd::string::StringExecFns;

verus! {

/// Why a line is not a graph. A position is the index of a token of the
/// line, counted from 0.
#[derive(Debug, Clone, Copy, PartialEq, Eq, Structural)]
pub enum ParseError {
    /// The line has fewer than two tokens.
    LineTooShort,
    /// The first token is not a number of vertices.
    InvalidVertexCount,
    /// The second token is not a number of edges.
    InvalidEdgeCount,
    /// Fewer than three tokens are left for the edge that begins at
    /// `position`.
    IncompleteEdge { position: usize },
    /// The token at `position` is not a vertex.
    InvalidVertexU { position: usize },
    /// The token at `position` is not a vertex.
    InvalidVertexV { position: usize },
    /// The token at `position` is not a number of timestamps.
    InvalidTimestampCount { position: usize },
    /// The line ends before the timestamps of edge `{u, v}` do.
    NotEnoughTimestamps { u: VertexId, v: VertexId },
    /// The token at `position` is not a timestamp.
    InvalidTimestamp { position: usize },
    /// The token at `position` is not a multiplicity.
    InvalidMultiplicity { position: usize },
}

/// A parse error with the number of the line it occurred in, counted
/// from 1.
#[derive(Debug, Clone, Copy, PartialEq, Eq, Structural)]
pub struct LineError {
    pub line: usize,
    pub error: ParseError,
}

/// The vertices `0` to `n - 1`.
pub open spec fn vertices_below(n: nat) -> Set<VertexId> {
    Set::new(|x: VertexId| x < n)
}

/// The graph after the `k` timestamps that begin at token `at` have been
/// added to edge `{u, v}` of `g`, or the error at the first token that is
/// no timestamp.
pub open spec fn read_times(
    tokens: Seq<Seq<char>>,
    u: VertexId,
    v: VertexId,
    at: int,
    k: nat,
    g: GraphView,
) -> Result<GraphView, ParseError>
    decreases k,
{
    if k == 0 {
        Ok(g)
    } else {
        match signed_of(tokens[at]) {
            None => Err(ParseError::InvalidTimestamp { position: at as usize }),
            Some(t) => read_times(tokens, u, v, at + 1, (k - 1) as nat, g.with_label(u, v, t)),
        }
    }
}

/// The graph after the edges that begin at token `at` have been added to
/// `g`, or the first error.
pub open spec fn read_edges(tokens: Seq<Seq<char>>, at: int, g: GraphView) -> Result<
    GraphView,
    ParseError,
>
    decreases tokens.len() - at,
{
    if at < 0 || at >= tokens.len() {
        Ok(g)
    } else if at + 2 >= tokens.len() {
        Err(ParseError::IncompleteEdge { position: at as usize })
    } else {
        match (unsigned_of(tokens[at]), unsigned_of(tokens[at + 1]), unsigned_of(tokens[at + 2])) {
            (None, _, _) => Err(ParseError::InvalidVertexU { position: at as usize }),
            (Some(_), None, _) => Err(ParseError::InvalidVertexV { position: (at + 1) as usize }),
            (Some(_), Some(_), None) => Err(
                ParseError::InvalidTimestampCount { position: (at + 2) as usize },
            ),
            (Some(u), Some(v), Some(k)) => {
                if at + 2 + k >= tokens.len() {
                    Err(ParseError::NotEnoughTimestamps { u, v })
                } else {
                    match read_times(tokens, u, v, at + 3, k as nat, g) {
                        Err(e) => Err(e),
                        Ok(next) => read_edges(tokens, at + 3 + k, next),
                    }
                }
            },
        }
    }
}

/// The temporal graph that the tokens of a line write, or the first error.
/// The graph has the vertices `0` to `n - 1` for the vertex count `n`, and
/// the endpoints of its edges. The edge count is read and not used.
pub open spec fn temporal_graph_of(tokens: Seq<Seq<char>>) -> Result<GraphView, ParseError> {
    if tokens.len() < 2 {
        Err(ParseError::LineTooShort)
    } else {
        match (unsigned_of(tokens[0]), unsigned_of(tokens[1])) {
            (None, _) => Err(ParseError::InvalidVertexCount),
            (Some(_), None) => Err(ParseError::InvalidEdgeCount),
            (Some(n), Some(_)) => read_edges(
                tokens,
                2,
                GraphView { vertices: vertices_below(n as nat), labels: Set::empty() },
            ),
        }
    }
}

/// Adds the `k` timestamps that begin at token `at` to edge `{u, v}`.
fn add_times(
    graph: &mut TemporalGraph,
    parts: &Vec<Vec<char>>,
    u: VertexId,
    v: VertexId,
    at: usize,
    k: usize,
) -> (done: Result<(), ParseError>)
    requires
        old(graph).wf(),
        at + k <= parts.len(),
    ensures
        final(graph).wf(),
        match done {
            Ok(_) => read_times(views(parts@), u, v, at as int, k as nat, old(graph)@) == Ok::<
                GraphView,
                ParseError,
            >(final(graph)@),
            Err(e) => read_times(views(parts@), u, v, at as int, k as nat, old(graph)@) == Err::<
                GraphView,
                ParseError,
            >(e),
        },
{
    let mut i: usize = 0;
    while i < k
        invariant
            graph.wf(),
            i <= k,
            at + k <= parts.len(),
            read_times(views(parts@), u, v, at as int, k as nat, old(graph)@) == read_times(
                views(parts@),
                u,
                v,
                at + i,
                (k - i) as nat,
                graph@,
            ),
        decreases k - i,
    {
        assert(views(parts@)[at + i] == parts[at + i]@);
        match parse_signed(&parts[at + i]) {
            Some(t) => {
                graph.add_edge(u, v, t);
            },
            None => {
                return Err(ParseError::InvalidTimestamp { position: at + i });
            },
        }
        i += 1;
    }
    Ok(())
}

/// Reads a temporal graph from one line of text.
pub fn parse_temporal_graph_line(line: &str) -> (parsed: Result<TemporalGraph, ParseError>)
    ensures
        match parsed {
            Ok(graph) => graph.wf() && temporal_graph_of(tokens_of(line@)) == Ok::<
                GraphView,
                ParseError,
            >(graph@),
            Err(e) => temporal_graph_of(tokens_of(line@)) == Err::<GraphView, ParseError>(e),
        },
{
    let chars = chars_of(line);
    let parts = tokens(&chars);
    let ghost toks = views(parts@);
    if parts.len() < 2 {
        return Err(ParseError::LineTooShort);
    }
    assert(toks[0] == parts[0]@ && toks[1] == parts[1]@);
    let num_vertices = match parse_unsigned(&parts[0]) {
        Some(n) => n,
        None => {
            return Err(ParseError::InvalidVertexCount);
        },
    };
    if parse_unsigned(&parts[1]).is_none() {
        return Err(ParseError::InvalidEdgeCount);
    }
    let mut graph = TemporalGraph::new();
    let mut vertex: usize = 0;
    while vertex < num_vertices
        invariant
            graph.wf(),
            vertex <= num_vertices,
            graph@.vertices == vertices_below(vertex as nat),
            graph@.labels == Set::<Label>::empty(),
        decreases num_vertices - vertex,
    {
        graph.add_vertex(vertex);
        proof {
            assert(graph@.vertices =~= vertices_below((vertex + 1) as nat));
        }
        vertex += 1;
    }
    let ghost first = graph@;
    let mut at: usize = 2;
    while at < parts.len()
        invariant
            graph.wf(),
            toks == views(parts@),
            2 <= at,
            temporal_graph_of(tokens_of(line@)) == read_edges(toks, 2, first),
            read_edges(toks, 2, first) == read_edges(toks, at as int, graph@),
        decreases parts.len() - at,
    {
        if parts.len() - at <= 2 {
            return Err(ParseError::IncompleteEdge { position: at });
        }
        assert(toks[at as int] == parts[at as int]@ && toks[at + 1] == parts[at + 1]@ && toks[at
            + 2] == parts[at + 2]@);
        let u = match parse_unsigned(&parts[at]) {
            Some(u) => u,
            None => {
                return Err(ParseError::InvalidVertexU { position: at });
            },
        };
        let v = match parse_unsigned(&parts[at + 1]) {
            Some(v) => v,
            None => {
                return Err(ParseError::InvalidVertexV { position: at + 1 });
            },
        };
        let k = match parse_unsigned(&parts[at + 2]) {
            Some(k) => k,
            None => {
                return Err(ParseError::InvalidTimestampCount { position: at + 2 });
            },
        };
        if k >= parts.len() - at - 2 {
            return Err(ParseError::NotEnoughTimestamps { u, v });
        }
        match add_times(&mut graph, &parts, u, v, at + 3, k) {
            Ok(_) => {},
            Err(e) => {
                return Err(e);
            },
        }
        at = at + 3 + k;
    }
    Ok(graph)
}

/// One edge of a multigraph: its endpoints and its multiplicity.
pub type MultiEdge = (VertexId, VertexId, usize);

/// One line of multigraph text: the number of vertices and the edges with
/// their multiplicities, in the order of the line.
#[derive(Debug, Clone)]
pub struct MultigraphLine {
    pub num_vertices: usize,
    pub edges: Vec<MultiEdge>,
}

/// The edges that begin at token `at`, after `found`, or the first error.
/// Fewer than three tokens at the end of the line are passed over.
pub open spec fn read_multi_edges(tokens: Seq<Seq<char>>, at: int, found: Seq<MultiEdge>) -> Result<
    Seq<MultiEdge>,
    ParseError,
>
    decreases tokens.len() - at,
{
    if at < 0 || at + 2 >= tokens.len() {
        Ok(found)
    } else {
        match (unsigned_of(tokens[at]), unsigned_of(tokens[at + 1]), unsigned_of(tokens[at + 2])) {
            (None, _, _) => Err(ParseError::InvalidVertexU { position: at as usize }),
            (Some(_), None, _) => Err(ParseError::InvalidVertexV { position: (at + 1) as usize }),
            (Some(_), Some(_), None) => Err(
                ParseError::InvalidMultiplicity { position: (at + 2) as usize },
            ),
            (Some(u), Some(v), Some(m)) => read_multi_edges(tokens, at + 3, found.push((u, v, m))),
        }
    }
}

/// The multigraph that the tokens of a line write: the vertex count and the
/// edges, or the first error. The second token is not read.
pub open spec fn multigraph_of(tokens: Seq<Seq<char>>) -> Result<
    (usize, Seq<MultiEdge>),
    ParseError,
> {
    if tokens.len() < 2 {
        Err(ParseError::LineTooShort)
    } else {
        match unsigned_of(tokens[0]) {
            None => Err(ParseError::InvalidVertexCount),
            Some(n) => match read_multi_edges(tokens, 2, Seq::empty()) {
                Err(e) => Err(e),
                Ok(edges) => Ok((n, edges)),
            },
        }
    }
}

/// The sum of the multiplicities of `edges`.
pub open spec fn total_multiplicity(edges: Seq<MultiEdge>) -> nat
    decreases edges.len(),
{
    if edges.len() == 0 {
        0
    } else {
        total_multiplicity(edges.drop_last()) + edges.last().2 as nat
    }
}

/// The text ` t1 t2 .. tk` of the timestamps `times`: each with a blank
/// before it.
pub open spec fn times_text(times: Seq<TimeStep>) -> Seq<char>
    decreases times.len(),
{
    if times.len() == 0 {
        Seq::empty()
    } else {
        times_text(times.drop_last()) + seq![' '] + decimal_of(times.last() as int)
    }
}

/// The text ` u v m t1 .. tm` of edge `e` with the timestamps `times`.
pub open spec fn edge_text(e: MultiEdge, times: Seq<TimeStep>) -> Seq<char> {
    seq![' '] + decimal_of(e.0 as int) + seq![' '] + decimal_of(e.1 as int) + seq![' ']
        + decimal_of(e.2 as int) + times_text(times)
}

/// The text of every edge of `edges` in turn, where the timestamps of an
/// edge are the next `m` of `timestamps` that the edges before it have
/// left, `m` being its multiplicity.
pub open spec fn edges_text(edges: Seq<MultiEdge>, timestamps: Seq<TimeStep>) -> Seq<char>
    decreases edges.len(),
{
    if edges.len() == 0 {
        Seq::empty()
    } else {
        let before = edges.drop_last();
        let e = edges.last();
        let from = total_multiplicity(before) as int;
        edges_text(before, timestamps) + edge_text(e, timestamps.subrange(from, from + e.2))
    }
}

/// The line of temporal-graph text that gives the edges of a multigraph
/// the timestamps `timestamps`, in their order.
pub open spec fn temporal_line_text(
    num_vertices: usize,
    edges: Seq<MultiEdge>,
    timestamps: Seq<TimeStep>,
) -> Seq<char> {
    decimal_of(num_vertices as int) + seq![' '] + decimal_of(total_multiplicity(edges) as int)
        + edges_text(edges, timestamps)
}

impl MultigraphLine {
    /// Reads a multigraph from one line of text.
    pub fn parse(line: &str) -> (parsed: Result<MultigraphLine, ParseError>)
        ensures
            match parsed {
                Ok(multigraph) => multigraph_of(tokens_of(line@)) == Ok::<
                    (usize, Seq<MultiEdge>),
                    ParseError,
                >((multigraph.num_vertices, multigraph.edges@)),
                Err(e) => multigraph_of(tokens_of(line@)) == Err::<
                    (usize, Seq<MultiEdge>),
                    ParseError,
                >(e),
            },
    {
        let chars = chars_of(line);
        let parts = tokens(&chars);
        let ghost toks = views(parts@);
        if parts.len() < 2 {
            return Err(ParseError::LineTooShort);
        }
        assert(toks[0] == parts[0]@);
        let num_vertices = match parse_unsigned(&parts[0]) {
            Some(n) => n,
            None => {
                return Err(ParseError::InvalidVertexCount);
            },
        };
        let mut edges: Vec<MultiEdge> = Vec::new();
        let mut at: usize = 2;
        while parts.len() - at > 2
            invariant
                toks == views(parts@),
                toks == tokens_of(line@),
                2 <= at <= parts.len(),
                unsigned_of(toks[0]) == Some(num_vertices),
                toks.len() >= 2,
                read_multi_edges(toks, 2, Seq::empty()) == read_multi_edges(
                    toks,
                    at as int,
                    edges@,
                ),
            decreases parts.len() - at,
        {
            assert(toks[at as int] == parts[at as int]@ && toks[at + 1] == parts[at + 1]@
                && toks[at + 2] == parts[at + 2]@);
            let u = match parse_unsigned(&parts[at]) {
                Some(u) => u,
                None => {
                    return Err(ParseError::InvalidVertexU { position: at });
                },
            };
            let v = match parse_unsigned(&parts[at + 1]) {
                Some(v) => v,
                None => {
                    return Err(ParseError::InvalidVertexV { position: at + 1 });
                },
            };
            let multiplicity = match parse_unsigned(&parts[at + 2]) {
                Some(m) => m,
                None => {
                    return Err(ParseError::InvalidMultiplicity { position: at + 2 });
                },
            };
            edges.push((u, v, multiplicity));
            at += 3;
        }
        Ok(MultigraphLine { num_vertices, edges })
    }

    /// The sum of the multiplicities of the edges, or `None` where it does
    /// not fit `usize`.
    pub fn total_edges(&self) -> (total: Option<usize>)
        ensures
            total == if total_multiplicity(self.edges@) <= usize::MAX {
                Some(total_multiplicity(self.edges@) as usize)
            } else {
                None
            },
    {
        let mut total: usize = 0;
        let mut i: usize = 0;
        proof {
            assert(self.edges@.take(0) =~= Seq::<MultiEdge>::empty());
        }
        while i < self.edges.len()
            invariant
                i <= self.edges.len(),
                total == total_multiplicity(self.edges@.take(i as int)),
            decreases self.edges.len() - i,
        {
            let multiplicity = self.edges[i].2;
            proof {
                assert(self.edges@.take(i + 1).drop_last() =~= self.edges@.take(i as int));
                lemma_total_of_prefix(self.edges@, i + 1);
            }
            if multiplicity > usize::MAX - total {
                return None;
            }
            total = total + multiplicity;
            i += 1;
        }
        proof {
            assert(self.edges@.take(i as int) =~= self.edges@);
        }
        Some(total)
    }

    /// The line of temporal-graph text that gives the edges, in their
    /// order, the timestamps `timestamps`, in theirs: the vertex count, the
    /// sum of the multiplicities, and for each edge its endpoints, its
    /// multiplicity and as many timestamps.
    pub fn to_temporal_graph(&self, timestamps: &[TimeStep]) -> (text: String)
        requires
            total_multiplicity(self.edges@) <= timestamps@.len(),
        ensures
            text@ == temporal_line_text(self.num_vertices, self.edges@, timestamps@),
    {
        let available = timestamps.len();
        let total = self.total_edges().unwrap();
        let mut text = String::new();
        append_unsigned(&mut text, self.num_vertices);
        text.push(' ');
        append_unsigned(&mut text, total);
        let ghost head = text@;
        let mut next: usize = 0;
        let mut i: usize = 0;
        proof {
            assert(self.edges@.take(0) =~= Seq::<MultiEdge>::empty());
            assert(text@ =~= head + edges_text(self.edges@.take(0), timestamps@));
        }
        while i < self.edges.len()
            invariant
                i <= self.edges.len(),
                available == timestamps@.len(),
                total_multiplicity(self.edges@) <= available,
                next == total_multiplicity(self.edges@.take(i as int)),
                text@ == head + edges_text(self.edges@.take(i as int), timestamps@),
            decreases self.edges.len() - i,
        {
            let edge = self.edges[i];
            let ghost before = text@;
            let ghost done = edges_text(self.edges@.take(i as int), timestamps@);
            proof {
                assert(self.edges@.take(i + 1).drop_last() =~= self.edges@.take(i as int));
                assert(self.edges@.take(i + 1).last() == edge);
                lemma_total_of_prefix(self.edges@, i + 1);
            }
            append_edge(&mut text, edge, timestamps, next);
            proof {
                let own = edge_text(edge, timestamps@.subrange(next as int, next + edge.2));
                assert(edges_text(self.edges@.take(i + 1), timestamps@) == done + own);
                assert(text@ =~= head + (done + own));
            }
            next = next + edge.2;
            i += 1;
        }
        proof {
            assert(self.edges@.take(i as int) =~= self.edges@);
        }
        text
    }
}

/// Appends the text of edge `edge` with the timestamps that begin at
/// `from`.
fn append_edge(text: &mut String, edge: MultiEdge, timestamps: &[TimeStep], from: usize)
    requires
        from + edge.2 <= timestamps@.len(),
    ensures
        final(text)@ == old(text)@ + edge_text(
            edge,
            timestamps@.subrange(from as int, from + edge.2),
        ),
{
    let available = timestamps.len();
    text.push(' ');
    append_unsigned(text, edge.0);
    text.push(' ');
    append_unsigned(text, edge.1);
    text.push(' ');
    append_unsigned(text, edge.2);
    let ghost opened = text@;
    let ghost own = timestamps@.subrange(from as int, from + edge.2);
    let mut c: usize = 0;
    proof {
        assert(own.take(0) =~= Seq::<TimeStep>::empty());
        assert(text@ =~= opened + times_text(own.take(0)));
    }
    while c < edge.2
        invariant
            c <= edge.2,
            available == timestamps@.len(),
            from + edge.2 <= available,
            own == timestamps@.subrange(from as int, from + edge.2),
            text@ == opened + times_text(own.take(c as int)),
        decreases edge.2 - c,
    {
        let t = timestamps[from + c];
        let ghost written = times_text(own.take(c as int));
        text.push(' ');
        crate::text::append_signed(text, t);
        proof {
            assert(own.take(c + 1).drop_last() =~= own.take(c as int));
            assert(own.take(c + 1).last() == t);
            assert(times_text(own.take(c + 1)) == written + seq![' '] + decimal_of(t as int));
            assert(text@ =~= opened + (written + seq![' '] + decimal_of(t as int)));
        }
        c += 1;
    }
    proof {
        assert(own.take(c as int) =~= own);
        assert(text@ =~= old(text)@ + edge_text(edge, own));
    }
}

/// The multiplicities of the first edges sum to at most the sum of all.
pub proof fn lemma_total_of_prefix(edges: Seq<MultiEdge>, k: int)
    requires
        0 <= k <= edges.len(),
    ensures
        total_multiplicity(edges.take(k)) <= total_multiplicity(edges),
    decreases edges.len() - k,
{
    if k < edges.len() {
        lemma_total_of_prefix(edges.drop_last(), k);
        assert(edges.drop_last().take(k) =~= edges.take(k));
    } else {
        assert(edges.take(k) =~= edges);
    }
}

/// The timestamp sequences that the vectors hold.
pub open spec fn time_views(items: Seq<Vec<TimeStep>>) -> Seq<Seq<TimeStep>> {
    items.map_values(|item: Vec<TimeStep>| item@)
}

/// The `k`-permutations of `items` in the order in which
/// `Itertools::permutations` yields them.
pub uninterp spec fn permutations_of(items: Seq<TimeStep>, k: nat) -> Seq<Seq<TimeStep>>;

/// All `k`-permutations of `items`, by `Itertools::permutations`. The
/// contract names what the iterator yields and states that every
/// permutation has length `k`; that they are permutations of `items`, and
/// all of them, is not stated.
#[verifier::external_body]
fn permutations(items: &Vec<TimeStep>, k: usize) -> (all: Vec<Vec<TimeStep>>)
    ensures
        time_views(all@) == permutations_of(items@, k as nat),
        forall|i: int| 0 <= i < all.len() ==> (#[trigger] all[i])@.len() == k,
{
    items.iter().copied().permutations(k).collect()
}

/// The timestamps `1` to `total` in ascending order; none where `total`
/// does not fit a timestamp.
pub fn timestamps_up_to(total: usize) -> (stamps: Vec<TimeStep>)
    ensures
        stamps@ == Seq::new(
            if total <= i64::MAX {
                total as nat
            } else {
                0
            },
            |i: int| (i + 1) as TimeStep,
        ),
{
    let mut stamps: Vec<TimeStep> = Vec::new();
    if total as u64 > 0x7fff_ffff_ffff_ffff {
        assert(stamps@ =~= Seq::new(0, |i: int| (i + 1) as TimeStep));
        return stamps;
    }
    let last = total as i64;
    let mut t: i64 = 0;
    while t < last
        invariant
            0 <= t <= last,
            stamps@ == Seq::new(t as nat, |i: int| (i + 1) as TimeStep),
        decreases last - t,
    {
        t += 1;
        stamps.push(t);
        assert(stamps@ =~= Seq::new(t as nat, |i: int| (i + 1) as TimeStep));
    }
    stamps
}

impl MultigraphLine {
    /// One line of temporal-graph text for each of `assignments`: the line
    /// that gives the edges the timestamps of the assignment.
    pub fn lines_for(&self, assignments: &Vec<Vec<TimeStep>>) -> (lines: Vec<String>)
        requires
            forall|i: int|
                0 <= i < assignments.len() ==> total_multiplicity(self.edges@) <= (
                #[trigger] assignments[i])@.len(),
        ensures
            lines.len() == assignments.len(),
            forall|i: int|
                0 <= i < lines.len() ==> (#[trigger] lines[i])@ == temporal_line_text(
                    self.num_vertices,
                    self.edges@,
                    assignments[i]@,
                ),
    {
        let mut lines: Vec<String> = Vec::new();
        let mut i: usize = 0;
        while i < assignments.len()
            invariant
                i <= assignments.len(),
                lines.len() == i,
                forall|j: int|
                    0 <= j < assignments.len() ==> total_multiplicity(self.edges@) <= (
                    #[trigger] assignments[j])@.len(),
                forall|j: int|
                    0 <= j < i ==> (#[trigger] lines[j])@ == temporal_line_text(
                        self.num_vertices,
                        self.edges@,
                        assignments[j]@,
                    ),
            decreases assignments.len() - i,
        {
            let line = self.to_temporal_graph(assignments[i].as_slice());
            lines.push(line);
            i += 1;
        }
        lines
    }

    /// The lines of temporal-graph text for every `k`-permutation of
    /// `timestamps`, in the order of the permutations.
    pub fn temporal_lines(&self, timestamps: &Vec<TimeStep>, k: usize) -> (lines: Vec<String>)
        requires
            total_multiplicity(self.edges@) <= k,
        ensures
            lines.len() == permutations_of(timestamps@, k as nat).len(),
            forall|i: int|
                0 <= i < lines.len() ==> (#[trigger] lines[i])@ == temporal_line_text(
                    self.num_vertices,
                    self.edges@,
                    permutations_of(timestamps@, k as nat)[i],
                ),
    {
        let all = permutations(timestamps, k);
        proof {
            assert forall|i: int| 0 <= i < all.len() implies time_views(all@)[i] == all[i]@ by {}
        }
        self.lines_for(&all)
    }
}

/// Whether a line is blank: it holds white space only.
pub open spec fn is_blank(s: Seq<char>) -> bool {
    forall|i: int| 0 <= i < s.len() ==> is_space(#[trigger] s[i])
}

/// Whether `line` is blank.
pub fn is_blank_line(line: &str) -> (blank: bool)
    ensures
        blank == is_blank(line@),
{
    let chars = chars_of(line);
    let mut i: usize = 0;
    while i < chars.len()
        invariant
            i <= chars.len(),
            chars@ == line@,
            forall|j: int| 0 <= j < i ==> is_space(#[trigger] chars[j]),
        decreases chars.len() - i,
    {
        if !is_whitespace(chars[i]) {
            return false;
        }
        i += 1;
    }
    true
}

/// The graphs of the first `upto` lines, one for each line that is not
/// blank, or the first error with the number of its line.
pub open spec fn graphs_of(lines: Seq<Seq<char>>, upto: int) -> Result<Seq<GraphView>, LineError>
    decreases upto,
{
    if upto <= 0 {
        Ok(Seq::empty())
    } else {
        match graphs_of(lines, upto - 1) {
            Err(e) => Err(e),
            Ok(graphs) => if is_blank(lines[upto - 1]) {
                Ok(graphs)
            } else {
                match temporal_graph_of(tokens_of(lines[upto - 1])) {
                    Err(error) => Err(LineError { line: upto as usize, error }),
                    Ok(graph) => Ok(graphs.push(graph)),
                }
            },
        }
    }
}

/// An error in the first `k` lines is the error of every longer prefix.
pub proof fn lemma_error_stays(lines: Seq<Seq<char>>, k: int, upto: int)
    requires
        k <= upto,
        graphs_of(lines, k) is Err,
    ensures
        graphs_of(lines, upto) == graphs_of(lines, k),
    decreases upto - k,
{
    if k < upto {
        lemma_error_stays(lines, k, upto - 1);
    }
}

/// The models of the graphs.
pub open spec fn graph_views(graphs: Seq<TemporalGraph>) -> Seq<GraphView> {
    graphs.map_values(|graph: TemporalGraph| graph@)
}

/// Reads the temporal graphs of a text, one from each line that is not
/// blank. Stops at the first line that is not a graph.
pub fn parse_temporal_graphs(lines: &Vec<String>) -> (parsed: Result<Vec<TemporalGraph>, LineError>)
    ensures
        match parsed {
            Ok(graphs) => graphs_of(texts(lines@), lines.len() as int) == Ok::<
                Seq<GraphView>,
                LineError,
            >(graph_views(graphs@)) && forall|i: int|
                0 <= i < graphs.len() ==> (#[trigger] graphs[i]).wf(),
            Err(e) => graphs_of(texts(lines@), lines.len() as int) == Err::<
                Seq<GraphView>,
                LineError,
            >(e),
        },
{
    let mut graphs: Vec<TemporalGraph> = Vec::new();
    let mut i: usize = 0;
    proof {
        assert(graph_views(graphs@) =~= Seq::<GraphView>::empty());
    }
    while i < lines.len()
        invariant
            i <= lines.len(),
            graphs_of(texts(lines@), i as int) == Ok::<Seq<GraphView>, LineError>(
                graph_views(graphs@),
            ),
            forall|j: int| 0 <= j < graphs.len() ==> (#[trigger] graphs[j]).wf(),
        decreases lines.len() - i,
    {
        assert(texts(lines@)[i as int] == lines[i as int]@);
        let line = lines[i].as_str();
        if !is_blank_line(line) {
            match parse_temporal_graph_line(line) {
                Ok(graph) => {
                    proof {
                        assert(graph_views(graphs@.push(graph)) =~= graph_views(graphs@).push(
                            graph@,
                        ));
                    }
                    graphs.push(graph);
                },
                Err(error) => {
                    proof {
                        lemma_error_stays(texts(lines@), i + 1, lines.len() as int);
                    }
                    return Err(LineError { line: i + 1, error });
                },
            }
        }
        i += 1;
    }
    Ok(graphs)
}

/// Why no temporal graphs can be generated from a text of multigraphs.
#[derive(Debug, Clone, Copy, PartialEq, Eq, Structural)]
pub enum GenerateError {
    /// The text has no line that is not blank, or its first such line is
    /// no multigraph.
    NoValidMultigraphs,
    /// The first multigraph has edges of multiplicity 0 only, or none.
    NoEdges,
    /// The multiplicities of the first multigraph do not sum to a `usize`.
    TooManyEdges,
}

/// The position of the first line that is not blank, if there is one.
pub open spec fn first_filled(lines: Seq<Seq<char>>) -> Option<int> {
    if exists|i: int| 0 <= i < lines.len() && !is_blank(#[trigger] lines[i]) {
        let i = choose|i: int|
            0 <= i < lines.len() && !is_blank(#[trigger] lines[i]) && forall|j: int|
                0 <= j < i ==> is_blank(#[trigger] lines[j]);
        Some(i)
    } else {
        None
    }
}

/// The number of timestamps that every generated graph gets: the sum of
/// the multiplicities of the multigraph on the first line that is not
/// blank.
pub open spec fn timestamp_count_of(lines: Seq<Seq<char>>) -> Result<usize, GenerateError> {
    match first_filled(lines) {
        None => Err(GenerateError::NoValidMultigraphs),
        Some(i) => match multigraph_of(tokens_of(lines[i])) {
            Err(_) => Err(GenerateError::NoValidMultigraphs),
            Ok(multigraph) => {
                let total = total_multiplicity(multigraph.1);
                if total > usize::MAX {
                    Err(GenerateError::TooManyEdges)
                } else if total == 0 {
                    Err(GenerateError::NoEdges)
                } else {
                    Ok(total as usize)
                }
            },
        },
    }
}

/// The number of timestamps for the graphs generated from `lines`.
pub fn timestamp_count(lines: &Vec<String>) -> (count: Result<usize, GenerateError>)
    ensures
        count == timestamp_count_of(texts(lines@)),
{
    let ghost all = texts(lines@);
    let mut i: usize = 0;
    while i < lines.len()
        invariant
            i <= lines.len(),
            all == texts(lines@),
            forall|j: int| 0 <= j < i ==> is_blank(#[trigger] all[j]),
        decreases lines.len() - i,
    {
        assert(all[i as int] == lines[i as int]@);
        let line = lines[i].as_str();
        if !is_blank_line(line) {
            proof {
                let first = choose|k: int|
                    0 <= k < all.len() && !is_blank(#[trigger] all[k]) && forall|j: int|
                        0 <= j < k ==> is_blank(#[trigger] all[j]);
                assert(first == i) by {
                    if first < i {
                        assert(is_blank(all[first]));
                    }
                    if i < first {
                        assert(is_blank(all[i as int]));
                    }
                }
            }
            return match MultigraphLine::parse(line) {
                Err(_) => Err(GenerateError::NoValidMultigraphs),
                Ok(multigraph) => match multigraph.total_edges() {
                    None => Err(GenerateError::TooManyEdges),
                    Some(total) => if total == 0 {
                        Err(GenerateError::NoEdges)
                    } else {
                        Ok(total)
                    },
                },
            };
        }
        i += 1;
    }
    Err(GenerateError::NoValidMultigraphs)
}

/// Why multigraphs cannot be generated for the parameters given.
#[derive(Debug, Clone, Copy, PartialEq, Eq, Structural)]
pub enum ParameterError {
    /// The number of vertices is 0.
    NoVertices,
    /// The number of edges with multiplicity, `total`, is below the number
    /// of edges without, `base`.
    TotalBelowBase { total: usize, base: usize },
    /// A simple graph on `vertices` vertices has at most `maximum` edges,
    /// fewer than `base`.
    TooManyBaseEdges { base: usize, maximum: usize, vertices: usize },
}

/// The number of edges of the complete graph on `n` vertices.
pub open spec fn max_simple_edges(n: nat) -> nat {
    (n * (n - 1) / 2) as nat
}

/// Checks the parameters of a generation of multigraphs: `n` vertices, `m`
/// edges without and `big_m` edges with multiplicity.
pub fn check_multigraph_parameters(n: usize, m: usize, big_m: usize) -> (checked: Result<
    (),
    ParameterError,
>)
    ensures
        checked == if n == 0 {
            Err::<(), ParameterError>(ParameterError::NoVertices)
        } else if big_m < m {
            Err(ParameterError::TotalBelowBase { total: big_m, base: m })
        } else if m > max_simple_edges(n as nat) {
            Err(
                ParameterError::TooManyBaseEdges {
                    base: m,
                    maximum: max_simple_edges(n as nat) as usize,
                    vertices: n,
                },
            )
        } else {
            Ok(())
        },
{
    if n == 0 {
        return Err(ParameterError::NoVertices);
    }
    if big_m < m {
        return Err(ParameterError::TotalBelowBase { total: big_m, base: m });
    }
    let wide: u128 = n as u128;
    assert(wide * (wide - 1) <= 0xffff_ffff_ffff_ffff * 0xffff_ffff_ffff_ffff) by (nonlinear_arith)
        requires
            1 <= wide <= 0xffff_ffff_ffff_ffff,
    ;
    let maximum: u128 = wide * (wide - 1) / 2;
    if m as u128 > maximum {
        return Err(
            ParameterError::TooManyBaseEdges { base: m, maximum: maximum as usize, vertices: n },
        );
    }
    Ok(())
}

impl ParseError {
    /// The message of the error.
    pub open spec fn text(self) -> Seq<char> {
        match self {
            ParseError::LineTooShort => "Line too short"@,
            ParseError::InvalidVertexCount => "Invalid number of vertices"@,
            ParseError::InvalidEdgeCount => "Invalid number of edges"@,
            ParseError::IncompleteEdge { position } => "Incomplete edge data at position "@
                + decimal_of(position as int),
            ParseError::InvalidVertexU { position } => "Invalid vertex u at position "@
                + decimal_of(position as int),
            ParseError::InvalidVertexV { position } => "Invalid vertex v at position "@
                + decimal_of(position as int),
            ParseError::InvalidTimestampCount { position } =>
                "Invalid timestamp count at position "@ + decimal_of(position as int),
            ParseError::NotEnoughTimestamps { u, v } => "Not enough timestamps for edge ("@
                + decimal_of(u as int) + ", "@ + decimal_of(v as int) + ")"@,
            ParseError::InvalidTimestamp { position } => "Invalid timestamp at position "@
                + decimal_of(position as int),
            ParseError::InvalidMultiplicity { position } => "Invalid multiplicity at position "@
                + decimal_of(position as int),
        }
    }

    /// The message of the error.
    pub fn message(&self) -> (text: String)
        ensures
            text@ == self.text(),
    {
        match *self {
            ParseError::LineTooShort => String::from_str("Line too short"),
            ParseError::InvalidVertexCount => String::from_str("Invalid number of vertices"),
            ParseError::InvalidEdgeCount => String::from_str("Invalid number of edges"),
            ParseError::IncompleteEdge { position } => with_number(
                "Incomplete edge data at position ",
                position,
            ),
            ParseError::InvalidVertexU { position } => with_number(
                "Invalid vertex u at position ",
                position,
            ),
            ParseError::InvalidVertexV { position } => with_number(
                "Invalid vertex v at position ",
                position,
            ),
            ParseError::InvalidTimestampCount { position } => with_number(
                "Invalid timestamp count at position ",
                position,
            ),
            ParseError::NotEnoughTimestamps { u, v } => {
                let mut text = with_number("Not enough timestamps for edge (", u);
                text.append(", ");
                append_unsigned(&mut text, v);
                text.append(")");
                text
            },
            ParseError::InvalidTimestamp { position } => with_number(
                "Invalid timestamp at position ",
                position,
            ),
            ParseError::InvalidMultiplicity { position } => with_number(
                "Invalid multiplicity at position ",
                position,
            ),
        }
    }
}

impl LineError {
    /// The message of the error: the line number, then the message of the
    /// parse error.
    pub open spec fn text(self) -> Seq<char> {
        "Line "@ + decimal_of(self.line as int) + ": "@ + self.error.text()
    }

    /// The message of the error.
    pub fn message(&self) -> (text: String)
        ensures
            text@ == self.text(),
    {
        let mut text = with_number("Line ", self.line);
        text.append(": ");
        let detail = self.error.message();
        text.append(detail.as_str());
        text
    }
}

impl GenerateError {
    /// The message of the error.
    pub open spec fn text(self) -> Seq<char> {
        match self {
            GenerateError::NoValidMultigraphs => "No valid multigraphs in input file"@,
            GenerateError::NoEdges => "Multigraphs have no edges"@,
            GenerateError::TooManyEdges => "Multigraphs have too many edges"@,
        }
    }

    /// The message of the error.
    pub fn message(&self) -> (text: String)
        ensures
            text@ == self.text(),
    {
        match *self {
            GenerateError::NoValidMultigraphs => String::from_str(
                "No valid multigraphs in input file",
            ),
            GenerateError::NoEdges => String::from_str("Multigraphs have no edges"),
            GenerateError::TooManyEdges => String::from_str("Multigraphs have too many edges"),
        }
    }
}

impl ParameterError {
    /// The message of the error.
    pub open spec fn text(self) -> Seq<char> {
        match self {
            ParameterError::NoVertices => "Number of vertices must be positive"@,
            ParameterError::TotalBelowBase { total, base } => "Total edges M="@ + decimal_of(
                total as int,
            ) + " must be >= base edges m="@ + decimal_of(base as int),
            ParameterError::TooManyBaseEdges { base, maximum, vertices } => "Base edges m="@
                + decimal_of(base as int) + " exceeds maximum "@ + decimal_of(maximum as int)
                + " for "@ + decimal_of(vertices as int) + " vertices"@,
        }
    }

    /// The message of the error.
    pub fn message(&self) -> (text: String)
        ensures
            text@ == self.text(),
    {
        match *self {
            ParameterError::NoVertices => String::from_str("Number of vertices must be positive"),
            ParameterError::TotalBelowBase { total, base } => {
                let mut text = with_number("Total edges M=", total);
                text.append(" must be >= base edges m=");
                append_unsigned(&mut text, base);
                text
            },
            ParameterError::TooManyBaseEdges { base, maximum, vertices } => {
                let mut text = with_number("Base edges m=", base);
                text.append(" exceeds maximum ");
                append_unsigned(&mut text, maximum);
                text.append(" for ");
                append_unsigned(&mut text, vertices);
                text.append(" vertices");
                text
            },
        }
    }
}

} // verus!
