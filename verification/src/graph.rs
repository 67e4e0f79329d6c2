//! The course as a directed graph.

use vstd::prelude::*;
use petgraph::graph::{Graph, NodeIndex};
use petgraph::visit::EdgeRef;
use petgraph::Directed;
use crate::data::{buoy_index, find_buoy_index, lemma_buoy_index, lemma_same_names, RegattaData};

verus! {

/// What the course graph records for one directed edge.
#[derive(Debug, Clone, Copy)]
pub struct RegattaEdge {
    /// Length of the edge, in thousandths of a nautical mile.
    pub distance: i64,
    /// Boat speed along the edge; the graph itself carries none, so this is 0.
    pub speed: i64,
    /// Whether the edge is a start line rather than a leg.
    pub is_start: bool,
    /// Whether the edge runs in the direction in which its start line or leg
    /// was entered in the table.
    pub forwards: bool,
    /// Position of the start line or leg in its table.
    pub index: usize,
}

/// `petgraph::graph::Graph`, the adjacency-list graph that holds the course.
/// Nothing inside it is visible here; what it holds is named by
/// [`graph_nodes`] and [`graph_edges`].
#[verifier::external_type_specification]
#[verifier::external_body]
#[verifier::reject_recursive_types(N)]
#[verifier::reject_recursive_types(E)]
#[verifier::reject_recursive_types(Ty)]
#[verifier::reject_recursive_types(Ix)]
pub struct ExGraph<N, E, Ty, Ix>(Graph<N, E, Ty, Ix>);

/// `petgraph::Directed`, the marker of graphs whose edges have a direction.
#[verifier::external_type_specification]
#[verifier::external_body]
pub struct ExDirected(Directed);

/// The node weights of a graph, in the order in which the nodes were added.
pub uninterp spec fn graph_nodes(graph: Graph<Option<String>, RegattaEdge, Directed, u32>) -> Seq<Option<Seq<char>>>;

/// The edges of a graph as (source, target, weight), in the order in which
/// they were added.
pub uninterp spec fn graph_edges(graph: Graph<Option<String>, RegattaEdge, Directed, u32>) -> Seq<(usize, usize, RegattaEdge)>;

/// The characters of an optional string.
pub open spec fn label_view(label: Option<String>) -> Option<Seq<char>> {
    match label {
        Some(text) => Some(text@),
        None => None,
    }
}

/// The edges of `edges` that leave `node`, as (target, weight), the most
/// recently added first.
pub open spec fn departures(edges: Seq<(usize, usize, RegattaEdge)>, node: usize) -> Seq<(usize, RegattaEdge)>
    decreases edges.len(),
{
    if edges.len() == 0 {
        Seq::empty()
    } else {
        let last = edges.last();
        let earlier = departures(edges.drop_last(), node);
        if last.0 == node {
            seq![(last.1, last.2)] + earlier
        } else {
            earlier
        }
    }
}

/// The edges of `edges` that leave `node`, as (target, weight), in the order
/// in which they were added.
pub open spec fn leaving(edges: Seq<(usize, usize, RegattaEdge)>, node: usize) -> Seq<(usize, RegattaEdge)> {
    departures(edges, node).reverse()
}

/// `petgraph::graph::Graph::new`: a directed graph without nodes or edges.
#[verifier::external_body]
fn graph_new() -> (graph: Graph<Option<String>, RegattaEdge>)
    ensures
        graph_nodes(graph) == Seq::<Option<Seq<char>>>::empty(),
        graph_edges(graph) == Seq::<(usize, usize, RegattaEdge)>::empty(),
{
    Graph::new()
}

/// `petgraph::graph::Graph::add_node`: appends a node with the given weight
/// and returns its index, which is the number of nodes before the call. The
/// edges stay as they were. The call panics once the node count has reached
/// `u32::MAX`, which the precondition excludes.
#[verifier::external_body]
fn graph_add_node(graph: &mut Graph<Option<String>, RegattaEdge>, weight: Option<String>) -> (index: usize)
    requires
        graph_nodes(*old(graph)).len() < u32::MAX,
    ensures
        graph_nodes(*final(graph)) == graph_nodes(*old(graph)).push(label_view(weight)),
        graph_edges(*final(graph)) == graph_edges(*old(graph)),
        index == graph_nodes(*old(graph)).len(),
{
    graph.add_node(weight).index()
}

/// `petgraph::graph::Graph::add_edge`: appends an edge from node `a` to node
/// `b`. The nodes stay as they were. The call panics if either node does not
/// exist or once the edge count has reached `u32::MAX`, which the
/// preconditions exclude. `NodeIndex::new` keeps an index below `u32::MAX` as
/// it is.
#[verifier::external_body]
fn graph_add_edge(graph: &mut Graph<Option<String>, RegattaEdge>, a: usize, b: usize, weight: RegattaEdge)
    requires
        a < graph_nodes(*old(graph)).len(),
        b < graph_nodes(*old(graph)).len(),
        graph_nodes(*old(graph)).len() < u32::MAX,
        graph_edges(*old(graph)).len() < u32::MAX,
    ensures
        graph_nodes(*final(graph)) == graph_nodes(*old(graph)),
        graph_edges(*final(graph)) == graph_edges(*old(graph)).push((a, b, weight)),
{
    graph.add_edge(NodeIndex::new(a), NodeIndex::new(b), weight);
}

/// `petgraph::graph::Graph::edges`: the edges that leave node `a`, each as
/// its target (`EdgeRef::target`) and its weight (`EdgeRef::weight`), the
/// most recently added first; none where the node does not exist.
/// `NodeIndex::new` keeps an index up to `u32::MAX` as it is.
#[verifier::external_body]
pub(crate) fn graph_outgoing(graph: &Graph<Option<String>, RegattaEdge>, a: usize) -> (out: Vec<(usize, RegattaEdge)>)
    requires
        a <= u32::MAX,
    ensures
        out@ == departures(graph_edges(*graph), a),
{
    graph.edges(NodeIndex::new(a)).map(|edge| (edge.target().index(), *edge.weight())).collect()
}

/// The edge that the graph holds for the start line at position `index`.
pub open spec fn start_weight(data: RegattaData, index: int) -> RegattaEdge {
    RegattaEdge { distance: data.starts@[index].distance, speed: 0, is_start: true, forwards: true, index: index as usize }
}

/// The edge that the graph holds for one direction of the leg at position
/// `index`.
pub open spec fn rak_weight(data: RegattaData, index: int, forwards: bool) -> RegattaEdge {
    RegattaEdge { distance: data.rakken@[index].distance, speed: 0, is_start: false, forwards, index: index as usize }
}

/// The edges of the first `count` start lines: one edge for each start line
/// whose two names are names of buoys, in table order. A start line that
/// names no buoy has no edge to give; of a course with such a start line no
/// graph is made.
pub open spec fn start_edges(data: RegattaData, count: int) -> Seq<(usize, usize, RegattaEdge)>
    decreases count,
{
    if count <= 0 {
        Seq::empty()
    } else {
        let earlier = start_edges(data, count - 1);
        let start = data.starts@[count - 1];
        match (buoy_index(data.boeien@, start.from@), buoy_index(data.boeien@, start.to@)) {
            (Some(a), Some(b)) => earlier.push((a as usize, b as usize, start_weight(data, count - 1))),
            _ => earlier,
        }
    }
}

/// The edges of the first `count` legs: for each leg whose two names are
/// names of buoys, the edge from its first buoy to its second and then the
/// edge back, in table order. A leg that names no buoy has no edge to give;
/// of a course with such a leg no graph is made.
pub open spec fn rak_edges(data: RegattaData, count: int) -> Seq<(usize, usize, RegattaEdge)>
    decreases count,
{
    if count <= 0 {
        Seq::empty()
    } else {
        let earlier = rak_edges(data, count - 1);
        let rak = data.rakken@[count - 1];
        match (buoy_index(data.boeien@, rak.from@), buoy_index(data.boeien@, rak.to@)) {
            (Some(a), Some(b)) => earlier.push((a as usize, b as usize, rak_weight(data, count - 1, true))).push(
                (b as usize, a as usize, rak_weight(data, count - 1, false)),
            ),
            _ => earlier,
        }
    }
}

/// All edges of the course in the order in which the graph receives them:
/// the start lines, then the legs. Where every start line and leg names two
/// buoys, as a graph that is made requires, that is one edge for each start
/// line and two for each leg.
pub open spec fn route_edges(data: RegattaData) -> Seq<(usize, usize, RegattaEdge)> {
    start_edges(data, data.starts@.len() as int) + rak_edges(data, data.rakken@.len() as int)
}

/// The node weights of the course: the kind of each buoy, in table order.
pub open spec fn route_nodes(data: RegattaData) -> Seq<Option<Seq<char>>> {
    Seq::new(data.boeien@.len(), |i: int| label_view(data.boeien@[i].buoy_type))
}

/// `edge` is what the course holds for a start line or for one direction of a
/// leg: it joins the buoys that the entry names, and carries the entry's
/// position and distance.
pub open spec fn edge_of_course(data: RegattaData, edge: (usize, usize, RegattaEdge)) -> bool {
    let weight = edge.2;
    &&& edge.0 < data.boeien@.len()
    &&& edge.1 < data.boeien@.len()
    &&& weight.speed == 0
    &&& if weight.is_start {
        &&& weight.index < data.starts@.len()
        &&& weight.forwards
        &&& weight.distance == data.starts@[weight.index as int].distance
        &&& buoy_index(data.boeien@, data.starts@[weight.index as int].from@) == Some(edge.0 as int)
        &&& buoy_index(data.boeien@, data.starts@[weight.index as int].to@) == Some(edge.1 as int)
    } else {
        let first = if weight.forwards { edge.0 } else { edge.1 };
        let second = if weight.forwards { edge.1 } else { edge.0 };
        &&& weight.index < data.rakken@.len()
        &&& weight.distance == data.rakken@[weight.index as int].distance
        &&& buoy_index(data.boeien@, data.rakken@[weight.index as int].from@) == Some(first as int)
        &&& buoy_index(data.boeien@, data.rakken@[weight.index as int].to@) == Some(second as int)
    }
}

/// The first `count` start lines give at most `count` edges, each of them an
/// edge of the course.
pub proof fn lemma_start_edges(data: RegattaData, count: int)
    requires
        0 <= count <= data.starts@.len(),
    ensures
        start_edges(data, count).len() <= count,
        forall|i: int| 0 <= i < start_edges(data, count).len() ==> edge_of_course(data, #[trigger] start_edges(data, count)[i]),
    decreases count,
{
    if count > 0 {
        lemma_start_edges(data, count - 1);
        let start = data.starts@[count - 1];
        lemma_buoy_index(data.boeien@, start.from@);
        lemma_buoy_index(data.boeien@, start.to@);
        assert(data.boeien@.len() == data.boeien.len());
        assert(data.starts@.len() == data.starts.len());
        let earlier = start_edges(data, count - 1);
        let all = start_edges(data, count);
        assert forall|i: int| 0 <= i < all.len() implies edge_of_course(data, #[trigger] all[i]) by {
            if i < earlier.len() {
                assert(all[i] == earlier[i]);
            }
        }
    }
}

/// The first `count` legs give at most twice `count` edges, each of them an
/// edge of the course.
pub proof fn lemma_rak_edges(data: RegattaData, count: int)
    requires
        0 <= count <= data.rakken@.len(),
    ensures
        rak_edges(data, count).len() <= 2 * count,
        forall|i: int| 0 <= i < rak_edges(data, count).len() ==> edge_of_course(data, #[trigger] rak_edges(data, count)[i]),
    decreases count,
{
    if count > 0 {
        lemma_rak_edges(data, count - 1);
        let rak = data.rakken@[count - 1];
        lemma_buoy_index(data.boeien@, rak.from@);
        lemma_buoy_index(data.boeien@, rak.to@);
        assert(data.boeien@.len() == data.boeien.len());
        assert(data.rakken@.len() == data.rakken.len());
        let earlier = rak_edges(data, count - 1);
        let all = rak_edges(data, count);
        assert forall|i: int| 0 <= i < all.len() implies edge_of_course(data, #[trigger] all[i]) by {
            if i < earlier.len() {
                assert(all[i] == earlier[i]);
            }
        }
    }
}

/// Every edge of the course joins two buoys and carries the position and the
/// distance of the start line or leg it came from.
pub proof fn lemma_route_edges(data: RegattaData)
    ensures
        route_edges(data).len() <= data.starts@.len() + 2 * data.rakken@.len(),
        forall|i: int| 0 <= i < route_edges(data).len() ==> edge_of_course(data, #[trigger] route_edges(data)[i]),
{
    lemma_start_edges(data, data.starts@.len() as int);
    lemma_rak_edges(data, data.rakken@.len() as int);
}

/// A course of which every start line and leg names two buoys has one edge
/// for each start line and two for each leg.
pub proof fn lemma_route_edges_complete(data: RegattaData)
    requires
        all_named(data),
    ensures
        route_edges(data).len() == data.starts@.len() + 2 * data.rakken@.len(),
{
    lemma_start_edges_complete(data, data.starts@.len() as int);
    lemma_rak_edges_complete(data, data.rakken@.len() as int);
}

/// Every departure from a node is an edge of the graph that leaves that node.
pub proof fn lemma_departure_is_edge(edges: Seq<(usize, usize, RegattaEdge)>, node: usize, k: int) -> (i: int)
    requires
        0 <= k < departures(edges, node).len(),
    ensures
        0 <= i < edges.len(),
        edges[i] == (node, departures(edges, node)[k].0, departures(edges, node)[k].1),
    decreases edges.len(),
{
    let last = edges.last();
    if last.0 == node {
        if k == 0 {
            edges.len() - 1
        } else {
            lemma_departure_is_edge(edges.drop_last(), node, k - 1)
        }
    } else {
        lemma_departure_is_edge(edges.drop_last(), node, k)
    }
}

/// Every edge that leaves a node is an edge of the graph with that node as
/// its source.
pub proof fn lemma_leaving_is_edge(edges: Seq<(usize, usize, RegattaEdge)>, node: usize, k: int) -> (i: int)
    requires
        0 <= k < leaving(edges, node).len(),
    ensures
        0 <= i < edges.len(),
        edges[i] == (node, leaving(edges, node)[k].0, leaving(edges, node)[k].1),
{
    lemma_departure_is_edge(edges, node, departures(edges, node).len() - 1 - k)
}

/// Why a course cannot be laid out as a graph.
#[derive(Debug, Clone, Copy, PartialEq, Eq, Structural)]
pub enum GraphError {
    /// The start line (`is_start`) or leg at position `index` of its table
    /// names a buoy that does not exist.
    UnknownBuoy { is_start: bool, index: usize },
}

/// Whether both names of the start line at position `index` are names of
/// buoys.
pub open spec fn start_named(data: RegattaData, index: int) -> bool {
    buoy_index(data.boeien@, data.starts@[index].from@) is Some && buoy_index(
        data.boeien@,
        data.starts@[index].to@,
    ) is Some
}

/// Whether both names of the leg at position `index` are names of buoys.
pub open spec fn rak_named(data: RegattaData, index: int) -> bool {
    buoy_index(data.boeien@, data.rakken@[index].from@) is Some && buoy_index(
        data.boeien@,
        data.rakken@[index].to@,
    ) is Some
}

/// Whether every start line and every leg names two buoys.
pub open spec fn all_named(data: RegattaData) -> bool {
    &&& forall|i: int| 0 <= i < data.starts@.len() ==> #[trigger] start_named(data, i)
    &&& forall|i: int| 0 <= i < data.rakken@.len() ==> #[trigger] rak_named(data, i)
}

/// Whether `error` tells of the first entry that names a buoy that does not
/// exist: the first such start line, or the first such leg where every start
/// line names two buoys.
pub open spec fn is_first_unknown(data: RegattaData, error: GraphError) -> bool {
    match error {
        GraphError::UnknownBuoy { is_start, index } => if is_start {
            &&& index < data.starts@.len()
            &&& !start_named(data, index as int)
            &&& forall|i: int| 0 <= i < index ==> #[trigger] start_named(data, i)
        } else {
            &&& forall|i: int| 0 <= i < data.starts@.len() ==> #[trigger] start_named(data, i)
            &&& index < data.rakken@.len()
            &&& !rak_named(data, index as int)
            &&& forall|i: int| 0 <= i < index ==> #[trigger] rak_named(data, i)
        },
    }
}

/// Finds the first start line or leg that names a buoy that does not exist,
/// the start lines before the legs.
pub fn find_unknown_buoy(data: &RegattaData) -> (found: Option<GraphError>)
    ensures
        found is None <==> all_named(*data),
        found matches Some(error) ==> is_first_unknown(*data, error),
{
    let mut index: usize = 0;
    while index < data.starts.len()
        invariant
            index <= data.starts@.len(),
            forall|i: int| 0 <= i < index ==> #[trigger] start_named(*data, i),
        decreases data.starts@.len() - index,
    {
        let start = &data.starts[index];
        if find_buoy_index(&data.boeien, &start.from).is_none() || find_buoy_index(&data.boeien, &start.to).is_none() {
            assert(!start_named(*data, index as int));
            return Some(GraphError::UnknownBuoy { is_start: true, index });
        }
        index = index + 1;
    }
    let mut index: usize = 0;
    while index < data.rakken.len()
        invariant
            index <= data.rakken@.len(),
            forall|i: int| 0 <= i < data.starts@.len() ==> #[trigger] start_named(*data, i),
            forall|i: int| 0 <= i < index ==> #[trigger] rak_named(*data, i),
        decreases data.rakken@.len() - index,
    {
        let rak = &data.rakken[index];
        if find_buoy_index(&data.boeien, &rak.from).is_none() || find_buoy_index(&data.boeien, &rak.to).is_none() {
            assert(!rak_named(*data, index as int));
            return Some(GraphError::UnknownBuoy { is_start: false, index });
        }
        index = index + 1;
    }
    None
}

/// Where the first `count` start lines name two buoys each, they give one
/// edge each.
pub proof fn lemma_start_edges_complete(data: RegattaData, count: int)
    requires
        0 <= count <= data.starts@.len(),
        forall|i: int| 0 <= i < count ==> #[trigger] start_named(data, i),
    ensures
        start_edges(data, count).len() == count,
    decreases count,
{
    if count > 0 {
        lemma_start_edges_complete(data, count - 1);
        assert(start_named(data, count - 1));
    }
}

/// Where the first `count` legs name two buoys each, they give two edges
/// each.
pub proof fn lemma_rak_edges_complete(data: RegattaData, count: int)
    requires
        0 <= count <= data.rakken@.len(),
        forall|i: int| 0 <= i < count ==> #[trigger] rak_named(data, i),
    ensures
        rak_edges(data, count).len() == 2 * count,
    decreases count,
{
    if count > 0 {
        lemma_rak_edges_complete(data, count - 1);
        assert(rak_named(data, count - 1));
    }
}

/// The names of the buoys of a course, each at the index of its node.
#[derive(Debug, Clone)]
pub struct NodeIndices {
    pub names: Vec<String>,
}

impl NodeIndices {
    /// The index of the node of the buoy that a name refers to: the last
    /// buoy of that name.
    pub open spec fn index_of(&self, name: Seq<char>) -> Option<int> {
        buoy_index(self.names@, name)
    }

    /// The index of the node of the buoy with the given name.
    pub fn get(&self, name: &str) -> (found: Option<usize>)
        ensures
            found is None <==> self.index_of(name@) is None,
            found matches Some(idx) ==> self.index_of(name@) == Some(idx as int),
    {
        let wanted: String = name.to_owned();
        find_buoy_index(&self.names, &wanted)
    }

    /// Whether a buoy has the given name.
    pub fn contains_key(&self, name: &str) -> (found: bool)
        ensures
            found == self.index_of(name@) is Some,
    {
        self.get(name).is_some()
    }
}

/// A copy of an optional label.
fn copy_label(label: &Option<String>) -> (copy: Option<String>)
    ensures
        label_view(copy) == label_view(*label),
{
    match label {
        Some(text) => Some(text.clone()),
        None => None,
    }
}

/// Lays the course out as a directed graph.
///
/// The nodes are the buoys in table order, each weighted with its kind, so
/// that the index of a node is the index of its buoy. Each start line gives
/// one edge from its first buoy to its second. Each leg gives two edges, one
/// in either direction, which carry the same position.
///
/// A start line or leg that names a buoy that does not exist is an error,
/// and no graph is made; the error tells of the first such entry.
///
/// With the graph come the names of the buoys, by which the index of a node
/// is found.
pub fn build_regatta_graph(data: &RegattaData) -> (built: Result<
    (Graph<Option<String>, RegattaEdge>, NodeIndices),
    GraphError,
>)
    requires
        data.boeien@.len() < u32::MAX,
        data.starts@.len() + 2 * data.rakken@.len() < u32::MAX,
    ensures
        built is Ok <==> all_named(*data),
        built matches Err(error) ==> is_first_unknown(*data, error),
        built matches Ok(made) ==> {
            &&& graph_nodes(made.0) == route_nodes(*data)
            &&& graph_edges(made.0) == route_edges(*data)
            &&& graph_edges(made.0).len() == data.starts@.len() + 2 * data.rakken@.len()
            &&& made.1.names@.len() == data.boeien@.len()
            &&& forall|i: int| 0 <= i < data.boeien@.len() ==> (#[trigger] made.1.names@[i])@ == data.boeien@[i].name@
            &&& forall|name: Seq<char>| #[trigger] made.1.index_of(name) == buoy_index(data.boeien@, name)
        },
{
    match find_unknown_buoy(data) {
        Some(error) => {
            return Err(error);
        },
        None => {},
    }
    let mut graph = graph_new();
    let mut names: Vec<String> = Vec::new();
    let mut node: usize = 0;
    while node < data.boeien.len()
        invariant
            node <= data.boeien@.len() < u32::MAX,
            graph_nodes(graph) == route_nodes(*data).take(node as int),
            graph_edges(graph) == Seq::<(usize, usize, RegattaEdge)>::empty(),
            names@.len() == node,
            forall|i: int| 0 <= i < node ==> (#[trigger] names@[i])@ == data.boeien@[i].name@,
        decreases data.boeien@.len() - node,
    {
        let weight = copy_label(&data.boeien[node].buoy_type);
        graph_add_node(&mut graph, weight);
        names.push(data.boeien[node].name.clone());
        assert(route_nodes(*data).take(node as int).push(label_view(weight)) =~= route_nodes(*data).take(node + 1));
        node = node + 1;
    }
    assert(route_nodes(*data).take(node as int) =~= route_nodes(*data));
    let node_indices = NodeIndices { names };
    proof {
        assert forall|name: Seq<char>| #[trigger] node_indices.index_of(name) == buoy_index(data.boeien@, name) by {
            lemma_same_names(node_indices.names@, data.boeien@, name);
        }
    }

    let mut index: usize = 0;
    while index < data.starts.len()
        invariant
            index <= data.starts@.len(),
            all_named(*data),
            data.boeien@.len() < u32::MAX,
            data.starts@.len() + 2 * data.rakken@.len() < u32::MAX,
            graph_nodes(graph) == route_nodes(*data),
            graph_edges(graph) == start_edges(*data, index as int),
        decreases data.starts@.len() - index,
    {
        let start = &data.starts[index];
        proof {
            lemma_start_edges(*data, index as int);
            lemma_buoy_index(data.boeien@, start.from@);
            lemma_buoy_index(data.boeien@, start.to@);
            assert(start_named(*data, index as int));
        }
        let from_idx = find_buoy_index(&data.boeien, &start.from).unwrap();
        let to_idx = find_buoy_index(&data.boeien, &start.to).unwrap();
        let weight = RegattaEdge { distance: start.distance, speed: 0, is_start: true, forwards: true, index };
        graph_add_edge(&mut graph, from_idx, to_idx, weight);
        index = index + 1;
    }

    let ghost from_starts = start_edges(*data, data.starts@.len() as int);
    proof {
        lemma_start_edges_complete(*data, data.starts@.len() as int);
    }
    let mut index: usize = 0;
    while index < data.rakken.len()
        invariant
            index <= data.rakken@.len(),
            all_named(*data),
            data.boeien@.len() < u32::MAX,
            data.starts@.len() + 2 * data.rakken@.len() < u32::MAX,
            from_starts == start_edges(*data, data.starts@.len() as int),
            from_starts.len() == data.starts@.len(),
            graph_nodes(graph) == route_nodes(*data),
            graph_edges(graph) == from_starts + rak_edges(*data, index as int),
        decreases data.rakken@.len() - index,
    {
        let rak = &data.rakken[index];
        proof {
            lemma_rak_edges(*data, index as int);
            lemma_buoy_index(data.boeien@, rak.from@);
            lemma_buoy_index(data.boeien@, rak.to@);
            assert(rak_named(*data, index as int));
        }
        let from_idx = find_buoy_index(&data.boeien, &rak.from).unwrap();
        let to_idx = find_buoy_index(&data.boeien, &rak.to).unwrap();
        let forward = RegattaEdge { distance: rak.distance, speed: 0, is_start: false, forwards: true, index };
        graph_add_edge(&mut graph, from_idx, to_idx, forward);
        let reverse = RegattaEdge { distance: rak.distance, speed: 0, is_start: false, forwards: false, index };
        graph_add_edge(&mut graph, to_idx, from_idx, reverse);
        assert(graph_edges(graph) =~= from_starts + rak_edges(*data, index + 1));
        index = index + 1;
    }
    proof {
        lemma_rak_edges_complete(*data, data.rakken@.len() as int);
    }
    Ok((graph, node_indices))
}

} // verus!
