//! Control-flow graphs as petgraph keeps them, and what its algorithms say of
//! them.
//!
//! A graph is a [`StableGraph`] whose nodes and edges are known by number.  Its
//! contents are named by [`graph_edges`], [`graph_out`] and [`graph_in`], and the
//! numbers of what is put in next by [`graph_numbers`] and [`graph_edge_numbers`];
//! a [`Flow`] gathers them.  The wrappers below each make one call into petgraph
//! and state what that call does to the contents or reads from them.

use fixedbitset::FixedBitSet;
use petgraph::algo::dominators::Dominators;
use petgraph::graph::{EdgeIndex, NodeIndex};
use petgraph::stable_graph::StableGraph;
use petgraph::visit::{DfsEvent, DfsPostOrder, EdgeRef, NodeIndexable, Reversed, Walker};
use petgraph::{Directed, Direction};
use vstd::prelude::*;

use crate::lists::{lemma_appended, lemma_filter};
use crate::search::search_events;

verus! {

/// petgraph's graph with stable indices.
#[verifier::external_type_specification]
#[verifier::external_body]
#[verifier::reject_recursive_types(N)]
#[verifier::reject_recursive_types(E)]
#[verifier::reject_recursive_types(Ty)]
#[verifier::reject_recursive_types(Ix)]
pub struct ExStableGraph<N, E, Ty, Ix>(StableGraph<N, E, Ty, Ix>);

/// petgraph's marker for directed graphs.
#[verifier::external_type_specification]
#[verifier::external_body]
pub struct ExDirected(Directed);

/// petgraph's node numbers.
#[verifier::external_type_specification]
#[verifier::external_body]
#[verifier::reject_recursive_types(Ix)]
pub struct ExNodeIndex<Ix>(NodeIndex<Ix>);

/// petgraph's dominance relation.
#[verifier::external_type_specification]
#[verifier::external_body]
#[verifier::reject_recursive_types(N)]
pub struct ExDominators<N>(Dominators<N>) where N: Copy + Eq + std::hash::Hash;

/// petgraph's walk in postorder.
#[verifier::external_type_specification]
#[verifier::external_body]
#[verifier::reject_recursive_types(N)]
#[verifier::reject_recursive_types(VM)]
pub struct ExDfsPostOrder<N, VM>(DfsPostOrder<N, VM>);

/// The set in which petgraph's walks note the nodes that they have seen.
#[verifier::external_type_specification]
#[verifier::external_body]
pub struct ExFixedBitSet(FixedBitSet);

/// Under which condition an edge is taken.
#[derive(Clone, Copy, Debug, PartialEq, Eq, Structural)]
pub enum BranchType {
    Unconditional,
    Then,
    Else,
}

/// What an edge between two blocks carries.
#[derive(Clone, Copy, Debug, PartialEq, Eq, Structural)]
pub struct BlockEdge {
    pub branch_type: BranchType,
}

impl BlockEdge {
    pub fn new(branch_type: BranchType) -> (edge: Self)
        ensures
            edge == (BlockEdge { branch_type }),
    {
        BlockEdge { branch_type }
    }
}

impl Default for BlockEdge {
    fn default() -> (edge: Self)
        ensures
            edge == (BlockEdge { branch_type: BranchType::Unconditional }),
    {
        BlockEdge { branch_type: BranchType::Unconditional }
    }
}

/// The graph of a function.
pub type FlowGraph = StableGraph<(), BlockEdge, Directed, u32>;

/// Which nodes every path to a node passes through.
pub type Dominance = Dominators<NodeIndex<u32>>;

/// A walk over a graph that hands out each node after what can be reached from
/// it.
pub type PostOrder = DfsPostOrder<NodeIndex<u32>, FixedBitSet>;

/// One edge.
pub struct Link {
    pub source: u32,
    pub target: u32,
    pub weight: BlockEdge,
}

/// What a depth-first search comes upon.
#[derive(Clone, Copy, Debug, PartialEq, Eq, Structural)]
pub enum SearchEvent {
    /// A node, for the first time.
    Discover(u32),
    /// An edge to a node that had not been seen.
    TreeEdge(u32, u32),
    /// An edge to a node that it is still on the way from.
    BackEdge(u32, u32),
    /// An edge to a node that it is done with.
    CrossForwardEdge(u32, u32),
    /// A node that it is done with.
    Finish(u32),
}

/// Where a walk stands after a step, and what it handed out.
pub struct WalkStep {
    pub stack: Seq<u32>,
    pub discovered: Set<u32>,
    pub finished: Set<u32>,
    pub node: Option<u32>,
}

/// The contents of a graph.
#[verifier::ext_equal]
pub struct Flow {
    /// The edges by their numbers.
    pub edges: Map<u32, Link>,
    /// For each node, the numbers of the edges that leave it, newest first.
    pub out: Map<u32, Seq<u32>>,
    /// For each node, the numbers of the edges that arrive at it, newest first.
    pub ins: Map<u32, Seq<u32>>,
    /// The numbers that new nodes get, one after another.
    pub numbers: Seq<u32>,
    /// The numbers that new edges get, one after another.
    pub edge_numbers: Seq<u32>,
}

/// The edges that a graph holds, by their numbers: source, target and weight.
pub uninterp spec fn graph_edges(graph: FlowGraph) -> Map<u32, (u32, u32, BlockEdge)>;

/// The nodes that a graph holds, each with the edges that leave it in the order
/// in which petgraph walks them.
pub uninterp spec fn graph_out(graph: FlowGraph) -> Map<u32, Seq<u32>>;

/// The numbers that new nodes get in a graph, one after another, if no node is taken
/// out: those of nodes that have been, the last one first, and then those that no
/// node has had yet, in ascending order.
pub uninterp spec fn graph_numbers(graph: FlowGraph) -> Seq<u32>;

/// The same for edges.
pub uninterp spec fn graph_edge_numbers(graph: FlowGraph) -> Seq<u32>;

/// The nodes that a graph holds, each with the edges that arrive at it in the order
/// in which petgraph walks them.
pub uninterp spec fn graph_in(graph: FlowGraph) -> Map<u32, Seq<u32>>;

/// The nodes that a dominance relation knows, each with its dominators in the
/// order in which petgraph walks them.
pub uninterp spec fn dominator_chains(dominance: Dominance) -> Map<u32, Seq<u32>>;

/// The nodes that a walk has still to look at, the next one last.
pub uninterp spec fn walk_stack(walk: PostOrder) -> Seq<u32>;

/// The nodes that a walk has looked at.
pub uninterp spec fn walk_discovered(walk: PostOrder) -> Set<u32>;

/// The nodes that a walk has handed out.
pub uninterp spec fn walk_finished(walk: PostOrder) -> Set<u32>;

/// The number below which a walk can note nodes.
pub uninterp spec fn walk_capacity(walk: PostOrder) -> nat;

/// The contents of a graph, gathered.
pub open spec fn flow(graph: FlowGraph) -> Flow {
    Flow {
        edges: graph_edges(graph).map_values(
            |edge: (u32, u32, BlockEdge)|
                Link { source: edge.0, target: edge.1, weight: edge.2 },
        ),
        out: graph_out(graph),
        ins: graph_in(graph),
        numbers: graph_numbers(graph),
        edge_numbers: graph_edge_numbers(graph),
    }
}

/// All numbers that a node or an edge can have.
pub open spec fn all_numbers() -> Seq<u32> {
    Seq::new(u32::MAX as nat, |i: int| i as u32)
}

/// The nodes that have not been seen.
pub open spec fn unseen(seen: Set<u32>) -> Set<u32> {
    Set::new(|n: u32| !seen.contains(n))
}

/// There are only so many numbers.
pub proof fn lemma_unseen(seen: Set<u32>, node: u32)
    ensures
        unseen(seen).finite(),
        !seen.contains(node) ==> unseen(seen.insert(node)).len() < unseen(seen).len(),
{
    let all = Set::<u32>::range(0, u32::MAX).insert(u32::MAX);
    vstd::set_lib::range_set_properties::<u32>(0, u32::MAX);
    assert(unseen(seen).subset_of(all));
    vstd::set_lib::lemma_set_subset_finite(all, unseen(seen));
    if !seen.contains(node) {
        assert(unseen(seen.insert(node)) =~= unseen(seen).remove(node));
    }
}

/// Those of the list that have not been seen.
pub open spec fn not_seen(list: Seq<u32>, seen: Set<u32>) -> Seq<u32> {
    list.filter(|n: u32| !seen.contains(n))
}

/// The successors of a node; none where there is no such node.
pub open spec fn listed(successors: Map<u32, Seq<u32>>, node: u32) -> Seq<u32> {
    if successors.contains_key(node) {
        successors[node]
    } else {
        Seq::empty()
    }
}

/// One step of a walk in postorder: the last node of the stack is looked at, and
/// those of its successors that have not been looked at are put behind it, until
/// the last has been looked at before.  That one is handed out, unless it has been.
pub open spec fn walk_step(
    stack: Seq<u32>,
    discovered: Set<u32>,
    finished: Set<u32>,
    successors: Map<u32, Seq<u32>>,
) -> WalkStep
    decreases unseen(discovered).len(), stack.len(),
{
    let node = stack.last();
    if stack.len() == 0 {
        WalkStep { stack, discovered, finished, node: None }
    } else if !discovered.contains(node) {
        proof {
            lemma_unseen(discovered, node);
        }
        let seen = discovered.insert(node);
        walk_step(stack + not_seen(listed(successors, node), seen), seen, finished, successors)
    } else if !finished.contains(node) {
        WalkStep {
            stack: stack.drop_last(),
            discovered,
            finished: finished.insert(node),
            node: Some(node),
        }
    } else {
        walk_step(stack.drop_last(), discovered, finished, successors)
    }
}

impl Flow {
    pub open spec fn empty() -> Flow {
        Flow {
            edges: Map::empty(),
            out: Map::empty(),
            ins: Map::empty(),
            numbers: all_numbers(),
            edge_numbers: all_numbers(),
        }
    }

    pub open spec fn has(self, node: u32) -> bool {
        self.out.contains_key(node)
    }

    /// Edges run between nodes, and each node lists the edges that leave it.
    pub open spec fn wf(self) -> bool {
        &&& self.out.dom().finite()
        &&& self.edges.dom().finite()
        &&& forall|e: u32| #[trigger]
            self.edges.contains_key(e) ==> self.has(self.edges[e].source) && self.has(
                self.edges[e].target,
            )
        &&& forall|n: u32| #[trigger] self.has(n) ==> self.out[n].no_duplicates()
        &&& forall|n: u32, e: u32|
            self.has(n) ==> (#[trigger] self.out[n].contains(e) <==> self.edges.contains_key(e)
                && self.edges[e].source == n)
        &&& self.numbers.len() + self.out.dom().len() == u32::MAX
        &&& self.numbers.no_duplicates()
        &&& forall|i: int| 0 <= i < self.numbers.len() ==> !self.has(#[trigger] self.numbers[i])
        &&& self.lists_arrivals()
        &&& self.counts_edges()
    }

    /// Each node lists the edges that arrive at it.
    pub open spec fn lists_arrivals(self) -> bool {
        &&& self.ins.dom() == self.out.dom()
        &&& forall|n: u32| #[trigger] self.has(n) ==> self.ins[n].no_duplicates()
        &&& forall|n: u32, e: u32|
            self.has(n) ==> (#[trigger] self.ins[n].contains(e) <==> self.edges.contains_key(e)
                && self.edges[e].target == n)
    }

    /// The numbers that edges do not have are there for others.
    pub open spec fn counts_edges(self) -> bool {
        &&& self.edge_numbers.len() + self.edges.dom().len() == u32::MAX
        &&& self.edge_numbers.no_duplicates()
        &&& forall|i: int|
            0 <= i < self.edge_numbers.len() ==> !self.edges.contains_key(
                #[trigger] self.edge_numbers[i],
            )
    }

    /// The edges that leave `node`; none where there is no such node.
    pub open spec fn out_edges(self, node: u32) -> Seq<u32> {
        if self.has(node) {
            self.out[node]
        } else {
            Seq::empty()
        }
    }

    /// The nodes that the edges out of `node` lead to, edge by edge.
    pub open spec fn successors(self, node: u32) -> Seq<u32> {
        self.out_edges(node).map_values(|e: u32| self.edges[e].target)
    }

    /// The successors of every node.
    pub open spec fn successor_lists(self) -> Map<u32, Seq<u32>> {
        Map::new(|n: u32| self.has(n), |n: u32| self.successors(n))
    }

    /// The edges that arrive at `node`.
    pub open spec fn incoming(self, node: u32) -> Set<u32> {
        Set::new(|e: u32| self.edges.contains_key(e) && self.edges[e].target == node)
    }

    /// Some edge arrives at `node`.
    pub open spec fn arrives(self, node: u32) -> bool {
        exists|e: u32| #[trigger] self.edges.contains_key(e) && self.edges[e].target == node
    }

    /// Some edge runs from `a` to `b`.
    pub open spec fn leads(self, a: u32, b: u32) -> bool {
        exists|e: u32| #[trigger]
            self.edges.contains_key(e) && self.edges[e].source == a && self.edges[e].target == b
    }

    pub open spec fn is_path(self, path: Seq<u32>, from: u32, to: u32) -> bool {
        &&& path.len() > 0
        &&& path.first() == from
        &&& path.last() == to
        &&& forall|i: int|
            0 <= i < path.len() - 1 ==> self.leads(#[trigger] path[i], path[i + 1])
    }

    pub open spec fn reaches(self, from: u32, to: u32) -> bool {
        exists|path: Seq<u32>| self.is_path(path, from, to)
    }

    /// Every path from `root` to `node` passes through `other`.
    pub open spec fn dominates(self, root: u32, other: u32, node: u32) -> bool {
        forall|path: Seq<u32>| #[trigger]
            self.is_path(path, root, node) ==> path.contains(other)
    }

    /// Every path from `node` to `exit` passes through `other`.
    pub open spec fn post_dominates(self, exit: u32, other: u32, node: u32) -> bool {
        forall|path: Seq<u32>| #[trigger]
            self.is_path(path, node, exit) ==> path.contains(other)
    }

    /// `node` lies on a closed path.
    pub open spec fn on_cycle(self, node: u32) -> bool {
        exists|before: u32| #[trigger] self.leads(before, node) && self.reaches(node, before)
    }

    /// `node` is no larger than the largest node: what petgraph's searches can
    /// note.
    pub open spec fn below_bound(self, node: u32) -> bool {
        exists|n: u32| node <= n && #[trigger] self.has(n)
    }

    pub open spec fn with_node(self, node: u32) -> Flow {
        Flow {
            out: self.out.insert(node, Seq::empty()),
            ins: self.ins.insert(node, Seq::empty()),
            numbers: self.numbers.skip(1),
            ..self
        }
    }

    /// The number that the next node gets.
    pub open spec fn next_number(self) -> u32 {
        self.numbers[0]
    }

    /// The number that the next edge gets.
    pub open spec fn next_edge_number(self) -> u32 {
        self.edge_numbers[0]
    }

    /// The edges that arrive at `node`, newest first; none where there is no such
    /// node.
    pub open spec fn in_edges(self, node: u32) -> Seq<u32> {
        if self.has(node) {
            self.ins[node]
        } else {
            Seq::empty()
        }
    }

    /// The edges that leave `node` or arrive at it, in the order in which they go
    /// when it does.
    pub open spec fn gone_with(self, node: u32) -> Seq<u32> {
        self.out_edges(node) + self.in_edges(node).filter(|e: u32| self.edges[e].source != node)
    }

    /// Without `node` and the edges that leave it or arrive at it.
    pub open spec fn without_node(self, node: u32) -> Flow {
        Flow {
            edges: Map::new(
                |e: u32|
                    self.edges.contains_key(e) && self.edges[e].source != node
                        && self.edges[e].target != node,
                |e: u32| self.edges[e],
            ),
            out: Map::new(
                |n: u32| self.has(n) && n != node,
                |n: u32| self.out[n].filter(|e: u32| self.edges[e].target != node),
            ),
            ins: Map::new(
                |n: u32| self.has(n) && n != node,
                |n: u32| self.ins[n].filter(|e: u32| self.edges[e].source != node),
            ),
            numbers: if self.has(node) {
                seq![node] + self.numbers
            } else {
                self.numbers
            },
            edge_numbers: self.gone_with(node).reverse() + self.edge_numbers,
        }
    }

    pub open spec fn with_edge(self, e: u32, link: Link) -> Flow {
        Flow {
            edges: self.edges.insert(e, link),
            out: self.out.insert(link.source, seq![e] + self.out[link.source]),
            ins: self.ins.insert(link.target, seq![e] + self.ins[link.target]),
            edge_numbers: self.edge_numbers.skip(1),
            ..self
        }
    }

    pub open spec fn without_edge(self, e: u32) -> Flow {
        let source = self.edges[e].source;
        let target = self.edges[e].target;
        Flow {
            edges: self.edges.remove(e),
            out: self.out.insert(source, self.out[source].filter(other_than(e))),
            ins: self.ins.insert(target, self.ins[target].filter(other_than(e))),
            edge_numbers: seq![e] + self.edge_numbers,
            ..self
        }
    }
}

/// Picks out what is not `e`.
pub open spec fn other_than(e: u32) -> spec_fn(u32) -> bool {
    |other: u32| other != e
}

/// The numbers in `list` are those of which `holds`, ascending.
pub open spec fn ascending(list: Seq<u32>, holds: Set<u32>) -> bool {
    &&& forall|i: int, j: int| 0 <= i < j < list.len() ==> list[i] < list[j]
    &&& forall|x: u32| #[trigger] list.contains(x) <==> holds.contains(x)
}

/// `StableGraph::default`: the graph without nodes.
#[verifier::external_body]
pub(crate) fn empty_graph() -> (graph: FlowGraph)
    ensures
        graph_edges(graph).dom() == Set::<u32>::empty(),
        graph_out(graph).dom() == Set::<u32>::empty(),
        graph_in(graph).dom() == Set::<u32>::empty(),
        graph_numbers(graph) == all_numbers(),
        graph_edge_numbers(graph) == all_numbers(),
{
    FlowGraph::default()
}

/// `StableGraph::clone` copies the nodes, the edges, the order in which each node
/// lists its edges, and the numbers that are free.
#[verifier::external_body]
pub(crate) fn clone_graph(graph: &FlowGraph) -> (copy: FlowGraph)
    ensures
        flow(copy) == flow(*graph),
{
    graph.clone()
}

/// `StableGraph::node_count` counts the nodes.
#[verifier::external_body]
pub(crate) fn node_count(graph: &FlowGraph) -> (count: usize)
    ensures
        count == flow(*graph).out.dom().len(),
{
    graph.node_count()
}

/// `StableGraph::edge_count` counts the edges.
#[verifier::external_body]
pub(crate) fn edge_count(graph: &FlowGraph) -> (count: usize)
    ensures
        count == flow(*graph).edges.dom().len(),
{
    graph.edge_count()
}

/// `StableGraph::contains_node` tells whether there is such a node.
#[verifier::external_body]
pub(crate) fn contains_node(graph: &FlowGraph, node: u32) -> (found: bool)
    ensures
        found == flow(*graph).has(node),
{
    graph.contains_node(NodeIndex::from(node))
}

/// `StableGraph::node_bound` is one more than the largest node.
#[verifier::external_body]
pub(crate) fn node_bound(graph: &FlowGraph) -> (bound: usize)
    ensures
        bound <= u32::MAX,
        forall|n: u32| n < bound <==> #[trigger] flow(*graph).below_bound(n),
{
    graph.node_bound()
}

/// `StableGraph::node_indices` walks the nodes in ascending order.
#[verifier::external_body]
pub(crate) fn node_indices(graph: &FlowGraph) -> (nodes: Vec<u32>)
    ensures
        ascending(nodes@, flow(*graph).out.dom()),
{
    graph.node_indices().map(|node| node.index() as u32).collect()
}

/// `StableGraph::edge_indices` walks the edges in ascending order.
#[verifier::external_body]
pub(crate) fn edge_indices(graph: &FlowGraph) -> (edges: Vec<u32>)
    ensures
        ascending(edges@, flow(*graph).edges.dom()),
{
    graph.edge_indices().map(|edge| edge.index() as u32).collect()
}

/// `StableGraph::edge_endpoints` gives the source and the target of an edge, and
/// nothing where there is no such edge.
#[verifier::external_body]
pub(crate) fn edge_endpoints(graph: &FlowGraph, e: u32) -> (ends: Option<(u32, u32)>)
    ensures
        ends == if flow(*graph).edges.contains_key(e) {
            Some((flow(*graph).edges[e].source, flow(*graph).edges[e].target))
        } else {
            None
        },
{
    graph.edge_endpoints(EdgeIndex::from(e)).map(|(a, b)| (a.index() as u32, b.index() as u32))
}

/// `StableGraph::edge_weight` gives what an edge carries, and nothing where
/// there is no such edge.
#[verifier::external_body]
pub(crate) fn edge_weight(graph: &FlowGraph, e: u32) -> (weight: Option<BlockEdge>)
    ensures
        weight == if flow(*graph).edges.contains_key(e) {
            Some(flow(*graph).edges[e].weight)
        } else {
            None
        },
{
    graph.edge_weight(EdgeIndex::from(e)).copied()
}

/// `StableGraph::edges` walks the edges that leave a node, newest first, and
/// none where there is no such node.
#[verifier::external_body]
pub(crate) fn out_edges(graph: &FlowGraph, node: u32) -> (edges: Vec<u32>)
    ensures
        edges@ == flow(*graph).out_edges(node),
{
    graph.edges(NodeIndex::from(node)).map(|edge| edge.id().index() as u32).collect()
}

/// `StableGraph::edges_directed` walks the edges that arrive at a node, newest
/// first, and none where there is no such node.
#[verifier::external_body]
pub(crate) fn in_edges(graph: &FlowGraph, node: u32) -> (edges: Vec<u32>)
    ensures
        edges@ == flow(*graph).in_edges(node),
{
    let found = graph.edges_directed(NodeIndex::from(node), Direction::Incoming);
    found.map(|edge| edge.id().index() as u32).collect()
}

/// `StableGraph::add_node` adds a node without edges under the number of the node
/// that was taken out last and has not been replaced, or else under the least that no
/// node has had.  It panics where no number is left.
#[verifier::external_body]
pub(crate) fn add_node(graph: &mut FlowGraph) -> (node: u32)
    requires
        flow(*old(graph)).out.dom().finite(),
        flow(*old(graph)).out.dom().len() < u32::MAX,
    ensures
        node == flow(*old(graph)).next_number(),
        !flow(*old(graph)).has(node),
        flow(*final(graph)) == flow(*old(graph)).with_node(node),
{
    graph.add_node(()).index() as u32
}

/// `StableGraph::remove_node` takes out a node with its edges, and tells whether
/// there was such a node.  The next node that is added gets its number.  The edges
/// that leave it go first, then those that arrive at it, and the last of them is the
/// first whose number is used again.
#[verifier::external_body]
pub(crate) fn remove_node(graph: &mut FlowGraph, node: u32) -> (found: bool)
    ensures
        found == flow(*old(graph)).has(node),
        flow(*final(graph)) == if found {
            flow(*old(graph)).without_node(node)
        } else {
            flow(*old(graph))
        },
{
    graph.remove_node(NodeIndex::from(node)).is_some()
}

/// `StableGraph::add_edge` adds an edge, in front of those that leave its source
/// and of those that arrive at its target, under the number of the edge that was
/// taken out last and has not been replaced, or else under the least that no edge has
/// had.  It panics where an end is missing or no number is left.
#[verifier::external_body]
pub(crate) fn add_edge(graph: &mut FlowGraph, source: u32, target: u32, weight: BlockEdge) -> (e:
    u32)
    requires
        flow(*old(graph)).has(source),
        flow(*old(graph)).has(target),
        flow(*old(graph)).edges.dom().finite(),
        flow(*old(graph)).edges.dom().len() < u32::MAX,
    ensures
        e == flow(*old(graph)).next_edge_number(),
        !flow(*old(graph)).edges.contains_key(e),
        flow(*final(graph)) == flow(*old(graph)).with_edge(e, Link { source, target, weight }),
{
    graph.add_edge(NodeIndex::from(source), NodeIndex::from(target), weight).index() as u32
}

/// `StableGraph::remove_edge` takes out an edge and gives back what it carried.  The
/// next edge that is added gets its number.
#[verifier::external_body]
pub(crate) fn remove_edge(graph: &mut FlowGraph, e: u32) -> (weight: Option<BlockEdge>)
    ensures
        weight == if flow(*old(graph)).edges.contains_key(e) {
            Some(flow(*old(graph)).edges[e].weight)
        } else {
            None
        },
        flow(*final(graph)) == if flow(*old(graph)).edges.contains_key(e) {
            flow(*old(graph)).without_edge(e)
        } else {
            flow(*old(graph))
        },
{
    graph.remove_edge(EdgeIndex::from(e))
}

/// `Dfs`, run to its end: the nodes that can be reached from `start`, each once.
/// It panics where `start` is beyond the largest node.
#[verifier::external_body]
pub(crate) fn depth_first(graph: &FlowGraph, start: u32) -> (nodes: Vec<u32>)
    requires
        flow(*graph).below_bound(start),
    ensures
        nodes@.no_duplicates(),
        forall|n: u32| #[trigger]
            nodes@.contains(n) <==> flow(*graph).reaches(start, n),
{
    let walk = petgraph::visit::Dfs::new(graph, NodeIndex::from(start));
    walk.iter(graph).map(|node| node.index() as u32).collect()
}

/// `depth_first_search` from `start`, with what it tells in the order in which it
/// tells it, which [`search_events`] states.  It panics where `start` is beyond the
/// largest node.
#[verifier::external_body]
pub(crate) fn depth_first_search(graph: &FlowGraph, start: u32) -> (events: Vec<SearchEvent>)
    requires
        flow(*graph).below_bound(start),
    ensures
        events@ == search_events(flow(*graph).successor_lists(), start),
{
    let mut events = Vec::new();
    petgraph::visit::depth_first_search(graph, Some(NodeIndex::from(start)), |event| {
        events.push(match event {
            DfsEvent::Discover(n, _) => SearchEvent::Discover(n.index() as u32),
            DfsEvent::TreeEdge(a, b) => SearchEvent::TreeEdge(a.index() as u32, b.index() as u32),
            DfsEvent::BackEdge(a, b) => SearchEvent::BackEdge(a.index() as u32, b.index() as u32),
            DfsEvent::CrossForwardEdge(a, b) =>
                SearchEvent::CrossForwardEdge(a.index() as u32, b.index() as u32),
            DfsEvent::Finish(n, _) => SearchEvent::Finish(n.index() as u32),
        })
    });
    events
}

/// `simple_fast` finds the dominators of the nodes that can be reached from
/// `root`, for each node the node itself first, then its nearest dominator, and
/// so on up to `root`.  It panics where `root` is beyond the largest node.
#[verifier::external_body]
pub(crate) fn dominators(graph: &FlowGraph, root: u32) -> (dominance: Dominance)
    requires
        flow(*graph).below_bound(root),
    ensures
        forall|n: u32| #[trigger]
            dominator_chains(dominance).contains_key(n) <==> flow(*graph).reaches(root, n),
        forall|n: u32, other: u32|
            dominator_chains(dominance).contains_key(n) ==> (#[trigger] dominator_chains(
                dominance,
            )[n].contains(other) <==> flow(*graph).dominates(root, other, n)),
        forall|n: u32| #[trigger]
            dominator_chains(dominance).contains_key(n) ==> dominator_chains(
                dominance,
            )[n].no_duplicates() && dominator_chains(dominance)[n].len() > 0
                && dominator_chains(dominance)[n][0] == n,
        forall|n: u32, i: int, j: int|
            dominator_chains(dominance).contains_key(n) && 0 <= i < j < dominator_chains(
                dominance,
            )[n].len() ==> flow(*graph).dominates(
                root,
                #[trigger] dominator_chains(dominance)[n][j],
                #[trigger] dominator_chains(dominance)[n][i],
            ),
{
    petgraph::algo::dominators::simple_fast(graph, NodeIndex::from(root))
}

/// `simple_fast` on a graph seen through `Reversed` finds the dominators
/// against the direction of the edges, of the nodes that reach `root`, for each
/// node the node itself first, then its nearest dominator, and so on up to
/// `root`.  It panics where `root` is beyond the largest node.
#[verifier::external_body]
pub(crate) fn reversed_dominators(graph: &FlowGraph, root: u32) -> (dominance: Dominance)
    requires
        flow(*graph).below_bound(root),
    ensures
        forall|n: u32| #[trigger]
            dominator_chains(dominance).contains_key(n) <==> flow(*graph).reaches(n, root),
        forall|n: u32, other: u32|
            dominator_chains(dominance).contains_key(n) ==> (#[trigger] dominator_chains(
                dominance,
            )[n].contains(other) <==> flow(*graph).post_dominates(root, other, n)),
        forall|n: u32| #[trigger]
            dominator_chains(dominance).contains_key(n) ==> dominator_chains(
                dominance,
            )[n].no_duplicates() && dominator_chains(dominance)[n].len() > 0
                && dominator_chains(dominance)[n][0] == n,
        forall|n: u32, i: int, j: int|
            dominator_chains(dominance).contains_key(n) && 0 <= i < j < dominator_chains(
                dominance,
            )[n].len() ==> flow(*graph).post_dominates(
                root,
                #[trigger] dominator_chains(dominance)[n][j],
                #[trigger] dominator_chains(dominance)[n][i],
            ),
{
    petgraph::algo::dominators::simple_fast(Reversed(graph), NodeIndex::from(root))
}

/// `Dominators::dominators` walks the dominators of a node, the node itself
/// among them, and gives nothing for a node that the relation does not know.
#[verifier::external_body]
pub(crate) fn dominators_of(dominance: &Dominance, node: u32) -> (chain: Option<Vec<u32>>)
    ensures
        match chain {
            Some(list) => dominator_chains(*dominance).contains_key(node) && list@
                == dominator_chains(*dominance)[node],
            None => !dominator_chains(*dominance).contains_key(node),
        },
{
    let chain = dominance.dominators(NodeIndex::from(node));
    chain.map(|list| list.map(|other| other.index() as u32).collect())
}

/// `DfsPostOrder::new` starts a walk with one node to look at, which can note
/// the nodes up to the largest that the graph has now.
#[verifier::external_body]
pub(crate) fn start_walk(graph: &FlowGraph, start: u32) -> (walk: PostOrder)
    ensures
        walk_stack(walk) == seq![start],
        walk_discovered(walk) == Set::<u32>::empty(),
        walk_finished(walk) == Set::<u32>::empty(),
        walk_capacity(walk) <= u32::MAX,
        forall|n: u32| n < walk_capacity(walk) <==> #[trigger] flow(*graph).below_bound(n),
{
    DfsPostOrder::new(graph, NodeIndex::from(start))
}

/// `FixedBitSet::grow` lets a walk note nodes up to a larger one, and leaves what it
/// has noted as it is.
#[verifier::external_body]
pub(crate) fn grow_walk(walk: &mut PostOrder, bound: usize)
    ensures
        walk_stack(*final(walk)) == walk_stack(*old(walk)),
        walk_discovered(*final(walk)) == walk_discovered(*old(walk)),
        walk_finished(*final(walk)) == walk_finished(*old(walk)),
        walk_capacity(*final(walk)) == if bound > walk_capacity(*old(walk)) {
            bound as nat
        } else {
            walk_capacity(*old(walk))
        },
{
    walk.discovered.grow(bound);
    walk.finished.grow(bound);
}

/// `FixedBitSet::contains` tells whether a walk has looked at a node.
#[verifier::external_body]
pub(crate) fn is_discovered(walk: &PostOrder, node: u32) -> (found: bool)
    ensures
        found == walk_discovered(*walk).contains(node),
{
    walk.discovered.contains(node as usize)
}

/// `DfsPostOrder::next` goes one step, which [`walk_step`] states.  It panics on a
/// node that it cannot note.
#[verifier::external_body]
pub(crate) fn next_in_walk(graph: &FlowGraph, walk: &mut PostOrder) -> (node: Option<u32>)
    requires
        forall|n: u32| #[trigger] flow(*graph).arrives(n) ==> n < walk_capacity(*old(walk)),
        forall|n: u32| #[trigger]
            walk_stack(*old(walk)).contains(n) ==> n < walk_capacity(*old(walk)),
    ensures
        walk_step(
            walk_stack(*old(walk)),
            walk_discovered(*old(walk)),
            walk_finished(*old(walk)),
            flow(*graph).successor_lists(),
        ) == (WalkStep {
            stack: walk_stack(*final(walk)),
            discovered: walk_discovered(*final(walk)),
            finished: walk_finished(*final(walk)),
            node,
        }),
        walk_capacity(*final(walk)) == walk_capacity(*old(walk)),
{
    walk.next(graph).map(|node| node.index() as u32)
}

/// Adding a node keeps a graph's contents consistent.
pub proof fn lemma_with_node(f: Flow, node: u32)
    requires
        f.wf(),
        f.numbers.len() > 0,
        node == f.next_number(),
    ensures
        !f.has(node),
        f.with_node(node).wf(),
{
    let g = f.with_node(node);
    assert(!f.has(f.numbers[0]));
    assert(g.out.dom() =~= f.out.dom().insert(node));
    assert forall|i: int| 0 <= i < g.numbers.len() implies !g.has(#[trigger] g.numbers[i]) by {
        assert(g.numbers[i] == f.numbers[i + 1]);
    }
    assert forall|e: u32| #[trigger] g.edges.contains_key(e) implies g.has(g.edges[e].source)
        && g.has(g.edges[e].target) by {
        assert(f.edges.contains_key(e));
    }
    assert forall|n: u32| #[trigger] g.has(n) implies g.out[n].no_duplicates() by {
        if n != node {
            assert(f.has(n));
        }
    }
    assert forall|n: u32, e: u32| g.has(n) implies (#[trigger] g.out[n].contains(e)
        <==> g.edges.contains_key(e) && g.edges[e].source == n) by {
        if n != node {
            assert(f.has(n));
            assert(f.out[n].contains(e) <==> f.edges.contains_key(e) && f.edges[e].source == n);
        } else if f.edges.contains_key(e) {
            assert(f.has(f.edges[e].source));
        }
    }
    assert(g.ins.dom() =~= g.out.dom());
    assert forall|n: u32| #[trigger] g.has(n) implies g.ins[n].no_duplicates() by {
        if n != node {
            assert(f.has(n));
        }
    }
    assert forall|n: u32, e: u32| g.has(n) implies (#[trigger] g.ins[n].contains(e)
        <==> g.edges.contains_key(e) && g.edges[e].target == n) by {
        if n != node {
            assert(f.has(n));
            assert(f.ins[n].contains(e) <==> f.edges.contains_key(e) && f.edges[e].target == n);
        } else if f.edges.contains_key(e) {
            assert(f.has(f.edges[e].target));
        }
    }
}

/// Removing a node keeps a graph's contents consistent.
pub proof fn lemma_without_node(f: Flow, node: u32)
    requires
        f.wf(),
    ensures
        f.without_node(node).wf(),
        f.without_node(node).out.dom() == f.out.dom().remove(node),
{
    let g = f.without_node(node);
    let keep = |e: u32| f.edges[e].target != node;
    assert(g.out.dom() =~= f.out.dom().remove(node));
    if f.has(node) {
        assert(g.numbers.no_duplicates()) by {
            assert forall|i: int, j: int|
                0 <= i < g.numbers.len() && 0 <= j < g.numbers.len() && i != j implies g.numbers[i]
                != g.numbers[j] by {
                if i > 0 {
                    assert(!f.has(f.numbers[i - 1]));
                }
                if j > 0 {
                    assert(!f.has(f.numbers[j - 1]));
                }
            }
        }
        assert forall|i: int| 0 <= i < g.numbers.len() implies !g.has(#[trigger] g.numbers[i]) by {
            if i > 0 {
                assert(!f.has(f.numbers[i - 1]));
            }
        }
    }
    assert(g.edges.dom().subset_of(f.edges.dom()));
    vstd::set_lib::lemma_set_subset_finite(f.edges.dom(), g.edges.dom());
    assert forall|e: u32| #[trigger] g.edges.contains_key(e) implies g.has(g.edges[e].source)
        && g.has(g.edges[e].target) by {
        assert(f.edges.contains_key(e));
        assert(f.has(f.edges[e].source));
    }
    assert forall|n: u32| #[trigger] g.has(n) implies g.out[n].no_duplicates() by {
        assert(f.has(n));
        lemma_filter(f.out[n], keep);
    }
    assert forall|n: u32, e: u32| g.has(n) implies (#[trigger] g.out[n].contains(e)
        <==> g.edges.contains_key(e) && g.edges[e].source == n) by {
        assert(f.has(n));
        lemma_filter(f.out[n], keep);
        assert(g.out[n] == f.out[n].filter(keep));
        assert(f.out[n].contains(e) <==> f.edges.contains_key(e) && f.edges[e].source == n);
    }
    let keep_in = |e: u32| f.edges[e].source != node;
    assert(g.ins.dom() =~= g.out.dom());
    assert forall|n: u32| #[trigger] g.has(n) implies g.ins[n].no_duplicates() by {
        assert(f.has(n));
        lemma_filter(f.ins[n], keep_in);
    }
    assert forall|n: u32, e: u32| g.has(n) implies (#[trigger] g.ins[n].contains(e)
        <==> g.edges.contains_key(e) && g.edges[e].target == n) by {
        assert(f.has(n));
        lemma_filter(f.ins[n], keep_in);
        assert(g.ins[n] == f.ins[n].filter(keep_in));
        assert(f.ins[n].contains(e) <==> f.edges.contains_key(e) && f.edges[e].target == n);
    }
    lemma_gone_with(f, node);
    lemma_freed(f, f.gone_with(node), g);
}

/// What goes with a node.
pub proof fn lemma_gone_with(f: Flow, node: u32)
    requires
        f.wf(),
    ensures
        f.gone_with(node).no_duplicates(),
        forall|e: u32| #[trigger]
            f.gone_with(node).contains(e) <==> f.edges.contains_key(e) && (f.edges[e].source
                == node || f.edges[e].target == node),
{
    let first = f.out_edges(node);
    let keep = |e: u32| f.edges[e].source != node;
    let second = f.in_edges(node).filter(keep);
    lemma_filter(f.in_edges(node), keep);
    assert(f.gone_with(node) == first + second);
    lemma_appended(first, second);
    assert forall|e: u32| first.contains(e) <==> f.edges.contains_key(e) && f.edges[e].source
        == node by {
        if f.has(node) {
            assert(f.out[node].contains(e) <==> f.edges.contains_key(e) && f.edges[e].source
                == node);
        } else if f.edges.contains_key(e) {
            assert(f.has(f.edges[e].source));
        }
    }
    assert forall|e: u32| f.in_edges(node).contains(e) <==> f.edges.contains_key(e)
        && f.edges[e].target == node by {
        if f.has(node) {
            assert(f.ins[node].contains(e) <==> f.edges.contains_key(e) && f.edges[e].target
                == node);
        } else if f.edges.contains_key(e) {
            assert(f.has(f.edges[e].target));
        }
    }
    assert(first.no_duplicates());
    assert((first + second).no_duplicates()) by {
        assert forall|i: int, j: int| 0 <= i < j < (first + second).len() implies (first
            + second)[i] != (first + second)[j] by {
            if i < first.len() && j >= first.len() {
                assert(first.contains(first[i]));
                assert(second.contains(second[j - first.len()]));
            }
        }
    }
}

/// The numbers of edges that are taken out are there for others.
pub proof fn lemma_freed(f: Flow, gone: Seq<u32>, g: Flow)
    requires
        f.wf(),
        gone.no_duplicates(),
        forall|e: u32| #[trigger] gone.contains(e) ==> f.edges.contains_key(e),
        forall|e: u32| #[trigger]
            g.edges.contains_key(e) <==> f.edges.contains_key(e) && !gone.contains(e),
        g.edge_numbers == gone.reverse() + f.edge_numbers,
    ensures
        g.counts_edges(),
{
    let back = gone.reverse();
    gone.unique_seq_to_set();
    assert(g.edges.dom() + gone.to_set() =~= f.edges.dom());
    assert(g.edges.dom().subset_of(f.edges.dom()));
    vstd::set_lib::lemma_set_subset_finite(f.edges.dom(), g.edges.dom());
    assert(g.edges.dom().disjoint(gone.to_set()));
    vstd::set_lib::lemma_set_disjoint_lens(g.edges.dom(), gone.to_set());
    assert forall|i: int| 0 <= i < back.len() implies gone.contains(#[trigger] back[i]) by {
        assert(back[i] == gone[gone.len() - 1 - i]);
    }
    assert forall|i: int, j: int|
        0 <= i < g.edge_numbers.len() && 0 <= j < g.edge_numbers.len() && i
            != j implies g.edge_numbers[i] != g.edge_numbers[j] by {
        if i < back.len() {
            assert(gone.contains(back[i]));
        } else {
            assert(!f.edges.contains_key(f.edge_numbers[i - back.len()]));
        }
        if j < back.len() {
            assert(gone.contains(back[j]));
        } else {
            assert(!f.edges.contains_key(f.edge_numbers[j - back.len()]));
        }
    }
    assert forall|i: int| 0 <= i < g.edge_numbers.len() implies !g.edges.contains_key(
        #[trigger] g.edge_numbers[i],
    ) by {
        if i < back.len() {
            assert(gone.contains(back[i]));
        } else {
            assert(!f.edges.contains_key(f.edge_numbers[i - back.len()]));
        }
    }
}

/// One more number in front of others.
proof fn lemma_put_in_front(rest: Seq<u32>, e: u32)
    requires
        !rest.contains(e),
        rest.no_duplicates(),
    ensures
        (seq![e] + rest).no_duplicates(),
        forall|x: u32| #[trigger] (seq![e] + rest).contains(x) <==> x == e || rest.contains(x),
{
    let front = seq![e];
    lemma_appended(front, rest);
    assert(front[0] == e);
    assert forall|i: int, j: int| 0 <= i < j < (front + rest).len() implies (front + rest)[i]
        != (front + rest)[j] by {
        assert((front + rest)[j] == rest[j - 1]);
        if i == 0 {
            assert(rest.contains(rest[j - 1]));
        }
    }
}

/// Adding an edge between nodes keeps a graph's contents consistent.
pub proof fn lemma_with_edge(f: Flow, e: u32, link: Link)
    requires
        f.wf(),
        f.has(link.source),
        f.has(link.target),
        f.edge_numbers.len() > 0,
        e == f.next_edge_number(),
    ensures
        !f.edges.contains_key(e),
        f.with_edge(e, link).wf(),
        f.with_edge(e, link).out.dom() == f.out.dom(),
        f.with_edge(e, link).edges.dom() == f.edges.dom().insert(e),
{
    let g = f.with_edge(e, link);
    assert(!f.edges.contains_key(f.edge_numbers[0]));
    assert(g.out.dom() =~= f.out.dom());
    assert(g.ins.dom() =~= g.out.dom());
    assert(g.edges.dom() =~= f.edges.dom().insert(e));
    assert(!f.out[link.source].contains(e));
    assert(!f.ins[link.target].contains(e));
    lemma_put_in_front(f.out[link.source], e);
    lemma_put_in_front(f.ins[link.target], e);
    assert forall|n: u32| #[trigger] g.has(n) implies g.out[n].no_duplicates()
        && g.ins[n].no_duplicates() by {
        assert(f.has(n));
    }
    assert forall|n: u32, x: u32| g.has(n) implies (#[trigger] g.ins[n].contains(x)
        <==> g.edges.contains_key(x) && g.edges[x].target == n) by {
        assert(f.has(n));
        assert(f.ins[n].contains(x) <==> f.edges.contains_key(x) && f.edges[x].target == n);
    }
    assert forall|i: int| 0 <= i < g.edge_numbers.len() implies !g.edges.contains_key(
        #[trigger] g.edge_numbers[i],
    ) by {
        assert(g.edge_numbers[i] == f.edge_numbers[i + 1]);
        assert(f.edge_numbers[0] != f.edge_numbers[i + 1]);
    }
    assert forall|n: u32, x: u32| g.has(n) implies (#[trigger] g.out[n].contains(x)
        <==> g.edges.contains_key(x) && g.edges[x].source == n) by {
        assert(f.has(n));
        assert(f.out[n].contains(x) <==> f.edges.contains_key(x) && f.edges[x].source == n);
    }
    assert forall|x: u32| #[trigger] g.edges.contains_key(x) implies g.has(g.edges[x].source)
        && g.has(g.edges[x].target) by {
        if x != e {
            assert(f.edges.contains_key(x));
        }
    }
}

/// Removing an edge keeps a graph's contents consistent.
pub proof fn lemma_without_edge(f: Flow, e: u32)
    requires
        f.wf(),
        f.edges.contains_key(e),
    ensures
        f.without_edge(e).wf(),
        f.without_edge(e).out.dom() == f.out.dom(),
        f.without_edge(e).edges.dom() == f.edges.dom().remove(e),
{
    let g = f.without_edge(e);
    let source = f.edges[e].source;
    let keep = other_than(e);
    assert(f.has(source));
    assert(g.out.dom() =~= f.out.dom());
    assert(g.edges.dom() =~= f.edges.dom().remove(e));
    let target = f.edges[e].target;
    assert(f.has(target));
    assert(g.ins.dom() =~= g.out.dom());
    lemma_filter(f.out[source], keep);
    lemma_filter(f.ins[target], keep);
    assert(g.out[source] == f.out[source].filter(keep));
    assert(g.ins[target] == f.ins[target].filter(keep));
    assert forall|n: u32| #[trigger] g.has(n) implies g.out[n].no_duplicates()
        && g.ins[n].no_duplicates() by {
        assert(f.has(n));
    }
    assert forall|n: u32, x: u32| g.has(n) implies (#[trigger] g.ins[n].contains(x)
        <==> g.edges.contains_key(x) && g.edges[x].target == n) by {
        assert(f.has(n));
        assert(f.ins[n].contains(x) <==> f.edges.contains_key(x) && f.edges[x].target == n);
    }
    let gone = seq![e];
    assert(gone[0] == e);
    assert(gone.reverse() =~= gone);
    lemma_freed(f, gone, g);
    assert forall|n: u32, x: u32| g.has(n) implies (#[trigger] g.out[n].contains(x)
        <==> g.edges.contains_key(x) && g.edges[x].source == n) by {
        assert(f.has(n));
        assert(f.out[n].contains(x) <==> f.edges.contains_key(x) && f.edges[x].source == n);
    }
    assert forall|x: u32| #[trigger] g.edges.contains_key(x) implies g.has(g.edges[x].source)
        && g.has(g.edges[x].target) by {
        assert(f.edges.contains_key(x));
    }
}

/// The graph without nodes is consistent.
pub proof fn lemma_empty(graph: FlowGraph)
    requires
        graph_edges(graph).dom() == Set::<u32>::empty(),
        graph_out(graph).dom() == Set::<u32>::empty(),
        graph_in(graph).dom() == Set::<u32>::empty(),
        graph_numbers(graph) == all_numbers(),
        graph_edge_numbers(graph) == all_numbers(),
    ensures
        flow(graph) == Flow::empty(),
        flow(graph).wf(),
{
    assert(flow(graph).edges =~= Map::empty());
    assert(flow(graph).out =~= Map::empty());
    assert(flow(graph).ins =~= Map::empty());
}

} // verus!
