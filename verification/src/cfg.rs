//! Functions: blocks of statements joined by edges, with a place to start.

use vstd::prelude::*;

use crate::ast::{lemma_statements_view, lemma_statements_view_add, Block, Statement, Stmt};
use crate::blocks::{branches_tell_then_from_else, BlockGraph};
use crate::dominance::is_post_dominance;
use crate::flow::{
    ascending, dominator_chains, flow, walk_capacity, walk_discovered, walk_finished, walk_stack,
    BlockEdge, BranchType, Dominance, Flow, FlowGraph, Link, PostOrder, SearchEvent,
};
use crate::lists::lemma_take_one;
use crate::search::{search_events, searches, searches_tell};

verus! {

/// What a function is made of.
#[verifier::ext_equal]
pub struct FunctionView {
    pub id: usize,
    pub flow: Flow,
    pub blocks: Map<u32, Seq<Stmt>>,
    pub entry: Option<u32>,
}

impl FunctionView {
    /// The blocks are those of the graph's nodes.
    pub open spec fn wf(self) -> bool {
        &&& self.flow.wf()
        &&& self.blocks.dom() == self.flow.out.dom()
    }

    pub open spec fn with_flow(self, flow: Flow) -> FunctionView {
        FunctionView { flow, ..self }
    }

    pub open spec fn with_block(self, node: u32, block: Seq<Stmt>) -> FunctionView {
        FunctionView { blocks: self.blocks.insert(node, block), ..self }
    }

    pub open spec fn without_block(self, node: u32) -> FunctionView {
        FunctionView {
            flow: self.flow.without_node(node),
            blocks: self.blocks.remove(node),
            ..self
        }
    }

    /// The function starts at a block that searches can start from.
    pub open spec fn has_start(self) -> bool {
        self.entry is Some && self.flow.below_bound(self.entry->0)
    }

    /// There are numbers left for one more block and for an edge to it from every
    /// block that no edge leaves.
    pub open spec fn has_room(self) -> bool {
        &&& self.flow.out.dom().len() < u32::MAX
        &&& self.flow.edges.dom().len() + self.flow.exits().len() <= u32::MAX
    }
}

/// A function.
pub struct Function {
    id: usize,
    body: BlockGraph,
    entry: Option<u32>,
}

impl View for Function {
    type V = FunctionView;

    closed spec fn view(&self) -> FunctionView {
        FunctionView {
            id: self.id,
            flow: self.body.flow(),
            blocks: self.body.blocks(),
            entry: self.entry,
        }
    }
}

impl Function {
    /// Holds of every function there is.
    #[verifier::type_invariant]
    pub open spec fn inv(self) -> bool {
        self@.wf()
    }

    /// A function without blocks.
    pub fn new(id: usize) -> (this: Self)
        ensures
            this@ == (FunctionView { id, flow: Flow::empty(), blocks: Map::empty(), entry: None }),
    {
        Function { id, body: BlockGraph::new(), entry: None }
    }

    pub fn id(&self) -> (id: usize)
        ensures
            id == self@.id,
    {
        self.id
    }

    pub fn entry(&self) -> (entry: Option<u32>)
        ensures
            entry == self@.entry,
    {
        self.entry
    }

    pub fn set_entry(&mut self, node: u32)
        ensures
            final(self)@ == (FunctionView { entry: Some(node), ..old(self)@ }),
    {
        proof {
            use_type_invariant(&*self);
        }
        self.entry = Some(node);
    }

    pub fn node_count(&self) -> (count: usize)
        ensures
            count == self@.flow.out.dom().len(),
    {
        self.body.node_count()
    }

    pub fn edge_count(&self) -> (count: usize)
        ensures
            count == self@.flow.edges.dom().len(),
    {
        self.body.edge_count()
    }

    /// The blocks there are, ascending.
    pub fn node_indices(&self) -> (nodes: Vec<u32>)
        ensures
            ascending(nodes@, self@.flow.out.dom()),
    {
        crate::flow::node_indices(self.body.graph())
    }

    /// The edges there are, ascending.
    pub fn edge_indices(&self) -> (edges: Vec<u32>)
        ensures
            ascending(edges@, self@.flow.edges.dom()),
    {
        crate::flow::edge_indices(self.body.graph())
    }

    pub fn has_block(&self, node: u32) -> (found: bool)
        ensures
            found == self@.flow.has(node),
    {
        self.body.has_block(node)
    }

    pub fn block(&self, node: u32) -> (block: Option<&Block>)
        ensures
            match block {
                Some(b) => self@.flow.has(node) && b@ == self@.blocks[node],
                None => !self@.flow.has(node),
            },
    {
        proof {
            use_type_invariant(&*self);
        }
        self.body.block(node)
    }

    pub fn edge_endpoints(&self, e: u32) -> (ends: Option<(u32, u32)>)
        ensures
            ends == if self@.flow.edges.contains_key(e) {
                Some((self@.flow.edges[e].source, self@.flow.edges[e].target))
            } else {
                None
            },
    {
        self.body.edge_endpoints(e)
    }

    pub fn edge_weight(&self, e: u32) -> (weight: Option<BlockEdge>)
        ensures
            weight == if self@.flow.edges.contains_key(e) {
                Some(self@.flow.edges[e].weight)
            } else {
                None
            },
    {
        self.body.edge_weight(e)
    }

    /// Where the edges out of a block lead and what they carry, newest first.
    pub fn edges(&self, node: u32) -> (list: Vec<(u32, BlockEdge)>)
        ensures
            list@ == self@.flow.out_list(node),
    {
        proof {
            use_type_invariant(&*self);
        }
        self.body.edges(node)
    }

    pub fn successor_blocks(&self, node: u32) -> (list: Vec<u32>)
        ensures
            list@ == self@.flow.successors(node),
    {
        proof {
            use_type_invariant(&*self);
        }
        self.body.successors(node)
    }

    /// How many edges arrive at a block.
    pub fn predecessor_count(&self, node: u32) -> (count: usize)
        ensures
            count == self@.flow.incoming(node).len(),
    {
        proof {
            use_type_invariant(&*self);
        }
        self.body.predecessor_count(node)
    }

    /// The two edges of a conditional branch.
    pub fn conditional_edges(&self, node: u32) -> (pair: Option<(u32, u32)>)
        ensures
            pair == self@.flow.branches(node),
            pair matches Some((t, e)) ==> {
                &&& self@.flow.edges.contains_key(t) && self@.flow.edges[t].source == node
                &&& self@.flow.edges.contains_key(e) && self@.flow.edges[e].source == node
                &&& self@.flow.edges[t].weight.branch_type == BranchType::Then
                &&& self@.flow.edges[e].weight.branch_type == BranchType::Else
            },
    {
        proof {
            use_type_invariant(&*self);
            branches_tell_then_from_else(self@.flow, node);
        }
        self.body.conditional_edges(node)
    }

    /// Adds a block without statements, under the number of the block that was taken
    /// out last and has not been replaced, or else under the least that no block has
    /// had.
    pub fn new_block(&mut self) -> (node: u32)
        requires
            old(self)@.flow.out.dom().len() < u32::MAX,
        ensures
            node == old(self)@.flow.next_number(),
            !old(self)@.flow.has(node),
            final(self)@ == old(self)@.with_flow(old(self)@.flow.with_node(node)).with_block(
                node,
                Seq::empty(),
            ),
    {
        proof {
            use_type_invariant(&*self);
        }
        let mut body = BlockGraph::new();
        std::mem::swap(&mut body, &mut self.body);
        let node = body.new_block();
        self.body = body;
        node
    }

    /// Takes out a block with its edges.
    pub fn remove_block(&mut self, node: u32) -> (block: Option<Block>)
        ensures
            match block {
                Some(b) => old(self)@.flow.has(node) && b@ == old(self)@.blocks[node]
                    && final(self)@ == old(self)@.without_block(node),
                None => !old(self)@.flow.has(node) && final(self)@ == old(self)@,
            },
    {
        proof {
            use_type_invariant(&*self);
        }
        let mut body = BlockGraph::new();
        std::mem::swap(&mut body, &mut self.body);
        let block = body.remove_block(node);
        self.body = body;
        block
    }

    /// Puts a statement behind those of a block.
    pub fn push(&mut self, node: u32, statement: Statement)
        requires
            old(self)@.flow.has(node),
        ensures
            final(self)@ == old(self)@.with_block(node, old(self)@.blocks[node].push(statement@)),
    {
        proof {
            use_type_invariant(&*self);
        }
        let mut body = BlockGraph::new();
        std::mem::swap(&mut body, &mut self.body);
        let mut block = body.take_block(node);
        let ghost before = block.0@;
        block.0.push(statement);
        proof {
            assert(block.0@.drop_last() =~= before);
        }
        body.set_block(node, block);
        self.body = body;
        assert(self@.blocks =~= old(self)@.blocks.insert(
            node,
            old(self)@.blocks[node].push(statement@),
        ));
    }

    /// Puts a statement in front of those of a block.
    pub fn push_front(&mut self, node: u32, statement: Statement)
        requires
            old(self)@.flow.has(node),
        ensures
            final(self)@ == old(self)@.with_block(
                node,
                seq![statement@] + old(self)@.blocks[node],
            ),
    {
        proof {
            use_type_invariant(&*self);
        }
        let mut body = BlockGraph::new();
        std::mem::swap(&mut body, &mut self.body);
        let mut block = body.take_block(node);
        let ghost before = block.0@;
        block.0.insert(0, statement);
        proof {
            lemma_statements_view(before);
            lemma_statements_view(block.0@);
            assert(block@ =~= seq![statement@] + crate::ast::statements_view(before));
        }
        body.set_block(node, block);
        self.body = body;
        assert(self@.blocks =~= old(self)@.blocks.insert(
            node,
            seq![statement@] + old(self)@.blocks[node],
        ));
    }

    /// Puts statements behind those of a block.
    pub fn extend(&mut self, node: u32, statements: Block)
        requires
            old(self)@.flow.has(node),
        ensures
            final(self)@ == old(self)@.with_block(node, old(self)@.blocks[node] + statements@),
    {
        proof {
            use_type_invariant(&*self);
        }
        let mut body = BlockGraph::new();
        std::mem::swap(&mut body, &mut self.body);
        let mut block = body.take_block(node);
        let mut more = statements.0;
        proof {
            lemma_statements_view_add(block.0@, more@);
        }
        block.0.append(&mut more);
        body.set_block(node, block);
        self.body = body;
        assert(self@.blocks =~= old(self)@.blocks.insert(
            node,
            old(self)@.blocks[node] + statements@,
        ));
    }

    pub fn remove_edge(&mut self, e: u32) -> (weight: Option<BlockEdge>)
        ensures
            weight == if old(self)@.flow.edges.contains_key(e) {
                Some(old(self)@.flow.edges[e].weight)
            } else {
                None
            },
            final(self)@ == if old(self)@.flow.edges.contains_key(e) {
                old(self)@.with_flow(old(self)@.flow.without_edge(e))
            } else {
                old(self)@
            },
    {
        proof {
            use_type_invariant(&*self);
        }
        let mut body = BlockGraph::new();
        std::mem::swap(&mut body, &mut self.body);
        let weight = body.remove_edge(e);
        self.body = body;
        weight
    }

    pub fn add_edge(&mut self, source: u32, target: u32, weight: BlockEdge) -> (e: u32)
        requires
            old(self)@.flow.has(source),
            old(self)@.flow.has(target),
            old(self)@.flow.edges.dom().len() < u32::MAX,
        ensures
            e == old(self)@.flow.next_edge_number(),
            !old(self)@.flow.edges.contains_key(e),
            final(self)@ == old(self)@.with_flow(
                old(self)@.flow.with_edge(e, Link { source, target, weight }),
            ),
    {
        proof {
            use_type_invariant(&*self);
        }
        let mut body = BlockGraph::new();
        std::mem::swap(&mut body, &mut self.body);
        let e = body.add_edge(source, target, weight);
        self.body = body;
        e
    }

    /// Takes out the edges that leave a block.
    pub fn remove_edges(&mut self, node: u32) -> (list: Vec<(u32, BlockEdge)>)
        ensures
            list@ == old(self)@.flow.out_list(node),
            final(self)@ == old(self)@.with_flow(old(self)@.flow.without_out(node)),
    {
        proof {
            use_type_invariant(&*self);
        }
        let mut body = BlockGraph::new();
        std::mem::swap(&mut body, &mut self.body);
        let list = body.remove_edges(node);
        self.body = body;
        list
    }

    /// Replaces the edges that leave a block.
    pub fn set_edges(&mut self, node: u32, list: Vec<(u32, BlockEdge)>)
        requires
            old(self)@.flow.has(node),
            forall|i: int| 0 <= i < list@.len() ==> old(self)@.flow.has((#[trigger] list@[i]).0),
            old(self)@.flow.without_out(node).edges.dom().len() + list@.len() <= u32::MAX,
        ensures
            final(self)@ == old(self)@.with_flow(old(self)@.flow.with_out_set(node, list@)),
    {
        proof {
            use_type_invariant(&*self);
        }
        let mut body = BlockGraph::new();
        std::mem::swap(&mut body, &mut self.body);
        body.set_edges(node, &list);
        self.body = body;
    }

    /// The blocks that can be reached from `start`, each once.
    pub fn reachable(&self, start: u32) -> (nodes: Vec<u32>)
        requires
            self@.flow.below_bound(start),
        ensures
            nodes@.no_duplicates(),
            forall|n: u32| #[trigger] nodes@.contains(n) <==> self@.flow.reaches(start, n),
    {
        crate::flow::depth_first(self.body.graph(), start)
    }

    /// What a depth-first search from `start` comes upon.
    pub fn search(&self, start: u32) -> (events: Vec<SearchEvent>)
        requires
            self@.flow.below_bound(start),
        ensures
            events@ == search_events(self@.flow.successor_lists(), start),
            searches(self@.flow, start, events@),
    {
        proof {
            use_type_invariant(self);
            searches_tell(self@.flow, start);
        }
        crate::flow::depth_first_search(self.body.graph(), start)
    }

    /// The dominators of the blocks that can be reached from `root`.
    pub fn dominators(&self, root: u32) -> (dominance: Dominance)
        requires
            self@.flow.below_bound(root),
        ensures
            is_dominance(self@.flow, root, dominator_chains(dominance)),
    {
        crate::flow::dominators(self.body.graph(), root)
    }

    /// The post-dominators of the blocks.
    pub fn post_dominators(&mut self) -> (dominance: Dominance)
        requires
            old(self)@.has_room(),
        ensures
            final(self)@ == old(self)@,
            is_post_dominance(
                old(self)@.flow,
                dominator_chains(dominance),
                old(self)@.flow.next_number(),
            ),
    {
        proof {
            use_type_invariant(&*self);
        }
        let mut body = BlockGraph::new();
        std::mem::swap(&mut body, &mut self.body);
        let dominance = body.post_dominators();
        self.body = body;
        dominance
    }

    /// One more than the largest number of a block.
    pub fn node_bound(&self) -> (bound: usize)
        ensures
            bound <= u32::MAX,
            forall|n: u32| n < bound <==> #[trigger] self@.flow.below_bound(n),
    {
        crate::flow::node_bound(self.body.graph())
    }

    /// Whether the function starts at a block that searches can start from.
    pub fn has_start(&self) -> (found: bool)
        ensures
            found == self@.has_start(),
    {
        match self.entry {
            None => false,
            Some(entry) => {
                let bound = self.node_bound();
                assert(entry < bound <==> self@.flow.below_bound(entry));
                (entry as usize) < bound
            },
        }
    }

    /// How many blocks no edge leaves.
    pub fn exit_count(&self) -> (count: usize)
        ensures
            count == self@.flow.exits().len(),
    {
        proof {
            use_type_invariant(&*self);
        }
        let nodes = self.node_indices();
        let mut count: usize = 0;
        let ghost mut found = Set::<u32>::empty();
        for i in 0..nodes.len()
            invariant
                self@.wf(),
                ascending(nodes@, self@.flow.out.dom()),
                count <= i,
                found.finite(),
                found.len() == count,
                forall|n: u32| #[trigger]
                    found.contains(n) <==> self@.flow.exits().contains(n) && nodes@.take(
                        i as int,
                    ).contains(n),
        {
            let node = nodes[i];
            proof {
                assert(nodes@.contains(node));
                assert(self@.flow.has(node));
                lemma_take_one(nodes@, i as int);
            }
            if self.successor_blocks(node).len() == 0 {
                count = count + 1;
                proof {
                    found = found.insert(node);
                }
            }
        }
        proof {
            assert(nodes@.take(nodes@.len() as int) =~= nodes@);
            assert forall|n: u32| self@.flow.exits().contains(n) implies nodes@.contains(n) by {
                assert(self@.flow.out.dom().contains(n));
            }
            assert(found =~= self@.flow.exits());
        }
        count
    }

    /// Whether there are numbers left for one more block and the edges to it.
    pub fn has_room(&self) -> (found: bool)
        ensures
            found == self@.has_room(),
    {
        let most: usize = u32::MAX as usize;
        let edges = self.edge_count();
        self.node_count() < most && edges <= most && self.exit_count() <= most - edges
    }

    pub(crate) fn start_walk(&self, start: u32) -> (walk: PostOrder)
        ensures
            walk_stack(walk) == seq![start],
            walk_discovered(walk) == Set::<u32>::empty(),
            walk_finished(walk) == Set::<u32>::empty(),
            walk_capacity(walk) <= u32::MAX,
            forall|n: u32| n < walk_capacity(walk) <==> #[trigger] self@.flow.below_bound(n),
    {
        crate::flow::start_walk(self.body.graph(), start)
    }

    pub(crate) fn graph(&self) -> (graph: &FlowGraph)
        ensures
            flow(*graph) == self@.flow,
    {
        self.body.graph()
    }
}

/// What the result of [`Function::dominators`] says: a node is known where it
/// can be reached, with the nodes that every path to it passes through, from the
/// node itself on, each before those that every path to it passes through.
pub open spec fn is_dominance(f: Flow, root: u32, chains: Map<u32, Seq<u32>>) -> bool {
    &&& forall|n: u32| #[trigger] chains.contains_key(n) <==> f.reaches(root, n)
    &&& forall|n: u32, other: u32|
        chains.contains_key(n) ==> (#[trigger] chains[n].contains(other) <==> f.dominates(
            root,
            other,
            n,
        ))
    &&& forall|n: u32| #[trigger]
        chains.contains_key(n) ==> chains[n].no_duplicates() && chains[n].len() > 0
            && chains[n][0] == n
    &&& forall|n: u32, i: int, j: int|
        chains.contains_key(n) && 0 <= i < j < chains[n].len() ==> f.dominates(
            root,
            #[trigger] chains[n][j],
            #[trigger] chains[n][i],
        )
}

impl Clone for Function {
    fn clone(&self) -> (copy: Self)
        ensures
            copy@ == self@,
    {
        proof {
            use_type_invariant(&*self);
        }
        Function { id: self.id, body: self.body.duplicate(), entry: self.entry }
    }
}

/// A change of one part of a function leaves the others as they are.
pub proof fn parts_change_alone(f: FunctionView, flow: Flow, node: u32, block: Seq<Stmt>)
    ensures
        f.with_flow(flow) == (FunctionView {
            id: f.id,
            flow,
            blocks: f.blocks,
            entry: f.entry,
        }),
        f.with_block(node, block) == (FunctionView {
            id: f.id,
            flow: f.flow,
            blocks: f.blocks.insert(node, block),
            entry: f.entry,
        }),
        f.without_block(node) == (FunctionView {
            id: f.id,
            flow: f.flow.without_node(node),
            blocks: f.blocks.remove(node),
            entry: f.entry,
        }),
        f.has_start() <==> exists|n: u32| #[trigger]
            f.flow.has(n) && f.entry is Some && f.entry->0 <= n,
        f.has_room() <==> f.flow.out.dom().len() < u32::MAX && f.flow.edges.dom().len()
            + f.flow.exits().len() <= u32::MAX,
{
    if f.has_start() {
        let n = choose|n: u32| f.entry->0 <= n && #[trigger] f.flow.has(n);
        assert(f.flow.has(n));
    }
}

/// Dominators are known of exactly the nodes that can be reached, and are the nodes
/// that no path avoids, the nearest first.
pub proof fn dominators_cannot_be_avoided(
    f: Flow,
    root: u32,
    chains: Map<u32, Seq<u32>>,
    n: u32,
    other: u32,
)
    requires
        is_dominance(f, root, chains),
    ensures
        chains.contains_key(n) <==> exists|path: Seq<u32>| f.is_path(path, root, n),
        chains.contains_key(n) ==> (chains[n].contains(other) <==> forall|path: Seq<u32>|
            #[trigger] f.is_path(path, root, n) ==> path.contains(other)),
        chains.contains_key(n) ==> chains[n][0] == n,
{
    assert(chains.contains_key(n) <==> f.reaches(root, n));
}

} // verus!
