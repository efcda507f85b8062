//! Blocks of statements joined by edges.

use vstd::prelude::*;

use crate::ast::{statements_view, Block, Statement, Stmt};
use crate::dominance::{is_post_dominance, post_dominators};
use crate::flow::{
    dominator_chains, flow, lemma_empty, lemma_freed, lemma_with_edge, lemma_with_node,
    lemma_without_edge, lemma_without_node, other_than, BlockEdge, BranchType, Dominance, Flow,
    FlowGraph, Link,
};
use crate::lists::{lemma_filter, lemma_filter_twice, lemma_same_filter, lemma_take_one};

verus! {

impl Flow {
    /// Where the edges out of `node` lead and what they carry, edge by edge.
    pub open spec fn out_list(self, node: u32) -> Seq<(u32, BlockEdge)> {
        self.out_edges(node).map_values(|e: u32| (self.edges[e].target, self.edges[e].weight))
    }

    /// Without the edges that leave `node`.
    pub open spec fn without_out(self, node: u32) -> Flow {
        Flow {
            edges: Map::new(
                |e: u32| self.edges.contains_key(e) && self.edges[e].source != node,
                |e: u32| self.edges[e],
            ),
            out: if self.has(node) {
                self.out.insert(node, Seq::empty())
            } else {
                self.out
            },
            ins: Map::new(
                |n: u32| self.has(n),
                |n: u32| self.ins[n].filter(|e: u32| self.edges[e].source != node),
            ),
            edge_numbers: self.out_edges(node).reverse() + self.edge_numbers,
            ..self
        }
    }

    /// With new edges out of `node` as listed, the last of the list first, in front
    /// of those there were.
    pub open spec fn with_out(self, node: u32, list: Seq<(u32, BlockEdge)>) -> Flow
        decreases list.len(),
    {
        if list.len() == 0 {
            self
        } else {
            let f = self.with_out(node, list.drop_last());
            f.with_edge(
                f.next_edge_number(),
                Link { source: node, target: list.last().0, weight: list.last().1 },
            )
        }
    }

    /// With the edges out of `node` replaced by those listed, the last of the list
    /// first.
    pub open spec fn with_out_set(self, node: u32, list: Seq<(u32, BlockEdge)>) -> Flow {
        self.without_out(node).with_out(node, list)
    }

    /// The edges that a two-way branch at `node` takes: the one for a condition
    /// that holds and the one for a condition that does not.
    pub open spec fn branches(self, node: u32) -> Option<(u32, u32)> {
        let out = self.out_edges(node);
        if out.len() != 2 {
            None
        } else if self.edges[out[0]].weight.branch_type == BranchType::Then
            && self.edges[out[1]].weight.branch_type == BranchType::Else {
            Some((out[0], out[1]))
        } else if self.edges[out[0]].weight.branch_type == BranchType::Else
            && self.edges[out[1]].weight.branch_type == BranchType::Then {
            Some((out[1], out[0]))
        } else {
            None
        }
    }
}


/// Picks out what is not in the list.
pub open spec fn not_among(list: Seq<u32>) -> spec_fn(u32) -> bool {
    |e: u32| !list.contains(e)
}

/// Taking the first of different numbers out of a list leaves the others.
proof fn lemma_filter_first(list: Seq<u32>)
    requires
        list.len() > 0,
        list.no_duplicates(),
    ensures
        list.filter(other_than(list[0])) == list.skip(1),
{
    let first = seq![list[0]];
    let rest = list.skip(1);
    let keep = other_than(list[0]);
    assert(list =~= first + rest);
    Seq::filter_distributes_over_add(first, rest, keep);
    lemma_filter(first, keep);
    lemma_filter(rest, keep);
    assert(first.filter(keep) =~= Seq::<u32>::empty()) by {
        if first.filter(keep).len() > 0 {
            assert(first.filter(keep).contains(first.filter(keep)[0]));
        }
    }
    assert forall|x: u32| #[trigger] rest.contains(x) implies keep(x) by {
        let i = choose|i: int| 0 <= i < rest.len() && rest[i] == x;
        assert(list[i + 1] == x);
    }
    assert(first.filter(keep) + rest.filter(keep) =~= rest);
}

/// A graph that lost the edges that leave one node is consistent.
pub proof fn lemma_without_out(f: Flow, node: u32)
    requires
        f.wf(),
    ensures
        f.without_out(node).wf(),
        f.without_out(node).out.dom() == f.out.dom(),
        f.without_out(node).edges.dom().subset_of(f.edges.dom()),
{
    let g = f.without_out(node);
    assert(g.out.dom() =~= f.out.dom());
    assert(g.edges.dom().subset_of(f.edges.dom()));
    vstd::set_lib::lemma_set_subset_finite(f.edges.dom(), g.edges.dom());
    assert forall|e: u32| #[trigger] g.edges.contains_key(e) implies g.has(g.edges[e].source)
        && g.has(g.edges[e].target) by {
        assert(f.edges.contains_key(e));
    }
    assert forall|n: u32| #[trigger] g.has(n) implies g.out[n].no_duplicates() by {
        assert(f.has(n));
    }
    assert forall|n: u32, e: u32| g.has(n) implies (#[trigger] g.out[n].contains(e)
        <==> g.edges.contains_key(e) && g.edges[e].source == n) by {
        assert(f.has(n));
        assert(f.out[n].contains(e) <==> f.edges.contains_key(e) && f.edges[e].source == n);
    }
    let keep = |e: u32| f.edges[e].source != node;
    assert(g.ins.dom() =~= g.out.dom());
    assert forall|n: u32| #[trigger] g.has(n) implies g.ins[n].no_duplicates() by {
        assert(f.has(n));
        lemma_filter(f.ins[n], keep);
    }
    assert forall|n: u32, e: u32| g.has(n) implies (#[trigger] g.ins[n].contains(e)
        <==> g.edges.contains_key(e) && g.edges[e].target == n) by {
        assert(f.has(n));
        lemma_filter(f.ins[n], keep);
        assert(g.ins[n] == f.ins[n].filter(keep));
        assert(f.ins[n].contains(e) <==> f.edges.contains_key(e) && f.edges[e].target == n);
    }
    let gone = f.out_edges(node);
    assert forall|e: u32| #[trigger] gone.contains(e) <==> f.edges.contains_key(e)
        && f.edges[e].source == node by {
        if f.has(node) {
            assert(f.out[node].contains(e) <==> f.edges.contains_key(e) && f.edges[e].source
                == node);
        } else if f.edges.contains_key(e) {
            assert(f.has(f.edges[e].source));
        }
    }
    lemma_freed(f, gone, g);
}

/// What new edges out of a node make of a graph.
pub proof fn lemma_with_out(f: Flow, node: u32, list: Seq<(u32, BlockEdge)>)
    requires
        f.wf(),
        f.has(node),
        forall|i: int| 0 <= i < list.len() ==> f.has((#[trigger] list[i]).0),
        f.edges.dom().len() + list.len() <= u32::MAX,
    ensures
        f.with_out(node, list).wf(),
        f.with_out(node, list).out.dom() == f.out.dom(),
        f.with_out(node, list).edges.dom().len() == f.edges.dom().len() + list.len(),
        f.out[node].len() == 0 ==> f.with_out(node, list).out_list(node) == list.reverse(),
    decreases list.len(),
{
    let h = f.with_out(node, list);
    if list.len() == 0 {
        if f.out[node].len() == 0 {
            assert(h.out_list(node) =~= list.reverse());
        }
    } else {
        let front = list.drop_last();
        let item = list.last();
        let link = Link { source: node, target: item.0, weight: item.1 };
        assert forall|i: int| 0 <= i < front.len() implies f.has((#[trigger] front[i]).0) by {
            assert(front[i] == list[i]);
        }
        lemma_with_out(f, node, front);
        let g = f.with_out(node, front);
        let e = g.next_edge_number();
        assert(f.has(list[list.len() - 1].0));
        assert(g.has(node) && g.has(item.0));
        lemma_with_edge(g, e, link);
        assert(h == g.with_edge(e, link));
        assert(h.out[node] == seq![e] + g.out[node]);
        if f.out[node].len() == 0 {
            assert(g.out_list(node).len() == front.len());
            assert(g.out[node].len() == front.len());
            assert forall|i: int| 0 <= i < list.len() implies #[trigger] h.out_list(node)[i]
                == list.reverse()[i] by {
                if i > 0 {
                    let x = g.out[node][i - 1];
                    assert(h.out[node][i] == x);
                    assert(g.out[node].contains(x));
                    assert(g.edges.contains_key(x));
                    assert(g.out_list(node)[i - 1] == front.reverse()[i - 1]);
                    assert(h.edges[x] == g.edges[x]);
                }
            }
            assert(h.out_list(node) =~= list.reverse());
        }
    }
}

/// The blocks that are there, by their numbers.
pub open spec fn blocks_view(slots: Seq<Option<Block>>) -> Map<u32, Seq<Stmt>> {
    Map::new(
        |n: u32| n < slots.len() && slots[n as int] is Some,
        |n: u32| slots[n as int]->0@,
    )
}

/// A graph with a block for each node.
pub struct BlockGraph {
    graph: FlowGraph,
    blocks: Vec<Option<Block>>,
}

impl BlockGraph {
    pub closed spec fn flow(self) -> Flow {
        flow(self.graph)
    }

    pub closed spec fn blocks(self) -> Map<u32, Seq<Stmt>> {
        blocks_view(self.blocks@)
    }

    pub open spec fn wf(self) -> bool {
        &&& self.flow().wf()
        &&& self.blocks().dom() == self.flow().out.dom()
    }

    pub(crate) fn new() -> (this: Self)
        ensures
            this.wf(),
            this.flow() == Flow::empty(),
            this.blocks() == Map::<u32, Seq<Stmt>>::empty(),
    {
        let graph = crate::flow::empty_graph();
        let blocks: Vec<Option<Block>> = Vec::new();
        proof {
            lemma_empty(graph);
            assert(blocks_view(blocks@) =~= Map::empty());
        }
        BlockGraph { graph, blocks }
    }

    pub(crate) fn duplicate(&self) -> (copy: Self)
        ensures
            copy.flow() == self.flow(),
            copy.blocks() == self.blocks(),
    {
        let graph = crate::flow::clone_graph(&self.graph);
        let mut blocks: Vec<Option<Block>> = Vec::new();
        for i in 0..self.blocks.len()
            invariant
                blocks@.len() == i,
                forall|j: int|
                    0 <= j < i ==> (#[trigger] blocks@[j] is Some <==> self.blocks@[j] is Some)
                        && (blocks@[j] is Some ==> blocks@[j]->0@ == self.blocks@[j]->0@),
        {
            let slot = match &self.blocks[i] {
                Some(block) => Some(block.clone()),
                None => None,
            };
            blocks.push(slot);
        }
        assert(blocks_view(blocks@) =~= blocks_view(self.blocks@));
        BlockGraph { graph, blocks }
    }

    pub(crate) fn has_block(&self, node: u32) -> (found: bool)
        ensures
            found == self.flow().has(node),
    {
        crate::flow::contains_node(&self.graph, node)
    }

    pub(crate) fn block(&self, node: u32) -> (block: Option<&Block>)
        ensures
            match block {
                Some(b) => self.blocks().contains_key(node) && b@ == self.blocks()[node],
                None => !self.blocks().contains_key(node),
            },
    {
        if (node as usize) < self.blocks.len() {
            self.blocks[node as usize].as_ref()
        } else {
            None
        }
    }

    pub(crate) fn new_block(&mut self) -> (node: u32)
        requires
            old(self).wf(),
            old(self).flow().out.dom().len() < u32::MAX,
        ensures
            final(self).wf(),
            node == old(self).flow().next_number(),
            !old(self).flow().has(node),
            final(self).flow() == old(self).flow().with_node(node),
            final(self).blocks() == old(self).blocks().insert(node, Seq::empty()),
    {
        let node = crate::flow::add_node(&mut self.graph);
        proof {
            lemma_with_node(old(self).flow(), node);
        }
        while self.blocks.len() <= node as usize
            invariant
                blocks_view(self.blocks@) == blocks_view(old(self).blocks@),
                flow(self.graph) == old(self).flow().with_node(node),
            decreases node as usize + 1 - self.blocks.len(),
        {
            let ghost before = self.blocks@;
            self.blocks.push(None);
            assert(blocks_view(self.blocks@) =~= blocks_view(before));
        }
        let statements: Vec<Statement> = Vec::new();
        let empty = Block(statements);
        let ghost before = self.blocks@;
        self.blocks.set(node as usize, Some(empty));
        proof {
            assert(empty@ =~= Seq::empty());
            assert(blocks_view(self.blocks@) =~= blocks_view(before).insert(node, Seq::empty()));
            assert(self.blocks().dom() =~= self.flow().out.dom());
        }
        node
    }

    pub(crate) fn set_block(&mut self, node: u32, block: Block)
        requires
            old(self).wf(),
            old(self).flow().has(node),
        ensures
            final(self).wf(),
            final(self).flow() == old(self).flow(),
            final(self).blocks() == old(self).blocks().insert(node, block@),
    {
        assert(self.blocks().contains_key(node));
        let ghost before = self.blocks@;
        self.blocks.set(node as usize, Some(block));
        proof {
            assert(blocks_view(self.blocks@) =~= blocks_view(before).insert(node, block@));
            assert(self.blocks().dom() =~= self.flow().out.dom());
        }
    }

    /// Lends a block out; its place is taken by an empty one.
    pub(crate) fn take_block(&mut self, node: u32) -> (block: Block)
        requires
            old(self).wf(),
            old(self).flow().has(node),
        ensures
            final(self).wf(),
            final(self).flow() == old(self).flow(),
            final(self).blocks() == old(self).blocks().insert(node, Seq::empty()),
            block@ == old(self).blocks()[node],
    {
        assert(self.blocks().contains_key(node));
        let statements: Vec<Statement> = Vec::new();
        let mut slot: Option<Block> = Some(Block(statements));
        assert(slot->0@ =~= Seq::empty());
        let ghost before = self.blocks@;
        let ghost empty = slot;
        std::mem::swap(&mut slot, &mut self.blocks[node as usize]);
        proof {
            assert(self.blocks@ =~= before.update(node as int, empty));
            assert(blocks_view(self.blocks@) =~= blocks_view(before).insert(node, Seq::empty()));
            assert(self.blocks().dom() =~= self.flow().out.dom());
        }
        slot.unwrap()
    }

    pub(crate) fn remove_block(&mut self, node: u32) -> (block: Option<Block>)
        requires
            old(self).wf(),
        ensures
            final(self).wf(),
            match block {
                Some(b) => old(self).flow().has(node) && b@ == old(self).blocks()[node]
                    && final(self).flow() == old(self).flow().without_node(node)
                    && final(self).blocks() == old(self).blocks().remove(node),
                None => !old(self).flow().has(node) && final(self).flow() == old(self).flow()
                    && final(self).blocks() == old(self).blocks(),
            },
    {
        if !crate::flow::remove_node(&mut self.graph, node) {
            return None;
        }
        proof {
            lemma_without_node(old(self).flow(), node);
            assert(old(self).blocks().contains_key(node));
        }
        let mut slot: Option<Block> = None;
        let ghost before = self.blocks@;
        std::mem::swap(&mut slot, &mut self.blocks[node as usize]);
        proof {
            assert(self.blocks@ =~= before.update(node as int, None));
            assert(blocks_view(self.blocks@) =~= blocks_view(before).remove(node));
            assert(self.blocks().dom() =~= self.flow().out.dom());
        }
        slot
    }

    pub(crate) fn edge_endpoints(&self, e: u32) -> (ends: Option<(u32, u32)>)
        ensures
            ends == if self.flow().edges.contains_key(e) {
                Some((self.flow().edges[e].source, self.flow().edges[e].target))
            } else {
                None
            },
    {
        crate::flow::edge_endpoints(&self.graph, e)
    }

    pub(crate) fn edge_weight(&self, e: u32) -> (weight: Option<BlockEdge>)
        ensures
            weight == if self.flow().edges.contains_key(e) {
                Some(self.flow().edges[e].weight)
            } else {
                None
            },
    {
        crate::flow::edge_weight(&self.graph, e)
    }

    pub(crate) fn edges(&self, node: u32) -> (list: Vec<(u32, BlockEdge)>)
        requires
            self.wf(),
        ensures
            list@ == self.flow().out_list(node),
    {
        let out = crate::flow::out_edges(&self.graph, node);
        let mut list: Vec<(u32, BlockEdge)> = Vec::new();
        for i in 0..out.len()
            invariant
                self.wf(),
                out@ == self.flow().out_edges(node),
                list@ == self.flow().out_list(node).take(i as int),
        {
            assert(out@.contains(out@[i as int]));
            assert(self.flow().out[node].contains(out@[i as int]));
            let (_, target) = crate::flow::edge_endpoints(&self.graph, out[i]).unwrap();
            let weight = crate::flow::edge_weight(&self.graph, out[i]).unwrap();
            list.push((target, weight));
            assert(list@ =~= self.flow().out_list(node).take(i + 1));
        }
        assert(list@ =~= self.flow().out_list(node));
        list
    }

    pub(crate) fn successors(&self, node: u32) -> (list: Vec<u32>)
        requires
            self.wf(),
        ensures
            list@ == self.flow().successors(node),
    {
        let edges = self.edges(node);
        let mut list: Vec<u32> = Vec::new();
        for i in 0..edges.len()
            invariant
                edges@ == self.flow().out_list(node),
                list@ == self.flow().successors(node).take(i as int),
        {
            list.push(edges[i].0);
            assert(list@ =~= self.flow().successors(node).take(i + 1));
        }
        assert(list@ =~= self.flow().successors(node));
        list
    }

    pub(crate) fn predecessor_count(&self, node: u32) -> (count: usize)
        requires
            self.wf(),
        ensures
            count == self.flow().incoming(node).len(),
    {
        let edges = crate::flow::in_edges(&self.graph, node);
        proof {
            let f = self.flow();
            edges@.unique_seq_to_set();
            assert forall|e: u32| edges@.contains(e) <==> f.incoming(node).contains(e) by {
                if f.has(node) {
                    assert(f.ins[node].contains(e) <==> f.edges.contains_key(e)
                        && f.edges[e].target == node);
                } else if f.edges.contains_key(e) {
                    assert(f.has(f.edges[e].target));
                }
            }
            assert(edges@.to_set() =~= f.incoming(node));
        }
        edges.len()
    }

    pub(crate) fn conditional_edges(&self, node: u32) -> (pair: Option<(u32, u32)>)
        requires
            self.wf(),
        ensures
            pair == self.flow().branches(node),
    {
        let out = crate::flow::out_edges(&self.graph, node);
        if out.len() != 2 {
            return None;
        }
        proof {
            assert(self.flow().out[node].contains(out@[0]));
            assert(self.flow().out[node].contains(out@[1]));
        }
        let first = crate::flow::edge_weight(&self.graph, out[0]).unwrap();
        let second = crate::flow::edge_weight(&self.graph, out[1]).unwrap();
        if first.branch_type == BranchType::Then && second.branch_type == BranchType::Else {
            Some((out[0], out[1]))
        } else if first.branch_type == BranchType::Else && second.branch_type == BranchType::Then {
            Some((out[1], out[0]))
        } else {
            None
        }
    }

    pub(crate) fn remove_edge(&mut self, e: u32) -> (weight: Option<BlockEdge>)
        requires
            old(self).wf(),
        ensures
            final(self).wf(),
            final(self).blocks() == old(self).blocks(),
            weight == if old(self).flow().edges.contains_key(e) {
                Some(old(self).flow().edges[e].weight)
            } else {
                None
            },
            final(self).flow() == if old(self).flow().edges.contains_key(e) {
                old(self).flow().without_edge(e)
            } else {
                old(self).flow()
            },
    {
        proof {
            if self.flow().edges.contains_key(e) {
                lemma_without_edge(self.flow(), e);
            }
        }
        crate::flow::remove_edge(&mut self.graph, e)
    }

    pub(crate) fn add_edge(&mut self, source: u32, target: u32, weight: BlockEdge) -> (e: u32)
        requires
            old(self).wf(),
            old(self).flow().has(source),
            old(self).flow().has(target),
            old(self).flow().edges.dom().len() < u32::MAX,
        ensures
            final(self).wf(),
            final(self).blocks() == old(self).blocks(),
            e == old(self).flow().next_edge_number(),
            !old(self).flow().edges.contains_key(e),
            final(self).flow() == old(self).flow().with_edge(e, Link { source, target, weight }),
    {
        let e = crate::flow::add_edge(&mut self.graph, source, target, weight);
        proof {
            lemma_with_edge(old(self).flow(), e, Link { source, target, weight });
        }
        e
    }

    pub(crate) fn remove_edges(&mut self, node: u32) -> (list: Vec<(u32, BlockEdge)>)
        requires
            old(self).wf(),
        ensures
            final(self).wf(),
            final(self).blocks() == old(self).blocks(),
            list@ == old(self).flow().out_list(node),
            final(self).flow() == old(self).flow().without_out(node),
    {
        let list = self.edges(node);
        let out = crate::flow::out_edges(&self.graph, node);
        let ghost f = self.flow();
        proof {
            assert(out@.take(0).reverse() + f.edge_numbers =~= f.edge_numbers);
            assert forall|n: u32| #[trigger] f.has(n) implies f.ins[n] == f.ins[n].filter(
                not_among(out@.take(0)),
            ) by {
                lemma_filter(f.ins[n], not_among(out@.take(0)));
            }
        }
        for i in 0..out.len()
            invariant
                f.wf(),
                out@ == f.out_edges(node),
                self.wf(),
                self.blocks() == old(self).blocks(),
                self.flow().numbers == f.numbers,
                self.flow().out.dom() == f.out.dom(),
                self.flow().out_edges(node) == out@.skip(i as int),
                forall|n: u32| #[trigger]
                    f.has(n) && n != node ==> self.flow().out[n] == f.out[n],
                forall|e: u32| #[trigger]
                    self.flow().edges.contains_key(e) <==> f.edges.contains_key(e)
                        && !out@.take(i as int).contains(e),
                forall|e: u32| #[trigger]
                    self.flow().edges.contains_key(e) ==> self.flow().edges[e] == f.edges[e],
                self.flow().edge_numbers == out@.take(i as int).reverse() + f.edge_numbers,
                forall|n: u32| #[trigger]
                    f.has(n) ==> self.flow().ins[n] == f.ins[n].filter(
                        not_among(out@.take(i as int)),
                    ),
        {
            let ghost g = self.flow();
            proof {
                assert(f.has(node));
                assert(f.out[node].contains(out@[i as int]));
                if out@.take(i as int).contains(out@[i as int]) {
                    let k = choose|k: int|
                        0 <= k < i && out@.take(i as int)[k] == out@[i as int];
                    assert(out@[k] == out@[i as int]);
                }
                assert(g.edges.contains_key(out@[i as int]));
                assert(out@.skip(i as int)[0] == out@[i as int]);
                lemma_filter_first(g.out[node]);
                lemma_without_edge(g, out@[i as int]);
            }
            let gone = self.remove_edge(out[i]);
            proof {
                assert(self.flow().out[node] =~= out@.skip(i + 1));
                let e = out@[i as int];
                let before = out@.take(i as int);
                let after = out@.take(i + 1);
                lemma_take_one(out@, i as int);
                assert(after.reverse() + f.edge_numbers =~= seq![e] + (before.reverse()
                    + f.edge_numbers));
                assert forall|n: u32| #[trigger] f.has(n) implies self.flow().ins[n]
                    == f.ins[n].filter(not_among(after)) by {
                    assert(g.has(n));
                    lemma_filter_twice(
                        f.ins[n],
                        not_among(before),
                        other_than(e),
                        not_among(after),
                    );
                    if n != g.edges[e].target {
                        assert forall|x: u32| #[trigger] g.ins[n].contains(x) implies other_than(e)(
                            x,
                        ) by {
                            assert(g.edges.contains_key(x) && g.edges[x].target == n);
                        }
                        lemma_filter(g.ins[n], other_than(e));
                    }
                }
            }
        }
        proof {
            let g = self.flow();
            let h = f.without_out(node);
            assert(out@.take(out@.len() as int) =~= out@);
            assert forall|e: u32| g.edges.contains_key(e) <==> h.edges.contains_key(e) by {
                if f.edges.contains_key(e) {
                    assert(f.has(f.edges[e].source));
                    if f.has(node) {
                        assert(f.out[node].contains(e) <==> f.edges[e].source == node);
                    }
                }
            }
            assert(g.edges =~= h.edges);
            if f.has(node) {
                assert(g.out[node] =~= Seq::empty());
            }
            assert forall|n: u32| h.out.contains_key(n) implies #[trigger] g.out[n]
                == h.out[n] by {
                assert(f.has(n));
            }
            assert(g.out =~= h.out);
            let keep = |e: u32| f.edges[e].source != node;
            assert(g.ins.dom() =~= h.ins.dom());
            assert forall|n: u32| h.ins.contains_key(n) implies #[trigger] g.ins[n]
                == h.ins[n] by {
                assert(f.has(n));
                let none = not_among(out@);
                assert forall|i: int| 0 <= i < f.ins[n].len() implies #[trigger] none(f.ins[n][i])
                    == keep(f.ins[n][i]) by {
                    let e = f.ins[n][i];
                    assert(f.ins[n].contains(e));
                    assert(f.has(f.edges[e].source));
                    if f.has(node) {
                        assert(f.out[node].contains(e) <==> f.edges[e].source == node);
                    }
                }
                lemma_same_filter(f.ins[n], none, keep);
                assert(h.ins[n] == f.ins[n].filter(keep));
            }
            assert(g.ins =~= h.ins);
            assert(g.edge_numbers =~= h.edge_numbers);
            assert(g =~= h);
        }
        list
    }

    pub(crate) fn set_edges(&mut self, node: u32, list: &Vec<(u32, BlockEdge)>)
        requires
            old(self).wf(),
            old(self).flow().has(node),
            forall|i: int| 0 <= i < list@.len() ==> old(self).flow().has((#[trigger] list@[i]).0),
            old(self).flow().without_out(node).edges.dom().len() + list@.len() <= u32::MAX,
        ensures
            final(self).wf(),
            final(self).blocks() == old(self).blocks(),
            final(self).flow() == old(self).flow().with_out_set(node, list@),
    {
        let gone = self.remove_edges(node);
        let ghost f = self.flow();
        for i in 0..list.len()
            invariant
                f.wf(),
                f.has(node),
                self.wf(),
                self.blocks() == old(self).blocks(),
                forall|j: int| 0 <= j < list@.len() ==> f.has((#[trigger] list@[j]).0),
                self.flow() == f.with_out(node, list@.take(i as int)),
                self.flow().out.dom() == f.out.dom(),
                self.flow().edges.dom().len() == f.edges.dom().len() + i,
                f.edges.dom().len() + list@.len() <= u32::MAX,
        {
            let ghost g = self.flow();
            let (target, weight) = list[i];
            assert(f.has((list@[i as int]).0));
            assert(g.has(target) && g.has(node));
            let e = self.add_edge(node, target, weight);
            proof {
                lemma_with_edge(g, e, Link { source: node, target, weight });
                lemma_take_one(list@, i as int);
            }
        }
        assert(list@.take(list@.len() as int) =~= list@);
    }

    pub(crate) fn node_count(&self) -> (count: usize)
        ensures
            count == self.flow().out.dom().len(),
    {
        crate::flow::node_count(&self.graph)
    }

    pub(crate) fn edge_count(&self) -> (count: usize)
        ensures
            count == self.flow().edges.dom().len(),
    {
        crate::flow::edge_count(&self.graph)
    }

    pub(crate) fn graph(&self) -> (graph: &FlowGraph)
        ensures
            flow(*graph) == self.flow(),
    {
        &self.graph
    }

    pub(crate) fn post_dominators(&mut self) -> (dominance: Dominance)
        requires
            old(self).wf(),
            old(self).flow().out.dom().len() < u32::MAX,
            old(self).flow().edges.dom().len() + old(self).flow().exits().len() <= u32::MAX,
        ensures
            final(self).wf(),
            final(self).flow() == old(self).flow(),
            final(self).blocks() == old(self).blocks(),
            is_post_dominance(
                old(self).flow(),
                dominator_chains(dominance),
                old(self).flow().next_number(),
            ),
    {
        post_dominators(&mut self.graph)
    }
}

/// A node branches where exactly two edges leave it, one for a condition that holds
/// and one for a condition that does not, whichever was added first; and these are
/// the two that are told, in this order.
pub proof fn branches_tell_then_from_else(f: Flow, node: u32)
    requires
        f.wf(),
    ensures
        f.branches(node) matches Some((t, e)) ==> {
            &&& f.edges.contains_key(t) && f.edges[t].source == node
            &&& f.edges.contains_key(e) && f.edges[e].source == node
            &&& f.edges[t].weight.branch_type == BranchType::Then
            &&& f.edges[e].weight.branch_type == BranchType::Else
            &&& forall|other: u32| #[trigger]
                f.edges.contains_key(other) && f.edges[other].source == node ==> other == t
                    || other == e
        },
        forall|t: u32, e: u32|
            {
                &&& #[trigger] f.edges.contains_key(t)
                &&& #[trigger] f.edges.contains_key(e)
                &&& f.edges[t].source == node
                &&& f.edges[e].source == node
                &&& f.edges[t].weight.branch_type == BranchType::Then
                &&& f.edges[e].weight.branch_type == BranchType::Else
                &&& forall|other: u32| #[trigger]
                    f.edges.contains_key(other) && f.edges[other].source == node ==> other == t
                        || other == e
            } ==> f.branches(node) == Some((t, e)),
{
    let out = f.out_edges(node);
    assert forall|x: u32| #[trigger] f.edges.contains_key(x) && f.edges[x].source == node implies
        out.contains(x) by {
        assert(f.has(node));
        assert(f.out[node].contains(x));
    }
    if out.len() == 2 {
        assert(f.has(node));
        assert(f.out[node].contains(out[0]) && f.out[node].contains(out[1]));
    }
    assert forall|t: u32, e: u32|
        {
            &&& #[trigger] f.edges.contains_key(t)
            &&& #[trigger] f.edges.contains_key(e)
            &&& f.edges[t].source == node
            &&& f.edges[e].source == node
            &&& f.edges[t].weight.branch_type == BranchType::Then
            &&& f.edges[e].weight.branch_type == BranchType::Else
            &&& forall|other: u32| #[trigger]
                f.edges.contains_key(other) && f.edges[other].source == node ==> other == t
                    || other == e
        } implies f.branches(node) == Some((t, e)) by {
        assert(f.has(node));
        assert(out.contains(t) && out.contains(e));
        assert(t != e);
        assert forall|i: int| 0 <= i < out.len() implies out[i] == t || out[i] == e by {
            assert(f.out[node].contains(out[i]));
        }
        if out.len() > 2 {
            assert(out[0] != out[1] && out[1] != out[2] && out[0] != out[2]);
        }
        let i = choose|i: int| 0 <= i < out.len() && out[i] == t;
        let j = choose|j: int| 0 <= j < out.len() && out[j] == e;
        assert(out.len() == 2);
    }
}

/// A node goes on where the edges that leave it lead, edge by edge.
pub proof fn nodes_go_on_where_edges_lead(f: Flow, node: u32, i: int)
    requires
        f.has(node),
    ensures
        f.successors(node).len() == f.out[node].len(),
        f.out_list(node).len() == f.out[node].len(),
        0 <= i < f.out[node].len() ==> f.successors(node)[i] == f.edges[f.out[node][i]].target
            && f.out_list(node)[i] == (
            f.edges[f.out[node][i]].target,
            f.edges[f.out[node][i]].weight,
        ),
{
}

/// Taking out the edges that leave a node takes out those and no others.
pub proof fn other_edges_stay(f: Flow, node: u32)
    requires
        f.wf(),
    ensures
        forall|e: u32| #[trigger]
            f.without_out(node).edges.contains_key(e) <==> f.edges.contains_key(e)
                && f.edges[e].source != node,
        forall|e: u32| #[trigger]
            f.without_out(node).edges.contains_key(e) ==> f.without_out(node).edges[e]
                == f.edges[e],
        f.without_out(node).out.dom() == f.out.dom(),
        forall|n: u32| #[trigger]
            f.has(n) && n != node ==> f.without_out(node).out[n] == f.out[n],
        f.has(node) ==> f.without_out(node).out[node].len() == 0,
{
    lemma_without_out(f, node);
}

/// New edges out of a node leave the edges there were as they are.
proof fn lemma_with_out_others(f: Flow, node: u32, list: Seq<(u32, BlockEdge)>)
    requires
        f.wf(),
        f.has(node),
        forall|i: int| 0 <= i < list.len() ==> f.has((#[trigger] list[i]).0),
        f.edges.dom().len() + list.len() <= u32::MAX,
    ensures
        forall|e: u32| #[trigger]
            f.edges.contains_key(e) ==> f.with_out(node, list).edges.contains_key(e) && f.with_out(
                node,
                list,
            ).edges[e] == f.edges[e],
        forall|e: u32| #[trigger]
            f.with_out(node, list).edges.contains_key(e) && !f.edges.contains_key(e)
                ==> f.with_out(node, list).edges[e].source == node,
        forall|n: u32| #[trigger]
            f.has(n) && n != node ==> f.with_out(node, list).out[n] == f.out[n],
    decreases list.len(),
{
    if list.len() > 0 {
        let front = list.drop_last();
        assert forall|i: int| 0 <= i < front.len() implies f.has((#[trigger] front[i]).0) by {
            assert(front[i] == list[i]);
        }
        lemma_with_out_others(f, node, front);
        lemma_with_out(f, node, front);
        let g = f.with_out(node, front);
        let e = g.next_edge_number();
        assert(!g.edges.contains_key(g.edge_numbers[0]));
        assert forall|x: u32| #[trigger] f.edges.contains_key(x) implies x != e by {
            assert(g.edges.contains_key(x));
        }
    }
}

/// Replacing the edges that leave a node gives it those listed, the last of the list
/// first, and touches no others.
pub proof fn replaced_edges_are_those_listed(f: Flow, node: u32, list: Seq<(u32, BlockEdge)>)
    requires
        f.wf(),
        f.has(node),
        forall|i: int| 0 <= i < list.len() ==> f.has((#[trigger] list[i]).0),
        f.without_out(node).edges.dom().len() + list.len() <= u32::MAX,
    ensures
        f.with_out_set(node, list).wf(),
        f.with_out_set(node, list).out.dom() == f.out.dom(),
        f.with_out_set(node, list).out[node].len() == list.len(),
        forall|i: int|
            0 <= i < list.len() ==> f.with_out_set(node, list).edges[
                #[trigger] f.with_out_set(node, list).out[node][i]
            ] == (Link {
                source: node,
                target: list[list.len() - 1 - i].0,
                weight: list[list.len() - 1 - i].1,
            }),
        forall|n: u32| #[trigger]
            f.has(n) && n != node ==> f.with_out_set(node, list).out[n] == f.out[n],
        forall|e: u32| #[trigger]
            f.edges.contains_key(e) && f.edges[e].source != node ==> f.with_out_set(
                node,
                list,
            ).edges.contains_key(e) && f.with_out_set(node, list).edges[e] == f.edges[e],
        forall|e: u32| #[trigger]
            f.with_out_set(node, list).edges.contains_key(e) && f.with_out_set(
                node,
                list,
            ).edges[e].source != node ==> f.edges.contains_key(e),
{
    let g = f.without_out(node);
    let h = f.with_out_set(node, list);
    lemma_without_out(f, node);
    other_edges_stay(f, node);
    lemma_with_out(g, node, list);
    lemma_with_out_others(g, node, list);
    assert(h.has(node));
    assert(h.out_list(node).len() == list.len());
    assert forall|i: int| 0 <= i < list.len() implies h.edges[#[trigger] h.out[node][i]] == (Link {
        source: node,
        target: list[list.len() - 1 - i].0,
        weight: list[list.len() - 1 - i].1,
    }) by {
        assert(h.out[node].contains(h.out[node][i]));
        assert(h.out_list(node)[i] == list.reverse()[i]);
    }
    assert forall|n: u32| #[trigger] f.has(n) && n != node implies h.out[n] == f.out[n] by {
        assert(g.has(n));
        assert(g.out[n] == f.out[n]);
    }
    assert forall|e: u32| #[trigger] f.edges.contains_key(e) && f.edges[e].source != node implies
        h.edges.contains_key(e) && h.edges[e] == f.edges[e] by {
        assert(g.edges.contains_key(e));
    }
    assert forall|e: u32| #[trigger]
        h.edges.contains_key(e) && h.edges[e].source != node implies f.edges.contains_key(e) by {
        assert(g.edges.contains_key(e));
    }
}

/// The blocks of a graph are those in its slots, each with all of its statements.
pub proof fn blocks_are_those_in_the_slots(slots: Seq<Option<Block>>, n: u32, block: Block)
    ensures
        blocks_view(slots).contains_key(n) <==> n < slots.len() && slots[n as int] is Some,
        n < slots.len() && slots[n as int] == Some(block) ==> blocks_view(slots)[n]
            == statements_view(block.0@),
{
}

/// The edges that arrive at a node are those that lead to it, from wherever.
pub proof fn edges_arrive_where_they_lead(f: Flow, node: u32, e: u32)
    ensures
        f.incoming(node).contains(e) <==> f.edges.contains_key(e) && f.edges[e].target == node,
{
}

} // verus!
