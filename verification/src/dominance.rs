//! Post-dominance: which nodes every way out of a function passes through.

use vstd::prelude::*;

use crate::flow::{
    add_edge, add_node, ascending, dominator_chains, flow, lemma_with_edge, lemma_with_node,
    node_indices, out_edges, remove_node, reversed_dominators, BlockEdge, BranchType, Dominance,
    Flow, FlowGraph, Link,
};
use crate::lists::{lemma_filter, lemma_push_one, lemma_take_one};

verus! {

impl Flow {
    /// The nodes that no edge leaves.
    pub open spec fn exits(self) -> Set<u32> {
        Set::new(|n: u32| self.has(n) && self.out[n].len() == 0)
    }

    /// Some path from `node` ends at a node that no edge leaves.
    pub open spec fn escapes(self, node: u32) -> bool {
        exists|exit: u32| #[trigger] self.exits().contains(exit) && self.reaches(node, exit)
    }

    /// Every path from `node` to a node that no edge leaves passes through
    /// `other`.
    pub open spec fn unavoidable(self, other: u32, node: u32) -> bool {
        forall|path: Seq<u32>, exit: u32|
            self.exits().contains(exit) && #[trigger] self.is_path(path, node, exit)
                ==> path.contains(other)
    }

    /// Among post-dominators, `earlier` comes before `later`, and nothing behind
    /// the common end.
    pub open spec fn comes_before(self, earlier: u32, later: u32, end: u32) -> bool {
        earlier != end && (later == end || self.unavoidable(later, earlier))
    }

    /// `g` is this graph with one more node, `end`, and an edge to it from each
    /// node of `done`.
    spec fn extended(self, g: Flow, end: u32, done: Set<u32>) -> bool {
        &&& g.wf()
        &&& !self.has(end)
        &&& self.numbers == seq![end] + g.numbers
        &&& self.edge_numbers == g.ins[end].reverse() + g.edge_numbers
        &&& forall|n: u32| #[trigger] self.has(n) ==> g.ins[n] == self.ins[n]
        &&& done.subset_of(self.exits())
        &&& g.out.dom() == self.out.dom().insert(end)
        &&& g.out[end].len() == 0
        &&& forall|e: u32| #[trigger]
            self.edges.contains_key(e) ==> g.edges.contains_key(e) && g.edges[e] == self.edges[e]
        &&& forall|e: u32| #[trigger]
            g.edges.contains_key(e) && !self.edges.contains_key(e) ==> g.edges[e].target == end
                && done.contains(g.edges[e].source)
        &&& forall|n: u32| #[trigger]
            self.has(n) && !done.contains(n) ==> g.out[n] == self.out[n]
        &&& forall|n: u32| #[trigger]
            done.contains(n) ==> g.out[n].len() == 1 && g.edges.contains_key(g.out[n][0])
                && g.edges[g.out[n][0]].source == n && g.edges[g.out[n][0]].target == end
    }
}

proof fn lemma_extended_start(f: Flow, end: u32)
    requires
        f.wf(),
        f.numbers.len() > 0,
        end == f.next_number(),
    ensures
        f.extended(f.with_node(end), end, Set::empty()),
{
    lemma_with_node(f, end);
    assert(f.numbers =~= seq![end] + f.with_node(end).numbers);
    assert(f.edge_numbers =~= f.with_node(end).ins[end].reverse() + f.edge_numbers);
    assert(f.with_node(end).out.dom() =~= f.out.dom().insert(end));
}

proof fn lemma_extended_step(f: Flow, g: Flow, end: u32, done: Set<u32>, exit: u32, e: u32)
    requires
        f.wf(),
        f.extended(g, end, done),
        f.exits().contains(exit),
        !done.contains(exit),
        g.edge_numbers.len() > 0,
        e == g.next_edge_number(),
    ensures
        f.extended(
            g.with_edge(
                e,
                Link {
                    source: exit,
                    target: end,
                    weight: BlockEdge { branch_type: BranchType::Unconditional },
                },
            ),
            end,
            done.insert(exit),
        ),
{
    let weight = BlockEdge { branch_type: BranchType::Unconditional };
    let link = Link { source: exit, target: end, weight };
    let h = g.with_edge(e, link);
    assert(g.has(exit));
    assert(g.has(end));
    lemma_with_edge(g, e, link);
    assert(h.out.dom() =~= f.out.dom().insert(end));
    assert(h.ins[end] == seq![e] + g.ins[end]);
    assert(h.ins[end].reverse() + h.edge_numbers =~= g.ins[end].reverse() + g.edge_numbers);
    assert(g.out[exit] == f.out[exit]);
    assert(h.out[exit] =~= seq![e]);
    assert forall|n: u32| #[trigger] done.insert(exit).contains(n) implies h.out[n].len() == 1
        && h.edges.contains_key(h.out[n][0]) && h.edges[h.out[n][0]].source == n
        && h.edges[h.out[n][0]].target == end by {
        if n != exit {
            assert(done.contains(n));
            assert(f.has(n));
        }
    }
    assert forall|n: u32| #[trigger] f.has(n) && !done.insert(exit).contains(n) implies h.out[n]
        == f.out[n] by {}
}

/// Taking the additional node out again gives the graph back.
proof fn lemma_extended_undo(f: Flow, g: Flow, end: u32, done: Set<u32>)
    requires
        f.wf(),
        f.extended(g, end, done),
    ensures
        g.without_node(end) == f,
{
    let h = g.without_node(end);
    let keep = |e: u32| g.edges[e].target != end;
    assert forall|e: u32| h.edges.contains_key(e) <==> f.edges.contains_key(e) by {
        if f.edges.contains_key(e) {
            assert(g.edges.contains_key(e));
            assert(f.has(f.edges[e].source) && f.has(f.edges[e].target));
        }
    }
    assert(h.edges =~= f.edges);
    assert(h.out.dom() =~= f.out.dom());
    assert forall|n: u32| f.has(n) implies #[trigger] h.out[n] == f.out[n] by {
        assert(h.out[n] == g.out[n].filter(keep));
        lemma_filter(g.out[n], keep);
        if done.contains(n) {
            assert(f.exits().contains(n));
            let list = g.out[n];
            if list.filter(keep).len() > 0 {
                let x = list.filter(keep)[0];
                assert(list.filter(keep).contains(x));
                assert(list.contains(x) && keep(x));
                assert(x == list[0]);
            }
            assert(h.out[n] =~= f.out[n]);
        } else {
            assert forall|x: u32| #[trigger] g.out[n].contains(x) implies keep(x) by {
                assert(f.out[n].contains(x));
                assert(f.edges.contains_key(x));
                assert(f.has(f.edges[x].target));
            }
        }
    }
    assert(h.out =~= f.out);
    let keep_in = |e: u32| g.edges[e].source != end;
    assert(h.ins.dom() =~= f.ins.dom());
    assert forall|n: u32| #[trigger] g.has(n) implies g.ins[n].filter(keep_in) == g.ins[n] by {
        assert forall|x: u32| #[trigger] g.ins[n].contains(x) implies keep_in(x) by {
            assert(g.edges.contains_key(x));
            if g.edges[x].source == end {
                assert(g.out[end].contains(x));
            }
        }
        lemma_filter(g.ins[n], keep_in);
    }
    assert forall|n: u32| f.ins.contains_key(n) implies #[trigger] h.ins[n] == f.ins[n] by {
        assert(f.has(n));
        assert(g.has(n));
        assert(h.ins[n] == g.ins[n].filter(keep_in));
    }
    assert(h.ins =~= f.ins);
    assert(g.has(end));
    assert(g.gone_with(end) =~= g.ins[end]);
    assert(h.edge_numbers =~= f.edge_numbers);
    assert(h.numbers =~= f.numbers);
}

/// The steps of the extended graph.
proof fn lemma_extended_leads(f: Flow, g: Flow, end: u32, a: u32, b: u32)
    requires
        f.wf(),
        f.extended(g, end, f.exits()),
    ensures
        b != end ==> (g.leads(a, b) <==> f.leads(a, b)),
        b == end ==> (g.leads(a, b) <==> f.exits().contains(a)),
        !g.leads(end, b),
        !f.leads(a, end),
{
    if f.leads(a, b) {
        let e = choose|e: u32| #[trigger]
            f.edges.contains_key(e) && f.edges[e].source == a && f.edges[e].target == b;
        assert(g.edges.contains_key(e));
    }
    if f.leads(a, end) {
        let e = choose|e: u32| #[trigger]
            f.edges.contains_key(e) && f.edges[e].source == a && f.edges[e].target == end;
        assert(f.has(f.edges[e].target));
    }
    if g.leads(a, b) {
        let e = choose|e: u32| #[trigger]
            g.edges.contains_key(e) && g.edges[e].source == a && g.edges[e].target == b;
        if f.edges.contains_key(e) {
            assert(f.has(f.edges[e].target));
        }
    }
    if g.leads(end, b) {
        let e = choose|e: u32| #[trigger]
            g.edges.contains_key(e) && g.edges[e].source == end && g.edges[e].target == b;
        assert(g.has(end));
        assert(g.out[end].contains(e));
    }
    if f.exits().contains(a) {
        assert(g.edges.contains_key(g.out[a][0]));
    }
}

/// A path to the additional node is a path to an exit, and one step.
proof fn lemma_extended_path(f: Flow, g: Flow, end: u32, path: Seq<u32>, node: u32)
    requires
        f.wf(),
        f.extended(g, end, f.exits()),
        node != end,
        g.is_path(path, node, end),
    ensures
        path.len() >= 2,
        f.exits().contains(path[path.len() - 2]),
        f.is_path(path.drop_last(), node, path[path.len() - 2]),
        forall|i: int| 0 <= i < path.len() - 1 ==> path[i] != end,
{
    let front = path.drop_last();
    assert(path.len() >= 2);
    assert forall|i: int| 0 <= i < path.len() - 1 implies path[i] != end by {
        assert(g.leads(path[i], path[i + 1]));
        lemma_extended_leads(f, g, end, path[i], path[i + 1]);
    }
    let exit = path[path.len() - 2];
    assert(g.leads(path[path.len() - 2], path[path.len() - 2 + 1]));
    lemma_extended_leads(f, g, end, exit, end);
    assert forall|i: int| 0 <= i < front.len() - 1 implies f.leads(
        #[trigger] front[i],
        front[i + 1],
    ) by {
        assert(g.leads(path[i], path[i + 1]));
        lemma_extended_leads(f, g, end, path[i], path[i + 1]);
        assert(path[i + 1] != end);
    }
}

/// A path to an exit goes on to the additional node.
proof fn lemma_extended_path_back(
    f: Flow,
    g: Flow,
    end: u32,
    path: Seq<u32>,
    node: u32,
    exit: u32,
)
    requires
        f.wf(),
        f.extended(g, end, f.exits()),
        f.exits().contains(exit),
        f.is_path(path, node, exit),
    ensures
        g.is_path(path.push(end), node, end),
{
    let long = path.push(end);
    assert forall|i: int| 0 <= i < long.len() - 1 implies g.leads(
        #[trigger] long[i],
        long[i + 1],
    ) by {
        if i < path.len() - 1 {
            assert(f.leads(path[i], path[i + 1]));
            lemma_extended_leads(f, g, end, path[i], path[i + 1]);
        } else {
            lemma_extended_leads(f, g, end, exit, end);
        }
    }
}

/// What dominates backwards from the additional node is what no way out avoids.
proof fn lemma_extended_dominance(f: Flow, g: Flow, end: u32, node: u32, other: u32)
    requires
        f.wf(),
        f.extended(g, end, f.exits()),
        node != end,
    ensures
        g.reaches(node, end) <==> f.escapes(node),
        g.post_dominates(end, end, node),
        other != end ==> (g.post_dominates(end, other, node) <==> f.unavoidable(other, node)),
{
    if g.reaches(node, end) {
        let path = choose|path: Seq<u32>| g.is_path(path, node, end);
        lemma_extended_path(f, g, end, path, node);
        assert(f.exits().contains(path[path.len() - 2]));
    }
    if f.escapes(node) {
        let exit = choose|exit: u32| #[trigger] f.exits().contains(exit) && f.reaches(node, exit);
        let path = choose|path: Seq<u32>| f.is_path(path, node, exit);
        lemma_extended_path_back(f, g, end, path, node, exit);
    }
    assert forall|path: Seq<u32>| #[trigger] g.is_path(path, node, end) implies path.contains(
        end,
    ) by {
        assert(path[path.len() - 1] == end);
    }
    if other != end {
        if f.unavoidable(other, node) {
            assert forall|path: Seq<u32>| #[trigger]
                g.is_path(path, node, end) implies path.contains(other) by {
                lemma_extended_path(f, g, end, path, node);
                let front = path.drop_last();
                assert(front.contains(other));
                let i = choose|i: int| 0 <= i < front.len() && front[i] == other;
                assert(path[i] == other);
            }
        }
        if g.post_dominates(end, other, node) {
            assert forall|path: Seq<u32>, exit: u32|
                f.exits().contains(exit) && #[trigger] f.is_path(
                    path,
                    node,
                    exit,
                ) implies path.contains(other) by {
                lemma_extended_path_back(f, g, end, path, node, exit);
                let long = path.push(end);
                assert(long.contains(other));
                let i = choose|i: int| 0 <= i < long.len() && long[i] == other;
                assert(path[i] == other);
            }
        }
    }
}

/// The additional node has itself as its only dominator.
proof fn lemma_extended_end(f: Flow, g: Flow, end: u32, other: u32)
    requires
        f.wf(),
        f.extended(g, end, f.exits()),
    ensures
        g.reaches(end, end),
        g.post_dominates(end, other, end) <==> other == end,
{
    let path = seq![end];
    assert(g.is_path(path, end, end));
    if other != end {
        assert(!path.contains(other));
    }
    assert forall|p: Seq<u32>| #[trigger] g.is_path(p, end, end) implies p.contains(end) by {
        assert(p[0] == end);
    }
}

/// What the result of [`post_dominators`] says: `end` stands for the common end
/// of all ways out, a node is known where it has a way out, and its
/// post-dominators are the nodes that no way out avoids, from the node itself on,
/// each before those that no way out from it avoids.
pub open spec fn is_post_dominance(f: Flow, chains: Map<u32, Seq<u32>>, end: u32) -> bool {
    &&& !f.has(end)
    &&& forall|n: u32| #[trigger] chains.contains_key(n) <==> n == end || f.escapes(n)
    &&& forall|n: u32, other: u32|
        chains.contains_key(n) ==> (#[trigger] chains[n].contains(other) <==> other == end || (n
            != end && f.unavoidable(other, n)))
    &&& forall|n: u32| #[trigger]
        chains.contains_key(n) ==> chains[n].no_duplicates() && chains[n].len() > 0
            && chains[n][0] == n
    &&& forall|n: u32, i: int, j: int|
        chains.contains_key(n) && 0 <= i < j < chains[n].len() ==> f.comes_before(
            #[trigger] chains[n][i],
            #[trigger] chains[n][j],
            end,
        )
}

/// Finds the post-dominators of a graph, which is as before in the end.
pub fn post_dominators(graph: &mut FlowGraph) -> (dominance: Dominance)
    requires
        flow(*old(graph)).wf(),
        flow(*old(graph)).out.dom().len() < u32::MAX,
        flow(*old(graph)).edges.dom().len() + flow(*old(graph)).exits().len() <= u32::MAX,
    ensures
        flow(*final(graph)) == flow(*old(graph)),
        is_post_dominance(
            flow(*old(graph)),
            dominator_chains(dominance),
            flow(*old(graph)).next_number(),
        ),
{
    let ghost f = flow(*graph);
    let nodes = node_indices(graph);
    let mut exits: Vec<u32> = Vec::new();
    for i in 0..nodes.len()
        invariant
            f == flow(*graph),
            f.wf(),
            ascending(nodes@, f.out.dom()),
            forall|n: u32| #[trigger]
                exits@.contains(n) ==> f.exits().contains(n) && nodes@.take(i as int).contains(n),
            forall|j: int|
                0 <= j < i && f.exits().contains(#[trigger] nodes@[j]) ==> exits@.contains(
                    nodes@[j],
                ),
            exits@.no_duplicates(),
    {
        let node = nodes[i];
        proof {
            assert(nodes@.contains(node));
            assert(f.has(node));
            lemma_take_one(nodes@, i as int);
            assert(!exits@.contains(node));
        }
        if out_edges(graph, node).len() == 0 {
            let ghost so_far = exits@;
            exits.push(node);
            proof {
                lemma_push_one(so_far, node);
            }
        }
    }
    proof {
        assert forall|n: u32| exits@.contains(n) <==> #[trigger] f.exits().contains(n) by {
            if f.exits().contains(n) {
                assert(f.out.dom().contains(n));
                assert(nodes@.contains(n));
                let k = choose|k: int| 0 <= k < nodes@.len() && nodes@[k] == n;
                assert(exits@.contains(nodes@[k]));
            }
        }
        assert(exits@.to_set() =~= f.exits());
        exits@.unique_seq_to_set();
    }
    let end = add_node(graph);
    proof {
        lemma_extended_start(f, end);
        assert(exits@.take(0).to_set() =~= Set::<u32>::empty());
    }
    for i in 0..exits.len()
        invariant
            f.wf(),
            f.extended(flow(*graph), end, exits@.take(i as int).to_set()),
            exits@.no_duplicates(),
            exits@.to_set() == f.exits(),
            exits@.len() == f.exits().len(),
            flow(*graph).edges.dom().len() == f.edges.dom().len() + i,
            f.edges.dom().len() + f.exits().len() <= u32::MAX,
    {
        let ghost done = exits@.take(i as int).to_set();
        let ghost g = flow(*graph);
        proof {
            assert(exits@.contains(exits@[i as int]));
            assert(f.exits().contains(exits@[i as int]));
            lemma_take_one(exits@, i as int);
            assert(!done.contains(exits@[i as int]));
            assert(g.has(exits@[i as int]));
            assert(g.has(end));
        }
        let e = add_edge(graph, exits[i], end, BlockEdge::default());
        proof {
            lemma_extended_step(f, g, end, done, exits@[i as int], e);
            lemma_with_edge(
                g,
                e,
                Link {
                    source: exits@[i as int],
                    target: end,
                    weight: BlockEdge { branch_type: BranchType::Unconditional },
                },
            );
        }
    }
    let ghost g = flow(*graph);
    assert(exits@.take(exits@.len() as int) =~= exits@);
    assert(g.has(end));
    let dominance = reversed_dominators(graph, end);
    let found = remove_node(graph, end);
    proof {
        lemma_extended_undo(f, g, end, f.exits());
        let chains = dominator_chains(dominance);
        assert forall|n: u32| #[trigger] chains.contains_key(n) <==> n == end || f.escapes(n) by {
            lemma_extended_end(f, g, end, n);
            if n != end {
                lemma_extended_dominance(f, g, end, n, n);
            }
        }
        assert forall|n: u32, other: u32| chains.contains_key(n) implies (
        #[trigger] chains[n].contains(other) <==> other == end || (n != end && f.unavoidable(
            other,
            n,
        ))) by {
            lemma_extended_end(f, g, end, other);
            if n != end {
                lemma_extended_dominance(f, g, end, n, other);
            }
        }
        assert forall|n: u32, i: int, j: int|
            chains.contains_key(n) && 0 <= i < j < chains[n].len() implies f.comes_before(
            #[trigger] chains[n][i],
            #[trigger] chains[n][j],
            end,
        ) by {
            let earlier = chains[n][i];
            let later = chains[n][j];
            assert(earlier != later);
            assert(g.post_dominates(end, later, earlier));
            lemma_extended_end(f, g, end, later);
            if earlier != end {
                lemma_extended_dominance(f, g, end, earlier, later);
            }
        }
        assert(is_post_dominance(f, chains, end));
    }
    dominance
}

/// The nodes that no edge leaves.
pub proof fn no_edge_leaves_an_exit(f: Flow, n: u32)
    requires
        f.wf(),
    ensures
        f.exits().contains(n) <==> f.has(n) && forall|e: u32| #[trigger]
            f.edges.contains_key(e) ==> f.edges[e].source != n,
{
    if f.has(n) {
        if f.out[n].len() > 0 {
            assert(f.out[n].contains(f.out[n][0]));
            assert(f.edges.contains_key(f.out[n][0]));
        } else {
            assert forall|e: u32| #[trigger] f.edges.contains_key(e) implies f.edges[e].source
                != n by {
                assert(!f.out[n].contains(e));
            }
        }
    }
}

/// Post-dominators are known of exactly the nodes with a way out, and are the nodes
/// that no way out avoids, besides the common end.
pub proof fn post_dominators_cannot_be_avoided(
    f: Flow,
    chains: Map<u32, Seq<u32>>,
    end: u32,
    n: u32,
    other: u32,
)
    requires
        is_post_dominance(f, chains, end),
        n != end,
        other != end,
    ensures
        chains.contains_key(n) <==> exists|exit: u32|
            f.exits().contains(exit) && #[trigger] f.reaches(n, exit),
        chains.contains_key(n) ==> (chains[n].contains(other) <==> forall|
            path: Seq<u32>,
            exit: u32,
        |
            f.exits().contains(exit) && #[trigger] f.is_path(path, n, exit) ==> path.contains(
                other,
            )),
        chains.contains_key(n) ==> chains[n][0] == n && chains[n].contains(end),
{
    assert(chains.contains_key(n) <==> n == end || f.escapes(n));
    if chains.contains_key(n) {
        assert(chains[n].contains(end));
        let exit = choose|exit: u32| #[trigger] f.exits().contains(exit) && f.reaches(n, exit);
        assert(f.reaches(n, exit));
    }
}

} // verus!
