//! Giving up an edge: what takes its place in the text.

use vstd::prelude::*;

use crate::ast::{Goto, Label, Statement, Stmt};
use crate::blocks::lemma_without_out;
use crate::cfg::FunctionView;
use crate::flow::{
    lemma_with_node, lemma_without_edge, lemma_without_node, BranchType, Flow, Link,
};
use crate::inspect::{inlineable, labelled, labels_in};
use crate::lists::{lemma_filter, lemma_same_filter};
use crate::structurer::{remapped, GraphStructurer, StructurerView};
use crate::text::jump_label;

verus! {

impl StructurerView {
    pub open spec fn edge(self, e: u32) -> Link {
        self.function.flow.edges[e]
    }

    /// The only way to the target of `e` is `e`, and it is always taken: the
    /// target can be joined to the source.
    pub open spec fn merges(self, e: u32) -> bool {
        &&& self.edge(e).weight.branch_type == BranchType::Unconditional
        &&& self.function.flow.incoming(self.edge(e).target).len() == 1
    }

    /// The target of `e` can be repeated at the source.
    pub open spec fn inlines(self, e: u32, for_next: bool) -> bool {
        let target = self.edge(e).target;
        &&& self.function.entry != Some(target)
        &&& !self.loop_headers.contains(target)
        &&& !for_next
        &&& inlineable(self.function.blocks[target]) is Some
    }

    /// The edge can be given up: a block that is joined to another has no other
    /// way out than the edge, and there are numbers left for what is added.
    pub open spec fn can_give_up(self, e: u32, for_next: bool) -> bool {
        let flow = self.function.flow;
        let source = self.edge(e).source;
        let target = self.edge(e).target;
        &&& flow.edges.contains_key(e)
        &&& flow.edges.dom().len() <= u32::MAX
        &&& if self.merges(e) {
            source != target && flow.out_edges(source).len() == 1
        } else if self.inlines(e, for_next) {
            flow.without_out(source).edges.dom().len() + flow.out_list(target).len() <= u32::MAX
        } else {
            flow.out.dom().len() < u32::MAX
        }
    }

    /// With the target of `e` joined to the source.
    pub open spec fn merged(self, e: u32) -> StructurerView {
        let f = self.function;
        let source = self.edge(e).source;
        let target = self.edge(e).target;
        self.with_function(
            FunctionView {
                flow: f.flow.without_node(target).with_out_set(source, f.flow.out_list(target)),
                blocks: f.blocks.remove(target).insert(
                    source,
                    f.blocks[source] + f.blocks[target],
                ),
                ..f
            },
        ).with_labels(remapped(self.labels, labels_in(f.blocks[target]), source))
    }

    /// With the target of `e` repeated at the source, which goes on where the target
    /// goes on.
    pub open spec fn inlined(self, e: u32) -> StructurerView {
        let f = self.function;
        let source = self.edge(e).source;
        let target = self.edge(e).target;
        self.with_function(
            f.with_block(source, f.blocks[source] + inlineable(f.blocks[target])->0).with_flow(
                f.flow.with_out_set(source, f.flow.out_list(target)),
            ),
        )
    }

    /// The target has a label; where it had none, the one that jumps to it use.
    pub open spec fn with_target_label(self, target: u32) -> StructurerView {
        if labelled(self.function.blocks[target]) {
            self
        } else {
            self.with_function(
                self.function.with_block(
                    target,
                    seq![Stmt::Label { name: jump_label(target) }] + self.function.blocks[target],
                ),
            ).with_labels(self.labels.insert(jump_label(target), target))
        }
    }

    /// With a new block that jumps to the target of `e`, to which `e` leads instead.
    pub open spec fn jumped(self, e: u32) -> StructurerView {
        let link = self.edge(e);
        let named = self.with_target_label(link.target);
        let jump = self.function.flow.next_number();
        named.with_function(
            named.function.with_block(
                jump,
                seq![Stmt::Goto { label: jump_label(link.target) }],
            ).with_flow(
                self.function.flow.with_node(jump).without_edge(e).with_edge(
                    e,
                    Link { target: jump, ..link },
                ),
            ),
        )
    }

    /// What giving up the edge `e` makes of the function.
    pub open spec fn given_up(self, e: u32, for_next: bool) -> StructurerView {
        if self.merges(e) {
            self.merged(e)
        } else if self.inlines(e, for_next) {
            self.inlined(e)
        } else {
            self.jumped(e)
        }
    }
}

/// A node goes as well without its own edges as with them.
proof fn lemma_cut_off(f: Flow, node: u32)
    requires
        f.wf(),
    ensures
        f.without_out(node).without_node(node) == f.without_node(node),
{
    let g = f.without_out(node);
    let a = g.without_node(node);
    let b = f.without_node(node);
    assert(a.edges =~= b.edges);
    assert(a.out.dom() =~= b.out.dom());
    assert(a.ins.dom() =~= b.ins.dom());
    let to_a = |e: u32| g.edges[e].target != node;
    let to_b = |e: u32| f.edges[e].target != node;
    let from_a = |e: u32| g.edges[e].source != node;
    let from_b = |e: u32| f.edges[e].source != node;
    assert forall|n: u32| b.out.contains_key(n) implies #[trigger] a.out[n] == b.out[n] by {
        assert(f.has(n));
        assert forall|i: int| 0 <= i < f.out[n].len() implies #[trigger] to_a(f.out[n][i]) == to_b(
            f.out[n][i],
        ) by {
            assert(f.out[n].contains(f.out[n][i]));
        }
        lemma_same_filter(f.out[n], to_a, to_b);
        assert(a.out[n] == f.out[n].filter(to_a));
        assert(b.out[n] == f.out[n].filter(to_b));
    }
    assert(a.out =~= b.out);
    assert forall|n: u32| #[trigger] f.has(n) implies g.ins[n].filter(from_a) == f.ins[n].filter(
        from_b,
    ) by {
        assert(g.ins[n] == f.ins[n].filter(from_b));
        lemma_filter(f.ins[n], from_b);
        assert forall|x: u32| #[trigger] g.ins[n].contains(x) implies from_a(x) by {
            assert(f.ins[n].contains(x));
            assert(f.edges.contains_key(x));
        }
        lemma_filter(g.ins[n], from_a);
    }
    assert forall|n: u32| b.ins.contains_key(n) implies #[trigger] a.ins[n] == b.ins[n] by {
        assert(f.has(n));
        assert(a.ins[n] == g.ins[n].filter(from_a));
        assert(b.ins[n] == f.ins[n].filter(from_b));
    }
    assert(a.ins =~= b.ins);
    if f.has(node) {
        let own = f.out[node];
        let arriving = f.ins[node].filter(from_b);
        assert(g.ins[node].filter(from_a) == arriving);
        assert(g.gone_with(node) =~= arriving);
        assert(f.gone_with(node) == own + arriving);
        assert(arriving.reverse() + (own.reverse() + f.edge_numbers) =~= (own
            + arriving).reverse() + f.edge_numbers);
    } else {
        assert(f.gone_with(node) =~= Seq::<u32>::empty()) by {
            reveal(Seq::filter);
        }
        assert(g.gone_with(node) =~= Seq::<u32>::empty()) by {
            reveal(Seq::filter);
        }
        assert(a.edge_numbers =~= b.edge_numbers);
    }
}

/// Joining a block to its only predecessor needs no new edge numbers, and where
/// it goes on is somewhere else.
pub proof fn lemma_merge_room(f: Flow, e: u32)
    requires
        f.wf(),
        f.edges.contains_key(e),
        f.incoming(f.edges[e].target).len() == 1,
        f.edges[e].source != f.edges[e].target,
        f.edges.dom().len() <= u32::MAX,
    ensures
        f.without_node(f.edges[e].target).wf(),
        f.without_node(f.edges[e].target).has(f.edges[e].source),
        forall|i: int|
            0 <= i < f.out_list(f.edges[e].target).len() ==> f.without_node(
                f.edges[e].target,
            ).has((#[trigger] f.out_list(f.edges[e].target)[i]).0),
        f.without_node(f.edges[e].target).without_out(f.edges[e].source).edges.dom().len()
            + f.out_list(f.edges[e].target).len() <= u32::MAX,
{
    let source = f.edges[e].source;
    let target = f.edges[e].target;
    let g = f.without_node(target);
    assert(f.has(source) && f.has(target));
    lemma_without_node(f, target);
    lemma_without_out(g, source);
    let list = f.out_list(target);
    assert forall|i: int| 0 <= i < list.len() implies g.has((#[trigger] list[i]).0) by {
        let x = f.out[target][i];
        assert(f.out[target].contains(x));
        assert(f.edges.contains_key(x) && f.edges[x].source == target);
        if f.edges[x].target == target {
            assert(f.incoming(target).contains(x));
            assert(f.incoming(target).contains(e));
            assert(f.incoming(target).subset_of(f.edges.dom()));
            vstd::set_lib::lemma_set_subset_finite(f.edges.dom(), f.incoming(target));
            Set::lemma_is_singleton(f.incoming(target));
        }
        assert(f.has(f.edges[x].target));
    }
    let rest = g.without_out(source).edges.dom();
    let own = f.out[target].to_set();
    assert(rest.disjoint(own)) by {
        assert forall|x: u32| !(rest.contains(x) && own.contains(x)) by {
            if own.contains(x) {
                assert(f.out[target].contains(x));
            }
        }
    }
    f.out[target].unique_seq_to_set();
    assert(own.subset_of(f.edges.dom())) by {
        assert forall|x: u32| own.contains(x) implies f.edges.dom().contains(x) by {
            assert(f.out[target].contains(x));
        }
    }
    assert(rest.subset_of(f.edges.dom()));
    vstd::set_lib::lemma_set_subset_finite(f.edges.dom(), rest);
    vstd::set_lib::lemma_set_subset_finite(f.edges.dom(), own);
    vstd::set_lib::lemma_set_disjoint_lens(rest, own);
    assert((rest + own).subset_of(f.edges.dom()));
    vstd::set_lib::lemma_len_subset(rest + own, f.edges.dom());
}

impl GraphStructurer {
    /// Gives up the edge `edge`: joins its target to its source where there is
    /// no other way to it, repeats the target where that can be, and puts a jump
    /// in its place otherwise.  `for_next` tells whether the target is the head
    /// of a counting or iterating loop.
    pub fn insert_goto_for_edge(&mut self, edge: u32, for_next: bool)
        requires
            old(self)@.can_give_up(edge, for_next),
        ensures
            final(self)@ == old(self)@.given_up(edge, for_next),
    {
        let ghost before = self@;
        let ghost f = self@.function;
        proof {
            use_type_invariant(&self.function);
            self.lemma_view();
        }
        let (source, target) = self.function.edge_endpoints(edge).unwrap();
        let weight = self.function.edge_weight(edge).unwrap();
        proof {
            assert(f.flow.has(source) && f.flow.has(target));
        }
        if weight.branch_type == BranchType::Unconditional && self.function.predecessor_count(
            target,
        ) == 1 {
            proof {
                lemma_merge_room(f.flow, edge);
                lemma_cut_off(f.flow, target);
            }
            let edges = self.function.remove_edges(target);
            let block = self.function.remove_block(target).unwrap();
            proof {
                self.lemma_view();
            }
            self.remap_labels(&block, source);
            proof {
                self.lemma_view();
            }
            self.function.extend(source, block);
            self.function.set_edges(source, edges);
            proof {
                self.lemma_view();
                assert(self@.function.blocks =~= f.blocks.remove(target).insert(
                    source,
                    f.blocks[source] + f.blocks[target],
                ));
                assert(self@ =~= before.merged(edge));
            }
            return;
        }
        if self.function.entry() != Some(target) && !self.is_loop_header(target) && !for_next {
            if let Some(block) = Self::inlineable_block(self.function.block(target).unwrap()) {
                let edges = self.function.edges(target);
                proof {
                    assert forall|i: int| 0 <= i < edges@.len() implies f.flow.has(
                        (#[trigger] edges@[i]).0,
                    ) by {
                        let x = f.flow.out[target][i];
                        assert(f.flow.out[target].contains(x));
                        assert(f.flow.edges.contains_key(x));
                    }
                }
                self.function.extend(source, block);
                self.function.set_edges(source, edges);
                proof {
                    self.lemma_view();
                    assert(self@ =~= before.inlined(edge));
                }
                return;
            }
        }
        let label = crate::text::to_jump_label(target);
        if !Self::starts_with_label(self.function.block(target).unwrap()) {
            crate::tables::insert_label(&mut self.label_to_node, label.clone(), target);
            self.function.push_front(target, Statement::Label(Label(label.clone())));
        }
        proof {
            self.lemma_view();
            assert(self@ =~= before.with_target_label(target));
        }
        let ghost named = self@;
        let jump = self.function.new_block();
        self.function.push(jump, Statement::Goto(Goto(Label(label))));
        proof {
            use_type_invariant(&self.function);
            self.lemma_view();
            lemma_with_node(f.flow, jump);
            lemma_without_edge(f.flow.with_node(jump), edge);
        }
        let carried = self.function.remove_edge(edge).unwrap();
        let new = self.function.add_edge(source, jump, carried);
        proof {
            self.lemma_view();
            assert(new == edge);
            assert(self@.function.blocks =~= named.function.blocks.insert(
                jump,
                seq![Stmt::Goto { label: jump_label(target) }],
            ));
            assert(self@ =~= before.jumped(edge));
        }
    }
}

} // verus!
