//! What giving up an edge keeps: labels, jumps and branches.

use vstd::prelude::*;

use crate::ast::{RValue, Stmt};
use crate::blocks::{lemma_with_out, lemma_without_out, replaced_edges_are_those_listed};
use crate::emit::{all_known, all_plain, is_plain};
use crate::flow::{lemma_without_node, other_than, BranchType, Flow, Link};
use crate::inspect::{
    copies_leave_out_the_label, gotos_in, inlineable, inlined_statements_are_plain, labelled,
    labels_in, lemma_joined, statement_gotos, statement_labels,
};
use crate::jumps::lemma_merge_room;
use crate::lists::lemma_appended;
use crate::structurer::{remapped, StructurerView};
use crate::text::jump_label;

verus! {

impl StructurerView {
    /// Every label that is known stands in the block that it is known for.
    pub open spec fn labels_stand(self) -> bool {
        forall|label: Seq<char>| #[trigger]
            self.labels.contains_key(label) ==> {
                &&& self.function.blocks.contains_key(self.labels[label])
                &&& labels_in(self.function.blocks[self.labels[label]]).contains(label)
            }
    }

    /// Every goto names a label that is known, of which the first character takes
    /// one byte.
    pub open spec fn gotos_known(self) -> bool {
        forall|n: u32| #[trigger]
            self.function.blocks.contains_key(n) ==> all_known(
                self.labels,
                gotos_in(self.function.blocks[n]),
            ) && all_plain(gotos_in(self.function.blocks[n]))
    }
}

proof fn lemma_known_add(labels: Map<Seq<char>, u32>, a: Seq<Seq<char>>, b: Seq<Seq<char>>)
    requires
        all_known(labels, a),
        all_known(labels, b),
        all_plain(a),
        all_plain(b),
    ensures
        all_known(labels, a + b),
        all_plain(a + b),
{
    assert forall|i: int| 0 <= i < (a + b).len() implies labels.contains_key(
        #[trigger] (a + b)[i],
    ) && is_plain((a + b)[i]) by {
        if i < a.len() {
            assert(labels.contains_key(a[i]) && is_plain(a[i]));
        } else {
            assert(labels.contains_key(b[i - a.len()]) && is_plain(b[i - a.len()]));
        }
    }
}

/// What a label in front of a block adds to it.
proof fn lemma_label_in_front(name: Seq<char>, block: Seq<Stmt>)
    ensures
        labels_in(seq![Stmt::Label { name }] + block) == seq![name] + labels_in(block),
        gotos_in(seq![Stmt::Label { name }] + block) == gotos_in(block),
{
    let front = seq![Stmt::Label { name }];
    lemma_joined(front, block);
    assert(front.drop_last() =~= Seq::<Stmt>::empty());
    assert(labels_in(Seq::<Stmt>::empty()) =~= Seq::<Seq<char>>::empty());
    assert(gotos_in(Seq::<Stmt>::empty()) =~= Seq::<Seq<char>>::empty());
    assert(front.last() == Stmt::Label { name });
    assert(statement_labels(front.last()) == seq![name]);
    assert(statement_gotos(front.last()) == Seq::<Seq<char>>::empty());
    assert(labels_in(front) =~= seq![name]);
    assert(gotos_in(front) =~= Seq::<Seq<char>>::empty());
    assert(gotos_in(front) + gotos_in(block) =~= gotos_in(block));
}

/// The labels and jumps of a block that only jumps.
proof fn lemma_only_goto(label: Seq<char>)
    ensures
        labels_in(seq![Stmt::Goto { label }]) == Seq::<Seq<char>>::empty(),
        gotos_in(seq![Stmt::Goto { label }]) == seq![label],
{
    let block = seq![Stmt::Goto { label }];
    assert(block.drop_last() =~= Seq::<Stmt>::empty());
    assert(labels_in(Seq::<Stmt>::empty()) =~= Seq::<Seq<char>>::empty());
    assert(gotos_in(Seq::<Stmt>::empty()) =~= Seq::<Seq<char>>::empty());
    assert(block.last() == Stmt::Goto { label });
    assert(statement_labels(block.last()) == Seq::<Seq<char>>::empty());
    assert(statement_gotos(block.last()) == seq![label]);
    assert(labels_in(block) =~= Seq::<Seq<char>>::empty());
    assert(gotos_in(block) =~= seq![label]);
}

/// Giving up an edge keeps every label known for the block that it stands in.
pub proof fn labels_keep_standing(
    before: StructurerView,
    e: u32,
    for_next: bool,
    after: StructurerView,
)
    requires
        before.function.wf(),
        before.can_give_up(e, for_next),
        after == before.given_up(e, for_next),
        before.labels_stand(),
    ensures
        after.labels_stand(),
{
    let f = before.function;
    let source = before.edge(e).source;
    let target = before.edge(e).target;
    assert(f.flow.edges.contains_key(e));
    assert(f.flow.has(source) && f.flow.has(target));
    assert(f.blocks.contains_key(source) && f.blocks.contains_key(target));
    assert forall|label: Seq<char>| #[trigger] after.labels.contains_key(label) implies {
        &&& after.function.blocks.contains_key(after.labels[label])
        &&& labels_in(after.function.blocks[after.labels[label]]).contains(label)
    } by {
        if before.merges(e) {
            let moved = labels_in(f.blocks[target]);
            assert(after.labels == remapped(before.labels, moved, source));
            lemma_joined(f.blocks[source], f.blocks[target]);
            lemma_appended(labels_in(f.blocks[source]), moved);
        } else if before.inlines(e, for_next) {
            let copy = inlineable(f.blocks[target])->0;
            lemma_joined(f.blocks[source], copy);
            lemma_appended(labels_in(f.blocks[source]), labels_in(copy));
        } else {
            let jump = f.flow.next_number();
            assert(!f.flow.has(f.flow.numbers[0]));
            let name = jump_label(target);
            lemma_label_in_front(name, f.blocks[target]);
            lemma_appended(seq![name], labels_in(f.blocks[target]));
            assert(seq![name][0] == name);
            assert(!f.blocks.contains_key(jump));
        }
    }
}

/// Giving up an edge keeps every goto known, where a target that carries a label
/// already is known by the label that jumps to it use.
pub proof fn gotos_stay_known(
    before: StructurerView,
    e: u32,
    for_next: bool,
    after: StructurerView,
)
    requires
        before.function.wf(),
        before.can_give_up(e, for_next),
        after == before.given_up(e, for_next),
        before.gotos_known(),
        labelled(before.function.blocks[before.edge(e).target]) ==> before.labels.contains_key(
            jump_label(before.edge(e).target),
        ),
    ensures
        after.gotos_known(),
{
    let f = before.function;
    let source = before.edge(e).source;
    let target = before.edge(e).target;
    assert(f.flow.edges.contains_key(e));
    assert(f.flow.has(source) && f.flow.has(target));
    assert(f.blocks.contains_key(source) && f.blocks.contains_key(target));
    assert forall|n: u32| #[trigger] after.function.blocks.contains_key(n) implies all_known(
        after.labels,
        gotos_in(after.function.blocks[n]),
    ) && all_plain(gotos_in(after.function.blocks[n])) by {
        if before.merges(e) {
            lemma_joined(f.blocks[source], f.blocks[target]);
            lemma_known_add(
                before.labels,
                gotos_in(f.blocks[source]),
                gotos_in(f.blocks[target]),
            );
            if n != source {
                assert(f.blocks.contains_key(n));
            }
        } else if before.inlines(e, for_next) {
            let copy = inlineable(f.blocks[target])->0;
            inlined_statements_are_plain(f.blocks[target]);
            lemma_joined(f.blocks[source], copy);
            lemma_known_add(before.labels, gotos_in(f.blocks[source]), gotos_in(copy));
            if n != source {
                assert(f.blocks.contains_key(n));
            }
        } else {
            let jump = f.flow.next_number();
            assert(!f.flow.has(f.flow.numbers[0]));
            let name = jump_label(target);
            lemma_label_in_front(name, f.blocks[target]);
            lemma_only_goto(name);
            if n != jump {
                assert(f.blocks.contains_key(n));
            }
        }
    }
}

/// A jump that takes the place of an edge leads where the edge led: the block that
/// it stands in is entered in the edge's stead, and the label that it names stands
/// in front of the target.
pub proof fn jumps_stand_for_edges(
    before: StructurerView,
    e: u32,
    for_next: bool,
    after: StructurerView,
)
    requires
        before.function.wf(),
        before.can_give_up(e, for_next),
        after == before.given_up(e, for_next),
        !before.merges(e),
        !before.inlines(e, for_next),
        !labelled(before.function.blocks[before.edge(e).target]),
    ensures
        !before.function.flow.has(before.function.flow.next_number()),
        after.function.flow.edges[e].source == before.edge(e).source,
        after.function.flow.edges[e].target == before.function.flow.next_number(),
        after.function.flow.edges[e].weight == before.edge(e).weight,
        after.function.blocks[before.function.flow.next_number()] == seq![
            Stmt::Goto { label: jump_label(before.edge(e).target) },
        ],
        after.labels[jump_label(before.edge(e).target)] == before.edge(e).target,
        after.function.blocks[before.edge(e).target] == seq![
            Stmt::Label { name: jump_label(before.edge(e).target) },
        ] + before.function.blocks[before.edge(e).target],
{
    let flow = before.function.flow;
    assert(flow.edges.contains_key(e));
    assert(flow.has(before.edge(e).target));
    assert(!flow.has(flow.numbers[0]));
}

/// Giving up an edge touches no block but its two ends, and neither the entry nor
/// the loop headers that are known.
pub proof fn other_blocks_stay(
    before: StructurerView,
    e: u32,
    for_next: bool,
    after: StructurerView,
)
    requires
        before.function.wf(),
        before.can_give_up(e, for_next),
        after == before.given_up(e, for_next),
    ensures
        after.function.id == before.function.id,
        after.function.entry == before.function.entry,
        after.loop_headers == before.loop_headers,
        forall|n: u32|
            before.function.blocks.contains_key(n) && n != before.edge(e).source && n
                != before.edge(e).target ==> #[trigger] after.function.blocks.contains_key(n)
                && after.function.blocks[n] == before.function.blocks[n],
        before.function.blocks[before.edge(e).source].is_prefix_of(
            after.function.blocks[before.edge(e).source],
        ) || before.edge(e).source == before.edge(e).target,
{
    let source = before.edge(e).source;
    let target = before.edge(e).target;
    let own = before.function.blocks[source];
    assert(before.function.flow.edges.contains_key(e));
    assert(before.function.flow.has(source) && before.function.flow.has(target));
    if before.merges(e) {
        assert(own =~= after.function.blocks[source].take(own.len() as int));
    } else if before.inlines(e, for_next) {
        assert(own =~= after.function.blocks[source].take(own.len() as int));
    } else {
        assert(!before.function.flow.has(before.function.flow.numbers[0]));
        if source != target {
            assert(after.function.blocks[source] == own);
        }
    }
}

/// A block that another is joined to or repeated in goes on where that one went
/// on, under the same conditions.
pub proof fn joined_blocks_go_on_alike(
    before: StructurerView,
    e: u32,
    for_next: bool,
    after: StructurerView,
)
    requires
        before.function.wf(),
        before.can_give_up(e, for_next),
        after == before.given_up(e, for_next),
        before.merges(e) || before.inlines(e, for_next),
    ensures
        after.function.flow.out_list(before.edge(e).source) == before.function.flow.out_list(
            before.edge(e).target,
        ).reverse(),
{
    let flow = before.function.flow;
    let source = before.edge(e).source;
    let target = before.edge(e).target;
    assert(flow.edges.contains_key(e));
    assert(flow.has(source) && flow.has(target));
    let base = if before.merges(e) {
        flow.without_node(target)
    } else {
        flow
    };
    let list = flow.out_list(target);
    if before.merges(e) {
        lemma_without_node(flow, target);
        lemma_merge_room(flow, e);
    } else {
        assert forall|i: int| 0 <= i < list.len() implies flow.has((#[trigger] list[i]).0) by {
            assert(flow.out[target].contains(flow.out[target][i]));
            assert(flow.edges.contains_key(flow.out[target][i]));
        }
    }
    assert(after.function.flow == base.with_out_set(source, list));
    lemma_without_out(base, source);
    lemma_with_out(base.without_out(source), source, list);
}

/// A two-way branch stays a two-way branch where a jump takes the place of one of
/// its sides.
pub proof fn branches_stay_branches(
    before: StructurerView,
    e: u32,
    for_next: bool,
    after: StructurerView,
)
    requires
        before.function.wf(),
        before.can_give_up(e, for_next),
        after == before.given_up(e, for_next),
        !before.merges(e),
        !before.inlines(e, for_next),
    ensures
        before.function.flow.branches(before.edge(e).source) is Some
            ==> after.function.flow.branches(before.edge(e).source) is Some,
{
    let flow = before.function.flow;
    let source = before.edge(e).source;
    let jump = flow.next_number();
    let new = e;
    assert(flow.edges.contains_key(e));
    assert(flow.has(source));
    assert(!flow.has(flow.numbers[0]));
    if flow.branches(source) is Some {
        let out = flow.out[source];
        let kept = out.filter(other_than(e));
        let g = after.function.flow;
        assert(jump != source);
        assert(g.out[source] == seq![new] + kept);
        assert(out.contains(e));
        assert(out[0] != out[1]);
        assert(out =~= seq![out[0], out[1]]);
        reveal(Seq::filter);
        assert(out.drop_last() =~= seq![out[0]]);
        assert(seq![out[0]].drop_last() =~= Seq::<u32>::empty());
        let rest = if e == out[0] {
            out[1]
        } else {
            out[0]
        };
        assert(Seq::<u32>::empty().filter(other_than(e)) =~= Seq::<u32>::empty());
        assert(seq![out[0]].filter(other_than(e)) =~= if e == out[0] {
            Seq::<u32>::empty()
        } else {
            seq![out[0]]
        });
        assert(kept =~= seq![rest]);
        assert(g.out[source] =~= seq![new, rest]);
        assert(out.contains(rest));
        assert(g.edges[rest] == flow.edges[rest]);
        assert(g.edges[new].weight == flow.edges[e].weight);
    }
}

/// The labels inside the blocks of a statement are labels of the block that the
/// statement stands in.
pub proof fn nested_labels_count(
    condition: RValue,
    then_block: Seq<Stmt>,
    else_block: Seq<Stmt>,
)
    ensures
        labels_in(seq![Stmt::If { condition, then_block, else_block }]) == labels_in(then_block)
            + labels_in(else_block),
        gotos_in(seq![Stmt::If { condition, then_block, else_block }]) == gotos_in(then_block)
            + gotos_in(else_block),
{
    let block = seq![Stmt::If { condition, then_block, else_block }];
    assert(block.drop_last() =~= Seq::<Stmt>::empty());
    assert(block.last() == Stmt::If { condition, then_block, else_block });
    assert(labels_in(Seq::<Stmt>::empty()) =~= Seq::<Seq<char>>::empty());
    assert(gotos_in(Seq::<Stmt>::empty()) =~= Seq::<Seq<char>>::empty());
    assert(statement_labels(block.last()) == labels_in(then_block) + labels_in(
        else_block,
    ));
    assert(statement_gotos(block.last()) == gotos_in(then_block) + gotos_in(
        else_block,
    ));
    assert(labels_in(block) =~= labels_in(then_block) + labels_in(else_block));
    assert(gotos_in(block) =~= gotos_in(then_block) + gotos_in(else_block));
}

/// An edge is the only one to its target if and only if the target has one edge to it.
proof fn lemma_arrives_alone(f: Flow, e: u32)
    requires
        f.wf(),
        f.edges.contains_key(e),
    ensures
        f.incoming(f.edges[e].target).len() == 1 <==> forall|x: u32| #[trigger]
            f.edges.contains_key(x) && f.edges[x].target == f.edges[e].target ==> x == e,
{
    let arriving = f.incoming(f.edges[e].target);
    assert(arriving.contains(e));
    assert(arriving.subset_of(f.edges.dom()));
    vstd::set_lib::lemma_set_subset_finite(f.edges.dom(), arriving);
    if arriving.len() == 1 {
        Set::lemma_is_singleton(arriving);
        assert forall|x: u32| #[trigger]
            f.edges.contains_key(x) && f.edges[x].target == f.edges[e].target implies x == e by {
            assert(arriving.contains(x));
        }
    }
    if forall|x: u32| #[trigger]
        f.edges.contains_key(x) && f.edges[x].target == f.edges[e].target ==> x == e {
        assert(arriving =~= set![e]);
    }
}

/// An edge is the only one out of its source if and only if the source lists one.
proof fn lemma_leaves_alone(f: Flow, e: u32)
    requires
        f.wf(),
        f.edges.contains_key(e),
    ensures
        f.out_edges(f.edges[e].source).len() == 1 <==> forall|x: u32| #[trigger]
            f.edges.contains_key(x) && f.edges[x].source == f.edges[e].source ==> x == e,
{
    let source = f.edges[e].source;
    let out = f.out[source];
    assert(f.has(source));
    assert(out.contains(e));
    if out.len() == 1 {
        assert forall|x: u32| #[trigger]
            f.edges.contains_key(x) && f.edges[x].source == source implies x == e by {
            assert(out.contains(x));
        }
    }
    if forall|x: u32| #[trigger] f.edges.contains_key(x) && f.edges[x].source == source ==> x == e {
        if out.len() > 1 {
            assert(out.contains(out[0]) && out.contains(out[1]));
            assert(f.edges.contains_key(out[0]) && f.edges.contains_key(out[1]));
        }
    }
}

/// Where edge and block numbers last, every edge can be given up but one that is the
/// only way to its target and always taken, where it leads back to its own block or
/// that block has another way on.
pub proof fn nearly_every_edge_can_be_given_up(before: StructurerView, e: u32, for_next: bool)
    requires
        before.function.wf(),
        before.function.flow.out.dom().len() < u32::MAX,
        before.function.flow.edges.dom().len() + before.function.flow.out_edges(
            before.edge(e).target,
        ).len() <= u32::MAX,
    ensures
        before.can_give_up(e, for_next) <==> {
            &&& before.function.flow.edges.contains_key(e)
            &&& before.edge(e).weight.branch_type == BranchType::Unconditional && (forall|x: u32|
                #[trigger]
                before.function.flow.edges.contains_key(x) && before.edge(x).target
                    == before.edge(e).target ==> x == e) ==> before.edge(e).source
                != before.edge(e).target && forall|x: u32| #[trigger]
                before.function.flow.edges.contains_key(x) && before.edge(x).source
                    == before.edge(e).source ==> x == e
        },
{
    let f = before.function.flow;
    if f.edges.contains_key(e) {
        lemma_arrives_alone(f, e);
        lemma_leaves_alone(f, e);
        lemma_without_out(f, before.edge(e).source);
        vstd::set_lib::lemma_len_subset(
            f.without_out(before.edge(e).source).edges.dom(),
            f.edges.dom(),
        );
    }
}

/// Where an edge that is always taken is the only way to its target, the target is
/// joined to the source: its statements come behind those of the source, which goes
/// on where the target went on and is where its labels stand now.
pub proof fn targets_with_one_way_to_them_are_joined(
    before: StructurerView,
    e: u32,
    for_next: bool,
    after: StructurerView,
)
    requires
        before.function.wf(),
        before.can_give_up(e, for_next),
        after == before.given_up(e, for_next),
        before.edge(e).weight.branch_type == BranchType::Unconditional,
        forall|x: u32| #[trigger]
            before.function.flow.edges.contains_key(x) && before.edge(x).target
                == before.edge(e).target ==> x == e,
    ensures
        !after.function.flow.has(before.edge(e).target),
        after.function.blocks == before.function.blocks.remove(before.edge(e).target).insert(
            before.edge(e).source,
            before.function.blocks[before.edge(e).source]
                + before.function.blocks[before.edge(e).target],
        ),
        after.function.flow.out[before.edge(e).source].len() == before.function.flow.out[
            before.edge(e).target
        ].len(),
        forall|i: int|
            0 <= i < before.function.flow.out[before.edge(e).target].len() ==> {
                let own = before.function.flow.out[before.edge(e).target];
                let link = before.edge(own[own.len() - 1 - i]);
                after.edge(#[trigger] after.function.flow.out[before.edge(e).source][i]) == (Link {
                    source: before.edge(e).source,
                    ..link
                })
            },
        forall|x: u32| #[trigger]
            before.function.flow.edges.contains_key(x) && before.edge(x).source != before.edge(
                e,
            ).source && before.edge(x).source != before.edge(e).target
                ==> after.function.flow.edges.contains_key(x) && after.edge(x) == before.edge(x),
        forall|x: u32| #[trigger]
            after.function.flow.edges.contains_key(x) && after.edge(x).source != before.edge(
                e,
            ).source ==> before.function.flow.edges.contains_key(x),
        forall|label: Seq<char>|
            labels_in(before.function.blocks[before.edge(e).target]).contains(label)
                ==> #[trigger] after.labels.contains_key(label) && after.labels[label]
                == before.edge(e).source,
        forall|label: Seq<char>|
            !labels_in(before.function.blocks[before.edge(e).target]).contains(label) ==> (
            #[trigger] after.labels.contains_key(label) <==> before.labels.contains_key(label)) && (
            before.labels.contains_key(label) ==> after.labels[label] == before.labels[label]),
{
    let f = before.function;
    let flow = f.flow;
    let source = before.edge(e).source;
    let target = before.edge(e).target;
    assert(flow.edges.contains_key(e));
    lemma_arrives_alone(flow, e);
    assert(before.merges(e));
    lemma_merge_room(flow, e);
    let g = flow.without_node(target);
    let list = flow.out_list(target);
    let h = after.function.flow;
    assert(h == g.with_out_set(source, list));
    replaced_edges_are_those_listed(g, source, list);
    assert(!g.has(target));
    assert(h.out.dom() == g.out.dom());
    assert(after.function.blocks == f.blocks.remove(target).insert(
        source,
        f.blocks[source] + f.blocks[target],
    ));
    assert forall|i: int| 0 <= i < flow.out[target].len() implies {
        let own = flow.out[target];
        let link = before.edge(own[own.len() - 1 - i]);
        after.edge(#[trigger] h.out[source][i]) == (Link { source, ..link })
    } by {
        assert(list[list.len() - 1 - i] == (
            flow.edges[flow.out[target][list.len() - 1 - i]].target,
            flow.edges[flow.out[target][list.len() - 1 - i]].weight,
        ));
    }
    assert forall|x: u32| #[trigger]
        flow.edges.contains_key(x) && before.edge(x).source != source && before.edge(x).source
            != target implies h.edges.contains_key(x) && after.edge(x) == before.edge(x) by {
        assert(before.edge(x).target != target);
        assert(g.edges.contains_key(x));
    }
    assert forall|x: u32| #[trigger]
        h.edges.contains_key(x) && after.edge(x).source != source implies flow.edges.contains_key(
        x,
    ) by {
        assert(g.edges.contains_key(x));
    }
}

/// Where an edge cannot be joined away, and its target is neither the entry nor a loop
/// header nor the head of a counting or iterating loop, and all of it but a label in
/// front may be repeated, that is repeated behind the source, which goes on where the
/// target goes on; the target stays.
pub proof fn simple_targets_are_repeated(
    before: StructurerView,
    e: u32,
    for_next: bool,
    after: StructurerView,
)
    requires
        before.function.wf(),
        before.can_give_up(e, for_next),
        after == before.given_up(e, for_next),
        before.edge(e).weight.branch_type != BranchType::Unconditional || exists|x: u32| #[trigger]
            before.function.flow.edges.contains_key(x) && before.edge(x).target == before.edge(
                e,
            ).target && x != e,
        before.function.entry != Some(before.edge(e).target),
        !before.loop_headers.contains(before.edge(e).target),
        !for_next,
        forall|i: int|
            0 <= i < before.function.blocks[before.edge(e).target].len() && !(i == 0
                && before.function.blocks[before.edge(e).target][0] is Label) ==> (
            #[trigger] before.function.blocks[before.edge(e).target][i]).inlineable(),
    ensures
        after.function.blocks == before.function.blocks.insert(
            before.edge(e).source,
            before.function.blocks[before.edge(e).source] + if before.function.blocks[before.edge(
                e,
            ).target].len() > 0 && before.function.blocks[before.edge(e).target][0] is Label {
                before.function.blocks[before.edge(e).target].skip(1)
            } else {
                before.function.blocks[before.edge(e).target]
            },
        ),
        after.labels == before.labels,
        after.function.flow.out.dom() == before.function.flow.out.dom(),
        after.function.flow.out[before.edge(e).source].len() == before.function.flow.out[
            before.edge(e).target
        ].len(),
        forall|i: int|
            0 <= i < before.function.flow.out[before.edge(e).target].len() ==> {
                let own = before.function.flow.out[before.edge(e).target];
                let link = before.edge(own[own.len() - 1 - i]);
                after.edge(#[trigger] after.function.flow.out[before.edge(e).source][i]) == (Link {
                    source: before.edge(e).source,
                    ..link
                })
            },
        forall|x: u32| #[trigger]
            before.function.flow.edges.contains_key(x) && before.edge(x).source != before.edge(
                e,
            ).source ==> after.function.flow.edges.contains_key(x) && after.edge(x)
                == before.edge(x),
        forall|x: u32| #[trigger]
            after.function.flow.edges.contains_key(x) && after.edge(x).source != before.edge(
                e,
            ).source ==> before.function.flow.edges.contains_key(x),
{
    let f = before.function;
    let flow = f.flow;
    let source = before.edge(e).source;
    let target = before.edge(e).target;
    let block = f.blocks[target];
    assert(flow.edges.contains_key(e));
    assert(flow.has(source) && flow.has(target));
    lemma_arrives_alone(flow, e);
    assert(!before.merges(e));
    assert(inlineable(block) is Some && inlineable(block)->0 == if block.len() > 0
        && block[0] is Label {
        block.skip(1)
    } else {
        block
    }) by {
        if block.len() > 0 && block[0] is Label {
            let name = block[0]->name;
            assert(block =~= seq![Stmt::Label { name }] + block.skip(1));
            copies_leave_out_the_label(name, block.skip(1));
            assert forall|i: int| 0 <= i < block.skip(1).len() implies (#[trigger] block.skip(
                1,
            )[i]).inlineable() by {
                assert(block[i + 1].inlineable());
            }
        } else {
            copies_leave_out_the_label(Seq::empty(), block);
        }
    }
    assert(before.inlines(e, for_next));
    let list = flow.out_list(target);
    let h = after.function.flow;
    assert forall|i: int| 0 <= i < list.len() implies flow.has((#[trigger] list[i]).0) by {
        assert(flow.out[target].contains(flow.out[target][i]));
        assert(flow.edges.contains_key(flow.out[target][i]));
    }
    assert(h == flow.with_out_set(source, list));
    replaced_edges_are_those_listed(flow, source, list);
    assert forall|i: int| 0 <= i < flow.out[target].len() implies {
        let own = flow.out[target];
        let link = before.edge(own[own.len() - 1 - i]);
        after.edge(#[trigger] h.out[source][i]) == (Link { source, ..link })
    } by {
        assert(list[list.len() - 1 - i] == (
            flow.edges[flow.out[target][list.len() - 1 - i]].target,
            flow.edges[flow.out[target][list.len() - 1 - i]].weight,
        ));
    }
}

/// Where an edge can neither be joined away nor its target be repeated, the edge leads
/// to a new block that is one goto, by the label for jumps to the target, whatever the
/// target starts with.  Where it started with no label, that label comes in front of
/// it and is known for it.  Nothing else changes.
pub proof fn other_edges_lead_to_a_goto(
    before: StructurerView,
    e: u32,
    for_next: bool,
    after: StructurerView,
)
    requires
        before.function.wf(),
        before.can_give_up(e, for_next),
        after == before.given_up(e, for_next),
        before.edge(e).weight.branch_type != BranchType::Unconditional || exists|x: u32| #[trigger]
            before.function.flow.edges.contains_key(x) && before.edge(x).target == before.edge(
                e,
            ).target && x != e,
        before.function.entry == Some(before.edge(e).target) || before.loop_headers.contains(
            before.edge(e).target,
        ) || for_next || exists|i: int|
            0 <= i < before.function.blocks[before.edge(e).target].len() && !(i == 0
                && before.function.blocks[before.edge(e).target][0] is Label) && !(
            #[trigger] before.function.blocks[before.edge(e).target][i]).inlineable(),
    ensures
        !before.function.flow.has(after.edge(e).target),
        after.function.flow.out.dom() == before.function.flow.out.dom().insert(
            after.edge(e).target,
        ),
        after.function.flow.edges.dom() == before.function.flow.edges.dom(),
        after.edge(e).source == before.edge(e).source,
        after.edge(e).weight == before.edge(e).weight,
        forall|x: u32| #[trigger]
            before.function.flow.edges.contains_key(x) && x != e ==> after.edge(x) == before.edge(
                x,
            ),
        after.function.blocks.dom() == before.function.blocks.dom().insert(after.edge(e).target),
        after.function.blocks[after.edge(e).target] == seq![
            Stmt::Goto { label: jump_label(before.edge(e).target) },
        ],
        forall|n: u32| #[trigger]
            before.function.blocks.contains_key(n) && n != before.edge(e).target
                ==> after.function.blocks[n] == before.function.blocks[n],
        before.function.blocks[before.edge(e).target].len() > 0
            && before.function.blocks[before.edge(e).target][0] is Label
            ==> after.function.blocks[before.edge(e).target] == before.function.blocks[before.edge(
            e,
        ).target] && after.labels == before.labels,
        !(before.function.blocks[before.edge(e).target].len() > 0
            && before.function.blocks[before.edge(e).target][0] is Label)
            ==> after.function.blocks[before.edge(e).target] == seq![
            Stmt::Label { name: jump_label(before.edge(e).target) },
        ] + before.function.blocks[before.edge(e).target] && after.labels
            == before.labels.insert(jump_label(before.edge(e).target), before.edge(e).target),
{
    let f = before.function;
    let flow = f.flow;
    let target = before.edge(e).target;
    let block = f.blocks[target];
    assert(flow.edges.contains_key(e));
    assert(flow.has(before.edge(e).source) && flow.has(target));
    lemma_arrives_alone(flow, e);
    assert(!before.merges(e));
    if inlineable(block) is Some && before.function.entry != Some(target)
        && !before.loop_headers.contains(target) && !for_next {
        let i = choose|i: int|
            0 <= i < block.len() && !(i == 0 && block[0] is Label) && !(
            #[trigger] block[i]).inlineable();
        if block[0] is Label {
            let name = block[0]->name;
            assert(block =~= seq![Stmt::Label { name }] + block.skip(1));
            copies_leave_out_the_label(name, block.skip(1));
            assert(block.skip(1)[i - 1].inlineable());
        } else {
            copies_leave_out_the_label(Seq::empty(), block);
            assert(block[i].inlineable());
        }
    }
    assert(!before.inlines(e, for_next));
    assert(!flow.has(flow.numbers[0]));
    assert(after == before.jumped(e));
    assert(after.function.flow.edges.dom() =~= flow.edges.dom());
    assert(after.function.flow.out.dom() =~= flow.out.dom().insert(after.edge(e).target));
    assert(after.function.blocks.dom() =~= f.blocks.dom().insert(after.edge(e).target));
}

/// The edges of a function that is being structured are those of its graph.
pub proof fn edges_are_those_of_the_graph(state: StructurerView, e: u32)
    ensures
        state.edge(e) == state.function.flow.edges[e],
{
}

} // verus!
