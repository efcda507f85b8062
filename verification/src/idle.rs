//! What a way through the blocks does where nothing is recognised: without patterns,
//! or without edges.

use vstd::prelude::*;

use crate::cfg::FunctionView;
use crate::flow::{lemma_without_node, Flow};
use crate::inspect::labelled;
use crate::lists::{lemma_filter, lemma_take_one};
use crate::passes::{pass_fails, passes, unready, Pass, Sweep};
use crate::patterns::{look_gives, looks, Chains, Look, NoPatterns, Patterns, StructureError};
use crate::structurer::StructurerView;
use crate::walk::lemma_reaches_self;

verus! {

proof fn lemma_look_without_patterns(
    before: StructurerView,
    node: u32,
    dominators: Chains,
    post_dominators: Chains,
    after: StructurerView,
    matched: bool,
)
    requires
        looks(NoPatterns, before, node, dominators, post_dominators, after, Ok(matched)),
    ensures
        after == before,
        !matched,
{
    reveal(looks);
}

/// The visits change nothing.
proof fn lemma_visits_without_patterns(pass: Pass, start: StructurerView, i: int)
    requires
        pass.visits_follow(NoPatterns, start),
        0 <= i <= pass.visits.len(),
    ensures
        pass.state_at(start, i) == start,
        pass.basis_at(start, i) == start,
        i > 0 ==> !pass.visits[i - 1].matched,
    decreases i,
{
    if i > 0 {
        lemma_visits_without_patterns(pass, start, i - 1);
        assert(pass.visit_follows(NoPatterns, start, i - 1));
        let visit = pass.visits[i - 1];
        lemma_look_without_patterns(
            visit.before,
            visit.node,
            visit.dominators,
            visit.post_dominators,
            visit.after,
            visit.matched,
        );
    }
}

/// `after` is `before` without blocks that could not be reached and that no label
/// names, and without the edges out of them.
pub open spec fn only_dead_blocks_gone(before: StructurerView, after: StructurerView) -> bool {
    let f = before.function;
    let g = after.function;
    &&& after == before.with_function(g)
    &&& g.id == f.id
    &&& g.entry == f.entry
    &&& forall|n: u32| #[trigger]
        g.blocks.contains_key(n) ==> f.blocks.contains_key(n) && g.blocks[n] == f.blocks[n]
    &&& forall|n: u32| #[trigger]
        f.blocks.contains_key(n) && !g.blocks.contains_key(n) ==> !labelled(f.blocks[n])
            && !f.flow.reaches(f.entry->0, n)
    &&& forall|e: u32| #[trigger]
        g.flow.edges.contains_key(e) <==> f.flow.edges.contains_key(e) && g.blocks.contains_key(
            f.flow.edges[e].source,
        ) && g.blocks.contains_key(f.flow.edges[e].target)
    &&& forall|e: u32| #[trigger]
        g.flow.edges.contains_key(e) ==> g.flow.edges[e] == f.flow.edges[e]
    &&& forall|n: u32| #[trigger] g.blocks.contains_key(n) ==> g.flow.out[n] == f.flow.out[n]
}

/// Without the block `node`, if nothing leads to it and no label names it.
pub open spec fn swept(state: StructurerView, node: u32) -> StructurerView {
    let f = state.function;
    if f.flow.has(node) && f.flow.incoming(node).len() == 0 && !labelled(f.blocks[node]) {
        state.with_function(f.without_block(node))
    } else {
        state
    }
}

/// A sweep finds nothing.
proof fn lemma_sweep_without_patterns(pass: Pass, sweep: Sweep)
    requires
        pass.sweeps_one(NoPatterns, sweep),
    ensures
        !sweep.matched,
        sweep.after == swept(sweep.before, sweep.node),
{
    let f = sweep.before.function;
    if f.flow.has(sweep.node) && f.flow.incoming(sweep.node).len() == 0 && labelled(
        f.blocks[sweep.node],
    ) {
        lemma_look_without_patterns(
            sweep.before,
            sweep.node,
            pass.dominators,
            pass.post_dominators,
            sweep.after,
            sweep.matched,
        );
    }
}

/// The sweeps only take out blocks.
proof fn lemma_sweeps_without_patterns(pass: Pass, start: StructurerView, i: int)
    requires
        start.function.wf(),
        pass.visits_follow(NoPatterns, start),
        pass.sweeps_follow(NoPatterns, start),
        0 <= i <= pass.sweeps.len(),
    ensures
        only_dead_blocks_gone(start, pass.swept_at(start, i)),
        pass.swept_at(start, i).function.wf(),
    decreases i,
{
    if i == 0 {
        lemma_visits_without_patterns(pass, start, pass.visits.len() as int);
        assert forall|e: u32| #[trigger] start.function.flow.edges.contains_key(e) implies
            start.function.flow.has(start.function.flow.edges[e].source)
            && start.function.flow.has(start.function.flow.edges[e].target) by {}
    } else {
        lemma_sweeps_without_patterns(pass, start, i - 1);
        assert(pass.sweep_follows(NoPatterns, start, i - 1));
        let sweep = pass.sweeps[i - 1];
        assert(pass.unreached.contains(sweep.node));
        assert(pass.left_over(start).contains(sweep.node));
        lemma_sweep_without_patterns(pass, sweep);
        if sweep.after != sweep.before {
            lemma_visits_without_patterns(pass, start, pass.visits.len() as int);
            lemma_one_dead_block(start, sweep.before, sweep.node);
        }
    }
}

/// One more dead block is taken out.
proof fn lemma_one_dead_block(start: StructurerView, state: StructurerView, node: u32)
    requires
        start.function.wf(),
        state.function.wf(),
        only_dead_blocks_gone(start, state),
        state.function.flow.has(node),
        state.function.flow.incoming(node).len() == 0,
        !labelled(state.function.blocks[node]),
        !start.function.flow.reaches(start.function.entry->0, node),
    ensures
        only_dead_blocks_gone(start, state.with_function(state.function.without_block(node))),
        state.function.without_block(node).wf(),
{
    let f = state.function;
    let g = f.without_block(node);
    lemma_without_node(f.flow, node);
    assert(f.blocks.contains_key(node));
    assert(f.flow.incoming(node).subset_of(f.flow.edges.dom()));
    vstd::set_lib::lemma_set_subset_finite(f.flow.edges.dom(), f.flow.incoming(node));
    assert forall|e: u32| #[trigger] f.flow.edges.contains_key(e) implies f.flow.edges[e].target
        != node by {
        assert(!f.flow.incoming(node).contains(e));
    }
    assert forall|n: u32| #[trigger] g.blocks.contains_key(n) implies g.flow.out[n]
        == start.function.flow.out[n] by {
        assert(f.blocks.contains_key(n));
        assert(f.flow.has(n));
        let keep = |e: u32| f.flow.edges[e].target != node;
        assert forall|e: u32| #[trigger] f.flow.out[n].contains(e) implies keep(e) by {
            assert(f.flow.edges.contains_key(e));
        }
        lemma_filter(f.flow.out[n], keep);
        assert(g.flow.out[n] == f.flow.out[n].filter(keep));
    }
    assert forall|e: u32| #[trigger]
        g.flow.edges.contains_key(e) <==> start.function.flow.edges.contains_key(e)
            && g.blocks.contains_key(start.function.flow.edges[e].source) && g.blocks.contains_key(
            start.function.flow.edges[e].target,
        ) by {
        if f.flow.edges.contains_key(e) {
            assert(f.flow.edges[e].target != node);
        }
    }
}

/// Without patterns a way through the blocks finds no structure.  It takes out
/// nothing but blocks that could not be reached and that no label names.
pub proof fn nothing_is_found_without_patterns(
    before: StructurerView,
    after: StructurerView,
    changed: bool,
)
    requires
        passes(NoPatterns, before, after, changed),
    ensures
        !changed,
        before.function.wf() ==> only_dead_blocks_gone(before, after) && after.function.wf(),
{
    let pass = choose|pass: Pass| #[trigger] pass.gives(NoPatterns, before, after, changed);
    if before.function.wf() {
        lemma_sweeps_without_patterns(pass, before, pass.sweeps.len() as int);
    }
    if pass.matched() {
        if exists|i: int| 0 <= i < pass.visits.len() && (#[trigger] pass.visits[i]).matched {
            let i = choose|i: int|
                0 <= i < pass.visits.len() && (#[trigger] pass.visits[i]).matched;
            lemma_visits_without_patterns(pass, before, i + 1);
        } else {
            let i = choose|i: int|
                0 <= i < pass.sweeps.len() && (#[trigger] pass.sweeps[i]).matched;
            assert(pass.sweep_follows(NoPatterns, before, i));
            lemma_sweep_without_patterns(pass, pass.sweeps[i]);
        }
    }
}

impl Flow {
    /// Every node goes on nowhere, at one place, or at the two sides of a
    /// condition.
    pub open spec fn branches_well(self) -> bool {
        forall|n: u32| #[trigger]
            self.has(n) ==> self.out[n].len() <= 1 || self.branches(n) is Some
    }
}

/// Taking out a node that nothing leads to leaves the others as they are.
proof fn lemma_without_dead(f: Flow, node: u32)
    requires
        f.wf(),
        f.branches_well(),
        f.incoming(node).len() == 0,
    ensures
        f.without_node(node).wf(),
        f.without_node(node).branches_well(),
{
    let g = f.without_node(node);
    lemma_without_node(f, node);
    assert(f.incoming(node).subset_of(f.edges.dom()));
    vstd::set_lib::lemma_set_subset_finite(f.edges.dom(), f.incoming(node));
    assert forall|n: u32| #[trigger] g.has(n) implies g.out[n].len() <= 1 || g.branches(
        n,
    ) is Some by {
        assert(f.has(n));
        let keep = |e: u32| f.edges[e].target != node;
        assert forall|e: u32| #[trigger] f.out[n].contains(e) implies keep(e) by {
            assert(f.edges.contains_key(e));
            assert(!f.incoming(node).contains(e));
        }
        lemma_filter(f.out[n], keep);
        assert(g.out[n] == f.out[n].filter(keep));
        assert(g.out[n] == f.out[n]);
        if f.branches(n) is Some {
            assert(f.out[n].contains(f.out[n][0]));
            assert(f.out[n].contains(f.out[n][1]));
            assert(f.edges.contains_key(f.out[n][0]) && f.edges.contains_key(f.out[n][1]));
        }
    }
}

/// A look without patterns fails only at a block that does not branch well.
proof fn lemma_look_succeeds_without_patterns(
    before: StructurerView,
    node: u32,
    dominators: Chains,
    post_dominators: Chains,
    after: StructurerView,
    error: StructureError,
)
    requires
        before.function.flow.branches_well(),
    ensures
        !looks(NoPatterns, before, node, dominators, post_dominators, after, Err(error)),
{
    reveal(looks);
    assert(before.function.flow.has(node) ==> before.function.flow.out[node].len() <= 1
        || before.function.flow.branches(node) is Some);
}

proof fn lemma_sweeps_branch_well(pass: Pass, start: StructurerView, i: int)
    requires
        start.function.wf(),
        start.function.flow.branches_well(),
        pass.visits_follow(NoPatterns, start),
        pass.sweeps_follow(NoPatterns, start),
        0 <= i <= pass.sweeps.len(),
    ensures
        pass.swept_at(start, i).function.flow.wf(),
        pass.swept_at(start, i).function.flow.branches_well(),
    decreases i,
{
    if i == 0 {
        lemma_visits_without_patterns(pass, start, pass.visits.len() as int);
    } else {
        lemma_sweeps_branch_well(pass, start, i - 1);
        assert(pass.sweep_follows(NoPatterns, start, i - 1));
        let sweep = pass.sweeps[i - 1];
        let f = sweep.before.function;
        if f.flow.has(sweep.node) && f.flow.incoming(sweep.node).len() == 0 {
            lemma_without_dead(f.flow, sweep.node);
            if labelled(f.blocks[sweep.node]) {
                lemma_look_without_patterns(
                    sweep.before,
                    sweep.node,
                    pass.dominators,
                    pass.post_dominators,
                    sweep.after,
                    sweep.matched,
                );
            }
        }
    }
}

/// Without patterns a way through the blocks fails only where dominators cannot be
/// found or a block does not branch well.
pub proof fn nothing_fails_without_patterns(before: StructurerView, error: StructureError)
    requires
        before.function.wf(),
        before.function.flow.branches_well(),
        unready(before.function) is None,
    ensures
        !pass_fails(NoPatterns, before, error),
{
    if pass_fails(NoPatterns, before, error) {
        let pass = choose|pass: Pass| #[trigger] pass.fails(NoPatterns, before, error);
        let count = pass.visits.len() as int;
        let flow = before.function.flow;
        lemma_visits_without_patterns(pass, before, count);
        assert(pass.steady(before)) by {
            assert forall|i: int| 0 <= i < count implies (
            #[trigger] pass.visits[i]).after.function.flow == flow by {
                lemma_visits_without_patterns(pass, before, i + 1);
                assert(pass.state_at(before, i + 1) == pass.visits[i].after);
            }
        }
        assert forall|node: u32, after: StructurerView| !#[trigger] looks(
            NoPatterns,
            before,
            node,
            pass.dominators,
            pass.post_dominators,
            after,
            Err(error),
        ) by {
            lemma_look_succeeds_without_patterns(
                before,
                node,
                pass.dominators,
                pass.post_dominators,
                after,
                error,
            );
        }
        if pass.sweeps_follow(NoPatterns, before) {
            let swept = pass.swept_at(before, pass.sweeps.len() as int);
            lemma_sweeps_branch_well(pass, before, pass.sweeps.len() as int);
            assert forall|node: u32, after: StructurerView| !#[trigger] looks(
                NoPatterns,
                swept,
                node,
                pass.dominators,
                pass.post_dominators,
                after,
                Err(error),
            ) by {
                lemma_look_succeeds_without_patterns(
                    swept,
                    node,
                    pass.dominators,
                    pass.post_dominators,
                    after,
                    error,
                );
            }
        }
    }
}

/// Without edges nothing but the start itself can be reached.
proof fn lemma_edgeless_reach(f: Flow, a: u32, b: u32)
    requires
        f.edges.dom() == Set::<u32>::empty(),
    ensures
        f.reaches(a, b) <==> a == b,
{
    if f.reaches(a, b) {
        let path = choose|path: Seq<u32>| f.is_path(path, a, b);
        if path.len() > 1 {
            assert(f.leads(path[0], path[1]));
            let e = choose|e: u32| #[trigger]
                f.edges.contains_key(e) && f.edges[e].source == path[0] && f.edges[e].target
                    == path[1];
            assert(f.edges.dom().contains(e));
        }
    }
    if a == b {
        lemma_reaches_self(f, a);
    }
}

/// The entry and the blocks that a label names.
pub open spec fn kept(function: FunctionView) -> Set<u32> {
    Set::new(
        |n: u32|
            function.blocks.contains_key(n) && (function.entry == Some(n) || labelled(
                function.blocks[n],
            )),
    )
}

/// Nothing is recognised in a function without edges.
pub open spec fn rests_without_edges<P: Patterns>(patterns: P) -> bool {
    &&& forall|
        before: StructurerView,
        node: u32,
        dominators: Chains,
        post_dominators: Chains,
        after: StructurerView,
        matched: bool,
    | #[trigger]
        patterns.collapses_loop(before, node, dominators, post_dominators, after, matched)
            && before.function.flow.edges.dom() == Set::<u32>::empty() ==> after == before
            && !matched
    &&& forall|before: StructurerView, node: u32, after: StructurerView, matched: bool| #[trigger]
        patterns.removes_condition(before, node, after, matched)
            && before.function.flow.edges.dom() == Set::<u32>::empty() ==> after == before
            && !matched
}

/// Where nothing is recognised at all, nothing is recognised without edges.
pub proof fn no_patterns_rest()
    ensures
        rests_without_edges(NoPatterns),
{
}

/// A function without edges.
pub open spec fn is_edgeless(function: FunctionView) -> bool {
    &&& function.wf()
    &&& function.flow.edges.dom() == Set::<u32>::empty()
    &&& function.entry is Some
    &&& function.blocks.contains_key(function.entry->0)
}

proof fn lemma_edgeless_look<P: Patterns>(
    patterns: P,
    before: StructurerView,
    node: u32,
    dominators: Chains,
    post_dominators: Chains,
    after: StructurerView,
    result: Result<bool, StructureError>,
)
    requires
        rests_without_edges(patterns),
        before.function.wf(),
        before.function.flow.edges.dom() == Set::<u32>::empty(),
        looks(patterns, before, node, dominators, post_dominators, after, result),
    ensures
        after == before,
        result == Ok::<bool, StructureError>(false),
{
    reveal(looks);
    let flow = before.function.flow;
    if flow.has(node) && flow.out[node].len() > 0 {
        assert(flow.out[node].contains(flow.out[node][0]));
        assert(flow.edges.dom().contains(flow.out[node][0]));
    }
    assert(flow.successors(node).len() == 0);
    let look = choose|look: Look| #[trigger]
        look_gives(
            patterns,
            before,
            node,
            dominators,
            post_dominators,
            look,
            after,
            result,
        );
    assert(patterns.collapses_loop(
        before,
        node,
        dominators,
        post_dominators,
        look.loop_after,
        look.loop_matched,
    ));
    assert(patterns.removes_condition(
        before,
        node,
        look.condition_after,
        look.condition_matched,
    ));
}

/// The visits change nothing.
proof fn lemma_edgeless_visits<P: Patterns>(
    patterns: P,
    pass: Pass,
    start: StructurerView,
    i: int,
)
    requires
        rests_without_edges(patterns),
        start.function.wf(),
        start.function.flow.edges.dom() == Set::<u32>::empty(),
        pass.visits_follow(patterns, start),
        0 <= i <= pass.visits.len(),
    ensures
        pass.state_at(start, i) == start,
        pass.basis_at(start, i) == start,
        i > 0 ==> !pass.visits[i - 1].matched,
    decreases i,
{
    if i > 0 {
        lemma_edgeless_visits(patterns, pass, start, i - 1);
        assert(pass.visit_follows(patterns, start, i - 1));
        let visit = pass.visits[i - 1];
        lemma_edgeless_look(
            patterns,
            visit.before,
            visit.node,
            visit.dominators,
            visit.post_dominators,
            visit.after,
            Ok(visit.matched),
        );
    }
}

/// The sweeps so far took out the blocks without a label that they came to.
proof fn lemma_edgeless_sweeps<P: Patterns>(
    patterns: P,
    pass: Pass,
    start: StructurerView,
    i: int,
)
    requires
        rests_without_edges(patterns),
        start.function.wf(),
        start.function.flow.edges.dom() == Set::<u32>::empty(),
        pass.visits_follow(patterns, start),
        pass.sweeps_follow(patterns, start),
        0 <= i <= pass.sweeps.len(),
    ensures
        pass.swept_at(start, i) == start.with_function(pass.swept_at(start, i).function),
        pass.swept_at(start, i).function.wf(),
        pass.swept_at(start, i).function.flow.edges.dom() == Set::<u32>::empty(),
        pass.swept_at(start, i).function.entry == start.function.entry,
        pass.swept_at(start, i).function.id == start.function.id,
        forall|n: u32| #[trigger]
            pass.swept_at(start, i).function.blocks.contains_key(n)
                <==> start.function.blocks.contains_key(n) && (labelled(start.function.blocks[n])
                || !pass.unreached.take(i).contains(n)),
        forall|n: u32| #[trigger]
            pass.swept_at(start, i).function.blocks.contains_key(n) ==> pass.swept_at(
                start,
                i,
            ).function.blocks[n] == start.function.blocks[n],
        i > 0 ==> !pass.sweeps[i - 1].matched,
        i > 0 ==> pass.sweeps[i - 1].after == swept(
            pass.sweeps[i - 1].before,
            pass.sweeps[i - 1].node,
        ),
    decreases i,
{
    if i == 0 {
        lemma_edgeless_visits(patterns, pass, start, pass.visits.len() as int);
    } else {
        lemma_edgeless_sweeps(patterns, pass, start, i - 1);
        assert(pass.sweep_follows(patterns, start, i - 1));
        let sweep = pass.sweeps[i - 1];
        let f = sweep.before.function;
        lemma_take_one(pass.unreached, i - 1);
        lemma_without_node(f.flow, sweep.node);
        assert(f.flow.incoming(sweep.node) =~= Set::<u32>::empty()) by {
            assert forall|e: u32| !f.flow.incoming(sweep.node).contains(e) by {
                assert(!f.flow.edges.dom().contains(e));
            }
        }
        assert(f.flow.has(sweep.node) <==> f.blocks.contains_key(sweep.node));
        if f.flow.has(sweep.node) && labelled(f.blocks[sweep.node]) {
            lemma_edgeless_look(
                patterns,
                sweep.before,
                sweep.node,
                pass.dominators,
                pass.post_dominators,
                sweep.after,
                Ok(sweep.matched),
            );
        }
        assert(f.without_block(sweep.node).flow.edges.dom() =~= Set::<u32>::empty());
    }
}

/// Without edges exactly the entry and the blocks that a label names stay, as they
/// were, and nothing is found.
pub proof fn edgeless_functions_keep_entry_and_labelled_blocks<P: Patterns>(
    patterns: P,
    before: StructurerView,
    after: StructurerView,
    changed: bool,
)
    requires
        rests_without_edges(patterns),
        is_edgeless(before.function),
        passes(patterns, before, after, changed),
    ensures
        !changed,
        after.function.blocks == before.function.blocks.restrict(kept(before.function)),
        after.function.flow.out.dom() == kept(before.function),
        is_edgeless(after.function),
        after.function.entry == before.function.entry,
        after.function.id == before.function.id,
        after.loop_headers == before.loop_headers,
        after.labels == before.labels,
{
    let pass = choose|pass: Pass| #[trigger] pass.gives(patterns, before, after, changed);
    let f = before.function;
    lemma_edgeless_sweeps(patterns, pass, before, pass.sweeps.len() as int);
    lemma_edgeless_visits(patterns, pass, before, pass.visits.len() as int);
    assert(pass.unreached.take(pass.sweeps.len() as int) =~= pass.unreached);
    assert forall|n: u32| #[trigger] after.function.blocks.contains_key(n) <==> kept(f).contains(
        n,
    ) by {
        lemma_edgeless_reach(f.flow, f.entry->0, n);
        assert(pass.unreached.contains(n) <==> pass.left_over(before).contains(n));
        assert(f.flow.has(n) <==> f.blocks.contains_key(n));
    }
    assert(after.function.blocks =~= f.blocks.restrict(kept(f)));
    assert(after.function.flow.out.dom() =~= kept(f));
    if pass.matched() {
        if exists|i: int| 0 <= i < pass.visits.len() && (#[trigger] pass.visits[i]).matched {
            let i = choose|i: int|
                0 <= i < pass.visits.len() && (#[trigger] pass.visits[i]).matched;
            lemma_edgeless_visits(patterns, pass, before, i + 1);
        } else {
            let i = choose|i: int|
                0 <= i < pass.sweeps.len() && (#[trigger] pass.sweeps[i]).matched;
            lemma_edgeless_sweeps(patterns, pass, before, i + 1);
        }
    }
}

/// Without edges a second way through the blocks changes nothing more.
pub proof fn a_second_pass_changes_nothing<P: Patterns>(
    patterns: P,
    before: StructurerView,
    after: StructurerView,
    changed: bool,
    later: StructurerView,
    changed_later: bool,
)
    requires
        rests_without_edges(patterns),
        is_edgeless(before.function),
        passes(patterns, before, after, changed),
        passes(patterns, after, later, changed_later),
    ensures
        later == after,
        !changed_later,
{
    edgeless_functions_keep_entry_and_labelled_blocks(patterns, before, after, changed);
    edgeless_functions_keep_entry_and_labelled_blocks(patterns, after, later, changed_later);
    let pass = choose|pass: Pass| #[trigger] pass.gives(patterns, after, later, changed_later);
    assert(kept(after.function) =~= kept(before.function));
    lemma_nothing_to_sweep(patterns, pass, after, pass.sweeps.len() as int);
}

proof fn lemma_nothing_to_sweep<P: Patterns>(
    patterns: P,
    pass: Pass,
    start: StructurerView,
    i: int,
)
    requires
        rests_without_edges(patterns),
        is_edgeless(start.function),
        start.function.flow.out.dom() == kept(start.function),
        pass.visits_follow(patterns, start),
        pass.sweeps_follow(patterns, start),
        0 <= i <= pass.sweeps.len(),
    ensures
        pass.swept_at(start, i) == start,
    decreases i,
{
    lemma_edgeless_visits(patterns, pass, start, pass.visits.len() as int);
    if i > 0 {
        lemma_nothing_to_sweep(patterns, pass, start, i - 1);
        lemma_edgeless_sweeps(patterns, pass, start, i);
        assert(pass.sweep_follows(patterns, start, i - 1));
        let sweep = pass.sweeps[i - 1];
        assert(pass.unreached.contains(sweep.node));
        assert(pass.left_over(start).contains(sweep.node));
        lemma_edgeless_reach(start.function.flow, start.function.entry->0, sweep.node);
        assert(kept(start.function).contains(sweep.node));
    }
}

/// Without edges a way through the blocks does not fail, while numbers for blocks
/// last.
pub proof fn edgeless_functions_do_not_fail<P: Patterns>(
    patterns: P,
    before: StructurerView,
    error: StructureError,
)
    requires
        rests_without_edges(patterns),
        is_edgeless(before.function),
        before.function.flow.out.dom().len() < u32::MAX,
    ensures
        unready(before.function) is None,
        !pass_fails(patterns, before, error),
{
    let flow = before.function.flow;
    let entry = before.function.entry->0;
    assert(flow.has(entry));
    assert(flow.below_bound(entry));
    assert(flow.exits().subset_of(flow.out.dom()));
    vstd::set_lib::lemma_len_subset(flow.exits(), flow.out.dom());
    if pass_fails(patterns, before, error) {
        let pass = choose|pass: Pass| #[trigger] pass.fails(patterns, before, error);
        let count = pass.visits.len() as int;
        lemma_edgeless_visits(patterns, pass, before, count);
        assert(pass.steady(before)) by {
            assert forall|i: int| 0 <= i < count implies (
            #[trigger] pass.visits[i]).after.function.flow == flow by {
                lemma_edgeless_visits(patterns, pass, before, i + 1);
                assert(pass.state_at(before, i + 1) == pass.visits[i].after);
            }
        }
        if pass.next_node(before) is Some {
            let node = pass.next_node(before)->0;
            let after = choose|after: StructurerView| #[trigger]
                looks(
                    patterns,
                    before,
                    node,
                    pass.dominators,
                    pass.post_dominators,
                    after,
                    Err(error),
                );
            lemma_edgeless_look(
                patterns,
                before,
                node,
                pass.dominators,
                pass.post_dominators,
                after,
                Err(error),
            );
        } else {
            let last = pass.sweeps.len() as int;
            lemma_edgeless_sweeps(patterns, pass, before, last);
            let state = pass.swept_at(before, last);
            let after = choose|after: StructurerView| #[trigger]
                looks(
                    patterns,
                    state,
                    pass.unreached[last],
                    pass.dominators,
                    pass.post_dominators,
                    after,
                    Err(error),
                );
            lemma_edgeless_look(
                patterns,
                state,
                pass.unreached[last],
                pass.dominators,
                pass.post_dominators,
                after,
                Err(error),
            );
        }
    }
}

} // verus!
