//! Giving up edges until no more structure is found.

use vstd::prelude::*;

use crate::blocks::lemma_without_out;
use crate::cfg::is_dominance;
use crate::flow::{ascending, dominator_chains, dominators_of, Dominance, Flow};
use crate::idle::{
    edgeless_functions_do_not_fail, edgeless_functions_keep_entry_and_labelled_blocks,
    is_edgeless, nothing_is_found_without_patterns, only_dead_blocks_gone, rests_without_edges,
};
use crate::lists::lemma_filter;
use crate::passes::{pass_fails, passes};
use crate::patterns::{NoPatterns, Patterns, StructureError};
use crate::structurer::{GraphStructurer, StructurerView};

verus! {

impl StructurerView {
    /// Neither end of the edge `e` dominates the other, and both can be reached.
    pub open spec fn is_loose(self, e: u32) -> bool {
        let flow = self.function.flow;
        let root = self.function.entry->0;
        let source = self.edge(e).source;
        let target = self.edge(e).target;
        &&& flow.reaches(root, source)
        &&& flow.reaches(root, target)
        &&& !flow.dominates(root, source, target)
        &&& !flow.dominates(root, target, source)
    }

    /// The edges in the order in which they are tried: first the loose ones, then
    /// all.
    pub open spec fn tries(self, edges: Seq<u32>) -> Seq<u32> {
        edges.filter(|e: u32| self.is_loose(e)) + edges
    }

    /// There is only one block left.
    pub open spec fn is_single(self) -> bool {
        self.function.flow.out.dom().len() == 1
    }
}

/// Giving up the edge `e` and looking for the loop headers anew makes `given` of
/// `before`.
pub open spec fn yields<P: Patterns>(
    patterns: P,
    before: StructurerView,
    e: u32,
    given: StructurerView,
) -> bool {
    exists|for_next: bool|
        patterns.answers_for_next(before, before.edge(e).target, for_next) && before.can_give_up(
            e,
            for_next,
        ) && (#[trigger] before.given_up(e, for_next)).function.has_start() && given
            == before.given_up(e, for_next).with_loop_heads()
}

/// Giving up the edge `e` is tried: it is kept where a way through the blocks
/// then finds structure, and taken back where it does not.
pub open spec fn refines<P: Patterns>(
    patterns: P,
    before: StructurerView,
    e: u32,
    after: StructurerView,
    refined: bool,
) -> bool {
    exists|given: StructurerView, passed: StructurerView|
        #![trigger yields(patterns, before, e, given), passes(patterns, given, passed, refined)]
        yields(patterns, before, e, given) && passes(patterns, given, passed, refined) && after
            == if refined {
            passed
        } else {
            before
        }
}

/// Giving up the edge `e` fails.
pub open spec fn refine_fails<P: Patterns>(
    patterns: P,
    before: StructurerView,
    e: u32,
    error: StructureError,
) -> bool {
    ||| !before.function.flow.edges.contains_key(e) && error == StructureError::CannotGiveUp(e)
    ||| exists|for_next: bool|
        patterns.answers_for_next(before, before.edge(e).target, for_next)
            && !#[trigger] before.can_give_up(e, for_next) && error
            == StructureError::CannotGiveUp(e)
    ||| exists|for_next: bool|
        patterns.answers_for_next(before, before.edge(e).target, for_next) && before.can_give_up(
            e,
            for_next,
        ) && !(#[trigger] before.given_up(e, for_next)).function.has_start() && error
            == StructureError::MissingEntry
    ||| exists|given: StructurerView| #[trigger]
        yields(patterns, before, e, given) && pass_fails(patterns, given, error)
}

/// None of the first `n` edges of the list refines anything.
pub open spec fn in_vain<P: Patterns>(
    patterns: P,
    before: StructurerView,
    list: Seq<u32>,
    n: int,
) -> bool {
    forall|i: int| 0 <= i < n ==> #[trigger] refines(patterns, before, list[i], before, false)
}

/// The edges are tried one after another until giving one up refines something.
pub open spec fn settles<P: Patterns>(
    patterns: P,
    before: StructurerView,
    after: StructurerView,
    refined: bool,
) -> bool {
    exists|edges: Seq<u32>| #[trigger]
        ascending(edges, before.function.flow.edges.dom()) && {
            let list = before.tries(edges);
            if refined {
                exists|k: int|
                    0 <= k < list.len() && in_vain(patterns, before, list, k) && #[trigger] refines(
                        patterns,
                        before,
                        list[k],
                        after,
                        true,
                    )
            } else {
                in_vain(patterns, before, list, list.len() as int) && after == before
            }
        }
}

/// Trying the edges one after another fails.
pub open spec fn settling_fails<P: Patterns>(
    patterns: P,
    before: StructurerView,
    error: StructureError,
) -> bool {
    ||| !before.function.has_start() && error == StructureError::MissingEntry
    ||| before.function.has_start() && exists|edges: Seq<u32>| #[trigger]
        ascending(edges, before.function.flow.edges.dom()) && exists|k: int|
            0 <= k < before.tries(edges).len() && in_vain(
                patterns,
                before,
                before.tries(edges),
                k,
            ) && #[trigger] refine_fails(patterns, before, before.tries(edges)[k], error)
}

/// One step of collapsing: a way through the blocks that finds structure, or one
/// that does not and an edge given up instead.
pub open spec fn steps<P: Patterns>(
    patterns: P,
    before: StructurerView,
    after: StructurerView,
) -> bool {
    ||| passes(patterns, before, after, true)
    ||| exists|passed: StructurerView| #[trigger]
        passes(patterns, before, passed, false) && !passed.is_single() && settles(
            patterns,
            passed,
            after,
            true,
        )
}

/// Collapsing comes to its end: no structure is found, and either one block is
/// left or no edge is worth giving up.
pub open spec fn ends<P: Patterns>(
    patterns: P,
    before: StructurerView,
    after: StructurerView,
) -> bool {
    &&& passes(patterns, before, after, false)
    &&& after.is_single() || settles(patterns, after, after, false)
}

/// Collapsing cannot go on from `before`.
pub open spec fn halts<P: Patterns>(
    patterns: P,
    before: StructurerView,
    error: StructureError,
) -> bool {
    ||| pass_fails(patterns, before, error)
    ||| exists|passed: StructurerView| #[trigger]
        passes(patterns, before, passed, false) && !passed.is_single() && settling_fails(
            patterns,
            passed,
            error,
        )
}

/// Every state of the list follows from the one before it by one step.
pub open spec fn is_trace<P: Patterns>(
    patterns: P,
    before: StructurerView,
    trace: Seq<StructurerView>,
) -> bool {
    &&& trace.len() > 0
    &&& trace[0] == before
    &&& forall|i: int, j: int|
        0 <= i && j == i + 1 && j < trace.len() ==> steps(
            patterns,
            #[trigger] trace[i],
            #[trigger] trace[j],
        )
}

/// Collapsing makes `after` of `before`.
pub open spec fn collapses<P: Patterns>(
    patterns: P,
    before: StructurerView,
    after: StructurerView,
) -> bool {
    exists|trace: Seq<StructurerView>| #[trigger]
        is_trace(patterns, before, trace) && ends(patterns, trace.last(), after)
}

/// Collapsing `before` fails.
pub open spec fn collapse_fails<P: Patterns>(
    patterns: P,
    before: StructurerView,
    error: StructureError,
) -> bool {
    exists|trace: Seq<StructurerView>| #[trigger]
        is_trace(patterns, before, trace) && {
            ||| halts(patterns, trace.last(), error)
            ||| trace.len() > u64::MAX && error == StructureError::NoEnd
        }
}

/// The edges out of a node and the other edges are all edges.
proof fn lemma_out_count(f: Flow, node: u32)
    requires
        f.wf(),
    ensures
        f.without_out(node).edges.dom().len() + f.out_edges(node).len() == f.edges.dom().len(),
{
    lemma_without_out(f, node);
    let rest = f.without_out(node).edges.dom();
    let own = f.out_edges(node).to_set();
    f.out_edges(node).unique_seq_to_set();
    assert forall|e: u32| own.contains(e) <==> f.edges.contains_key(e) && f.edges[e].source
        == node by {
        if f.has(node) {
            assert(f.out[node].contains(e) <==> f.edges.contains_key(e) && f.edges[e].source
                == node);
        }
    }
    assert(rest + own =~= f.edges.dom());
    assert(rest.disjoint(own));
    vstd::set_lib::lemma_set_disjoint_lens(rest, own);
}

proof fn lemma_filter_push(list: Seq<u32>, i: int, keep: spec_fn(u32) -> bool)
    requires
        0 <= i < list.len(),
    ensures
        list.take(i + 1).filter(keep) == if keep(list[i]) {
            list.take(i).filter(keep).push(list[i])
        } else {
            list.take(i).filter(keep)
        },
{
    reveal(Seq::filter);
    assert(list.take(i + 1).drop_last() =~= list.take(i));
}

impl GraphStructurer {
    /// Whether an edge can be given up.
    pub fn can_give_up(&self, edge: u32, for_next: bool) -> (possible: bool)
        ensures
            possible == self@.can_give_up(edge, for_next),
    {
        proof {
            use_type_invariant(&self.function);
            self.lemma_view();
        }
        let (source, target) = match self.function.edge_endpoints(edge) {
            None => {
                return false;
            },
            Some(ends) => ends,
        };
        let weight = self.function.edge_weight(edge).unwrap();
        let most: usize = u32::MAX as usize;
        let edges = self.function.edge_count();
        if edges > most {
            return false;
        }
        proof {
            assert(self@.function.flow.has(source) && self@.function.flow.has(target));
            lemma_out_count(self@.function.flow, source);
        }
        let leaving = self.function.edges(source).len();
        if weight.branch_type == crate::flow::BranchType::Unconditional
            && self.function.predecessor_count(target) == 1 {
            return source != target && leaving == 1;
        }
        if self.function.entry() != Some(target) && !self.is_loop_header(target) && !for_next
            && Self::inlineable_block(self.function.block(target).unwrap()).is_some() {
            let kept: usize = edges - leaving;
            return self.function.edges(target).len() <= most - kept;
        }
        self.function.node_count() < most
    }

    /// Gives up an edge where that lets structure be found, and leaves everything
    /// as it was where it does not.  Tells whether it gave up the edge.
    pub fn try_refine_with_edge<P: Patterns>(&mut self, patterns: &P, edge: u32) -> (result: Result<
        bool,
        StructureError,
    >)
        ensures
            match result {
                Ok(refined) => refines(*patterns, old(self)@, edge, final(self)@, refined),
                Err(error) => refine_fails(*patterns, old(self)@, edge, error),
            },
    {
        let ghost before = self@;
        let target = match self.function.edge_endpoints(edge) {
            None => {
                proof {
                    self.lemma_view();
                }
                return Err(StructureError::CannotGiveUp(edge));
            },
            Some(ends) => ends.1,
        };
        proof {
            self.lemma_view();
        }
        let for_next = patterns.is_for_next(self, target);
        if !self.can_give_up(edge, for_next) {
            return Err(StructureError::CannotGiveUp(edge));
        }
        let function_snapshot = self.function.clone();
        let loop_headers_snapshot = crate::tables::clone_node_set(&self.loop_headers);
        let label_to_node_snapshot = crate::tables::clone_label_table(&self.label_to_node);
        self.insert_goto_for_edge(edge, for_next);
        let ghost cut = self@;
        proof {
            self.lemma_view();
        }
        if !self.function.has_start() {
            assert(!before.given_up(edge, for_next).function.has_start());
            return Err(StructureError::MissingEntry);
        }
        self.find_loop_headers();
        let ghost given = self@;
        proof {
            assert(given == before.given_up(edge, for_next).with_loop_heads());
            assert(yields(*patterns, before, edge, given));
        }
        let refined = match self.match_blocks(patterns) {
            Ok(refined) => refined,
            Err(error) => {
                return Err(error);
            },
        };
        let ghost passed = self@;
        if !refined {
            self.function = function_snapshot;
            self.loop_headers = loop_headers_snapshot;
            self.label_to_node = label_to_node_snapshot;
            proof {
                self.lemma_view();
                assert(self@ =~= before);
            }
        }
        assert(yields(*patterns, before, edge, given) && passes(
            *patterns,
            given,
            passed,
            refined,
        ));
        Ok(refined)
    }

    /// Whether neither end of an edge dominates the other.
    fn is_loose(&self, edge: u32, dominators: &Dominance) -> (loose: bool)
        requires
            self@.function.flow.edges.contains_key(edge),
            is_dominance(
                self@.function.flow,
                self@.function.entry->0,
                dominator_chains(*dominators),
            ),
        ensures
            loose == self@.is_loose(edge),
    {
        proof {
            self.lemma_view();
        }
        let (source, target) = self.function.edge_endpoints(edge).unwrap();
        match (dominators_of(dominators, target), dominators_of(dominators, source)) {
            (Some(target_dominators), Some(source_dominators)) => {
                !holds(&target_dominators, source) && !holds(&source_dominators, target)
            },
            _ => false,
        }
    }

    /// Gives up the first edge that lets structure be found.  Edges of which
    /// neither end dominates the other are preferred.
    pub fn refine<P: Patterns>(&mut self, patterns: &P) -> (result: Result<bool, StructureError>)
        ensures
            match result {
                Ok(refined) => settles(*patterns, old(self)@, final(self)@, refined),
                Err(error) => settling_fails(*patterns, old(self)@, error),
            },
    {
        let ghost before = self@;
        proof {
            self.lemma_view();
        }
        if !self.function.has_start() {
            return Err(StructureError::MissingEntry);
        }
        let entry = self.function.entry().unwrap();
        let edges = self.function.edge_indices();
        let dominators = self.function.dominators(entry);
        let ghost keep = |e: u32| before.is_loose(e);
        let mut list: Vec<u32> = Vec::new();
        assert(edges@.take(0).filter(keep) =~= Seq::empty()) by {
            reveal(Seq::filter);
        }
        for i in 0..edges.len()
            invariant
                self@ == before,
                ascending(edges@, before.function.flow.edges.dom()),
                is_dominance(
                    before.function.flow,
                    before.function.entry->0,
                    dominator_chains(dominators),
                ),
                keep == (|e: u32| before.is_loose(e)),
                list@ == edges@.take(i as int).filter(keep),
        {
            assert(edges@.contains(edges@[i as int]));
            if self.is_loose(edges[i], &dominators) {
                list.push(edges[i]);
            }
            proof {
                lemma_filter_push(edges@, i as int, keep);
            }
        }
        assert(edges@.take(edges@.len() as int) =~= edges@);
        let mut all = edges.clone();
        assert(all@ =~= edges@);
        list.append(&mut all);
        assert(list@ =~= before.tries(edges@));
        for i in 0..list.len()
            invariant
                before == old(self)@,
                before.function.has_start(),
                self@ == before,
                ascending(edges@, before.function.flow.edges.dom()),
                list@ == before.tries(edges@),
                in_vain(*patterns, before, list@, i as int),
        {
            match self.try_refine_with_edge(patterns, list[i]) {
                Err(error) => {
                    assert(refine_fails(
                        *patterns,
                        before,
                        before.tries(edges@)[i as int],
                        error,
                    ));
                    return Err(error);
                },
                Ok(refined) => {
                    if refined {
                        assert(refines(*patterns, before, list@[i as int], self@, true));
                        return Ok(true);
                    }
                },
            }
        }
        Ok(false)
    }

    /// Looks for structure, and gives up edges where none is found, until there is
    /// nothing left to do.
    pub fn collapse<P: Patterns>(&mut self, patterns: &P) -> (result: Result<(), StructureError>)
        ensures
            match result {
                Ok(_) => {
                    &&& collapses(*patterns, old(self)@, final(self)@)
                    &&& exists|last: StructurerView| #[trigger]
                        passes(*patterns, last, final(self)@, false)
                    &&& final(self)@.function.flow.out.dom().len() == 1 || forall|e: u32| #[trigger]
                        final(self)@.function.flow.edges.contains_key(e) ==> refines(
                            *patterns,
                            final(self)@,
                            e,
                            final(self)@,
                            false,
                        )
                },
                Err(error) => collapse_fails(*patterns, old(self)@, error),
            },
    {
        let ghost before = self@;
        let ghost mut trace = seq![before];
        let mut rounds: u64 = 0;
        loop
            invariant
                before == old(self)@,
                is_trace(*patterns, before, trace),
                trace.last() == self@,
                trace.len() == rounds + 1,
            decreases u64::MAX - rounds,
        {
            let ghost at = self@;
            match self.match_blocks(patterns) {
                Err(error) => {
                    assert(halts(*patterns, trace.last(), error));
                    return Err(error);
                },
                Ok(changed) => {
                    if !changed {
                        let ghost passed = self@;
                        proof {
                            self.lemma_view();
                        }
                        if self.function.node_count() == 1 {
                            assert(ends(*patterns, trace.last(), self@));
                            assert(collapses(*patterns, before, self@));
                            proof {
                                collapsed_functions_are_at_rest(*patterns, before, self@);
                            }
                            return Ok(());
                        }
                        match self.refine(patterns) {
                            Err(error) => {
                                assert(passes(*patterns, at, passed, false)
                                    && !passed.is_single() && settling_fails(
                                    *patterns,
                                    passed,
                                    error,
                                ));
                                assert(halts(*patterns, trace.last(), error));
                                return Err(error);
                            },
                            Ok(refined) => {
                                if !refined {
                                    assert(self@ == passed);
                                    assert(ends(*patterns, trace.last(), self@));
                                    assert(collapses(*patterns, before, self@));
                                    proof {
                                        collapsed_functions_are_at_rest(*patterns, before, self@);
                                    }
                                    return Ok(());
                                }
                                assert(passes(*patterns, at, passed, false)
                                    && !passed.is_single() && settles(
                                    *patterns,
                                    passed,
                                    self@,
                                    true,
                                ));
                            },
                        }
                    }
                },
            }
            proof {
                assert(steps(*patterns, at, self@));
                lemma_trace(*patterns, before, trace, self@);
                trace = trace.push(self@);
            }
            if rounds == u64::MAX {
                return Err(StructureError::NoEnd);
            }
            rounds = rounds + 1;
        }
    }
}

/// One more step.
proof fn lemma_trace<P: Patterns>(
    patterns: P,
    before: StructurerView,
    trace: Seq<StructurerView>,
    next: StructurerView,
)
    requires
        is_trace(patterns, before, trace),
        steps(patterns, trace.last(), next),
    ensures
        is_trace(patterns, before, trace.push(next)),
{
    let longer = trace.push(next);
    assert forall|i: int, j: int| 0 <= i && j == i + 1 && j < longer.len() implies steps(
        patterns,
        #[trigger] longer[i],
        #[trigger] longer[j],
    ) by {
        assert(longer[i] == trace[i]);
        if j < trace.len() {
            assert(longer[j] == trace[j]);
        }
    }
}

/// Whether a number is in a list.
fn holds(list: &Vec<u32>, n: u32) -> (found: bool)
    ensures
        found == list@.contains(n),
{
    for i in 0..list.len()
        invariant
            forall|j: int| 0 <= j < i ==> list@[j] != n,
    {
        if list[i] == n {
            return true;
        }
    }
    false
}

/// An edge that is given up in vain changes nothing.
pub proof fn vain_refinement_changes_nothing<P: Patterns>(
    patterns: P,
    before: StructurerView,
    e: u32,
    after: StructurerView,
)
    requires
        refines(patterns, before, e, after, false),
    ensures
        after == before,
{
}

/// Without patterns no edge is worth giving up, and one way through the blocks is
/// all that is done.
pub proof fn nothing_is_refined_without_patterns(before: StructurerView, after: StructurerView)
    requires
        collapses(NoPatterns, before, after),
    ensures
        passes(NoPatterns, before, after, false),
        before.function.wf() ==> only_dead_blocks_gone(before, after) && after.function.wf(),
{
    let trace = choose|trace: Seq<StructurerView>| #[trigger]
        is_trace(NoPatterns, before, trace) && ends(NoPatterns, trace.last(), after);
    lemma_no_steps(before, trace);
    nothing_is_found_without_patterns(before, after, false);
}

/// Without patterns no step is ever taken.
proof fn lemma_no_steps(before: StructurerView, trace: Seq<StructurerView>)
    requires
        is_trace(NoPatterns, before, trace),
    ensures
        trace.len() == 1,
        trace.last() == before,
{
    if trace.len() > 1 {
        assert(steps(NoPatterns, trace[0], trace[1]));
        if passes(NoPatterns, trace[0], trace[1], true) {
            nothing_is_found_without_patterns(trace[0], trace[1], true);
        } else {
            let passed = choose|passed: StructurerView| #[trigger]
                passes(NoPatterns, trace[0], passed, false) && !passed.is_single() && settles(
                    NoPatterns,
                    passed,
                    trace[1],
                    true,
                );
            lemma_unsettled_without_patterns(passed, trace[1]);
        }
    }
}

/// Without edges there is nothing to try.
proof fn lemma_nothing_to_try(state: StructurerView)
    requires
        state.function.flow.edges.dom() == Set::<u32>::empty(),
    ensures
        forall|edges: Seq<u32>| #[trigger]
            ascending(edges, state.function.flow.edges.dom()) ==> state.tries(edges).len() == 0,
{
    assert forall|edges: Seq<u32>| #[trigger]
        ascending(edges, state.function.flow.edges.dom()) implies state.tries(edges).len() == 0 by {
        if edges.len() > 0 {
            assert(edges.contains(edges[0]));
        }
        reveal(Seq::filter);
    }
}

/// Without edges no step is ever taken.
proof fn lemma_no_edgeless_steps<P: Patterns>(
    patterns: P,
    before: StructurerView,
    trace: Seq<StructurerView>,
)
    requires
        rests_without_edges(patterns),
        is_edgeless(before.function),
        is_trace(patterns, before, trace),
    ensures
        trace.len() == 1,
        trace.last() == before,
{
    if trace.len() > 1 {
        assert(steps(patterns, trace[0], trace[1]));
        if passes(patterns, before, trace[1], true) {
            edgeless_functions_keep_entry_and_labelled_blocks(patterns, before, trace[1], true);
        } else {
            let passed = choose|passed: StructurerView| #[trigger]
                passes(patterns, before, passed, false) && !passed.is_single() && settles(
                    patterns,
                    passed,
                    trace[1],
                    true,
                );
            edgeless_functions_keep_entry_and_labelled_blocks(patterns, before, passed, false);
            lemma_nothing_to_try(passed);
        }
    }
}

/// Without edges collapsing is one way through the blocks.
pub proof fn edgeless_functions_collapse_at_once<P: Patterns>(
    patterns: P,
    before: StructurerView,
    after: StructurerView,
)
    requires
        rests_without_edges(patterns),
        is_edgeless(before.function),
        collapses(patterns, before, after),
    ensures
        passes(patterns, before, after, false),
{
    let trace = choose|trace: Seq<StructurerView>| #[trigger]
        is_trace(patterns, before, trace) && ends(patterns, trace.last(), after);
    lemma_no_edgeless_steps(patterns, before, trace);
}

/// Without edges collapsing does not fail, while numbers for blocks last.
pub proof fn edgeless_functions_collapse<P: Patterns>(
    patterns: P,
    before: StructurerView,
    error: StructureError,
)
    requires
        rests_without_edges(patterns),
        is_edgeless(before.function),
        before.function.flow.out.dom().len() < u32::MAX,
    ensures
        !collapse_fails(patterns, before, error),
{
    edgeless_functions_do_not_fail(patterns, before, error);
    if collapse_fails(patterns, before, error) {
        let trace = choose|trace: Seq<StructurerView>| #[trigger]
            is_trace(patterns, before, trace) && {
                ||| halts(patterns, trace.last(), error)
                ||| trace.len() > u64::MAX && error == StructureError::NoEnd
            };
        lemma_no_edgeless_steps(patterns, before, trace);
        let passed = choose|passed: StructurerView| #[trigger]
            passes(patterns, before, passed, false) && !passed.is_single() && settling_fails(
                patterns,
                passed,
                error,
            );
        edgeless_functions_keep_entry_and_labelled_blocks(patterns, before, passed, false);
        let entry = before.function.entry->0;
        assert(passed.function.flow.has(entry));
        assert(passed.function.has_start());
        lemma_nothing_to_try(passed);
    }
}

proof fn lemma_unsettled_without_patterns(before: StructurerView, after: StructurerView)
    ensures
        !settles(NoPatterns, before, after, true),
{
    if settles(NoPatterns, before, after, true) {
        let edges = choose|edges: Seq<u32>| #[trigger]
            ascending(edges, before.function.flow.edges.dom()) && exists|k: int|
                0 <= k < before.tries(edges).len() && in_vain(
                    NoPatterns,
                    before,
                    before.tries(edges),
                    k,
                ) && #[trigger] refines(NoPatterns, before, before.tries(edges)[k], after, true);
        let list = before.tries(edges);
        let k = choose|k: int|
            0 <= k < list.len() && in_vain(NoPatterns, before, list, k) && #[trigger] refines(
                NoPatterns,
                before,
                list[k],
                after,
                true,
            );
        let (given, passed) = choose|given: StructurerView, passed: StructurerView|
            #![trigger yields(NoPatterns, before, list[k], given),
                passes(NoPatterns, given, passed, true)]
            yields(NoPatterns, before, list[k], given) && passes(NoPatterns, given, passed, true);
        nothing_is_found_without_patterns(given, passed, true);
    }
}

/// Trying to give up an edge is giving it up, looking for the loop headers anew and
/// going through the blocks.  Where that finds structure, what it left stays; where
/// it does not, everything is as it was.
pub proof fn edges_are_given_up_on_trial<P: Patterns>(
    patterns: P,
    before: StructurerView,
    e: u32,
    after: StructurerView,
    refined: bool,
)
    requires
        refines(patterns, before, e, after, refined),
    ensures
        exists|for_next: bool, passed: StructurerView|
            #![trigger before.given_up(e, for_next), passes(
                patterns, before.given_up(e, for_next).with_loop_heads(), passed, refined)]
            {
                &&& patterns.answers_for_next(
                    before,
                    before.function.flow.edges[e].target,
                    for_next,
                )
                &&& before.can_give_up(e, for_next)
                &&& passes(
                    patterns,
                    before.given_up(e, for_next).with_loop_heads(),
                    passed,
                    refined,
                )
                &&& refined ==> after == passed
                &&& !refined ==> after == before
            },
{
    let (given, passed) = choose|given: StructurerView, passed: StructurerView|
        #![trigger yields(patterns, before, e, given), passes(patterns, given, passed, refined)]
        yields(patterns, before, e, given) && passes(patterns, given, passed, refined) && after
            == if refined {
            passed
        } else {
            before
        };
    let for_next = choose|for_next: bool|
        patterns.answers_for_next(before, before.edge(e).target, for_next) && before.can_give_up(
            e,
            for_next,
        ) && (#[trigger] before.given_up(e, for_next)).function.has_start() && given
            == before.given_up(e, for_next).with_loop_heads();
    assert(passes(patterns, before.given_up(e, for_next).with_loop_heads(), passed, refined));
}

/// An edge that is given up for good finds structure, and others were tried in vain
/// before it: where neither of its ends dominates the other, all such edges with lower
/// numbers; or else all such edges, and all edges with lower numbers.
pub proof fn loose_edges_are_tried_first<P: Patterns>(
    patterns: P,
    before: StructurerView,
    after: StructurerView,
)
    requires
        settles(patterns, before, after, true),
    ensures
        exists|e: u32| #[trigger]
            refines(patterns, before, e, after, true) && before.function.flow.edges.contains_key(e)
                && {
                ||| before.is_loose(e) && forall|x: u32| #[trigger]
                    before.function.flow.edges.contains_key(x) && before.is_loose(x) && x < e
                        ==> refines(patterns, before, x, before, false)
                ||| forall|x: u32| #[trigger]
                    before.function.flow.edges.contains_key(x) && (before.is_loose(x) || x < e)
                        ==> refines(patterns, before, x, before, false)
            },
{
    let edges = choose|edges: Seq<u32>| #[trigger]
        ascending(edges, before.function.flow.edges.dom()) && exists|k: int|
            0 <= k < before.tries(edges).len() && in_vain(
                patterns,
                before,
                before.tries(edges),
                k,
            ) && #[trigger] refines(patterns, before, before.tries(edges)[k], after, true);
    let list = before.tries(edges);
    let k = choose|k: int|
        0 <= k < list.len() && in_vain(patterns, before, list, k) && #[trigger] refines(
            patterns,
            before,
            list[k],
            after,
            true,
        );
    let keep = |e: u32| before.is_loose(e);
    let loose = edges.filter(keep);
    let e = list[k];
    lemma_filter(edges, keep);
    lemma_filter_ascending(edges, before.function.flow.edges.dom(), keep);
    if k < loose.len() {
        assert(loose.contains(loose[k]));
        assert(before.is_loose(e));
        assert forall|x: u32| #[trigger]
            before.function.flow.edges.contains_key(x) && before.is_loose(x) && x < e implies
            refines(patterns, before, x, before, false) by {
            assert(edges.contains(x));
            assert(loose.contains(x));
            let i = choose|i: int| 0 <= i < loose.len() && loose[i] == x;
            assert(list[i] == x);
            assert(i < k);
            assert(refines(patterns, before, list[i], before, false));
        }
    } else {
        let at = k - loose.len();
        assert(edges[at] == e);
        assert(edges.contains(edges[at]));
        assert forall|x: u32| #[trigger]
            before.function.flow.edges.contains_key(x) && (before.is_loose(x) || x < e) implies
            refines(patterns, before, x, before, false) by {
            assert(edges.contains(x));
            if before.is_loose(x) {
                assert(loose.contains(x));
                let i = choose|i: int| 0 <= i < loose.len() && loose[i] == x;
                assert(list[i] == x);
                assert(refines(patterns, before, list[i], before, false));
            } else {
                let i = choose|i: int| 0 <= i < edges.len() && edges[i] == x;
                assert(list[loose.len() + i] == x);
                assert(i < at);
                assert(refines(patterns, before, list[loose.len() + i], before, false));
            }
        }
    }
    assert(before.function.flow.edges.contains_key(e));
}

/// Filtering keeps a list ascending.
proof fn lemma_filter_ascending(list: Seq<u32>, all: Set<u32>, keep: spec_fn(u32) -> bool)
    requires
        ascending(list, all),
    ensures
        forall|i: int, j: int|
            0 <= i < j < list.filter(keep).len() ==> list.filter(keep)[i] < list.filter(keep)[j],
    decreases list.len(),
{
    reveal(Seq::filter);
    if list.len() > 0 {
        let front = list.drop_last();
        assert(ascending(front, front.to_set()));
        lemma_filter_ascending(front, front.to_set(), keep);
        lemma_filter(front, keep);
        assert forall|i: int, j: int| 0 <= i < j < list.filter(keep).len() implies list.filter(
            keep,
        )[i] < list.filter(keep)[j] by {
            if keep(list.last()) && j == front.filter(keep).len() {
                let x = front.filter(keep)[i];
                assert(front.filter(keep).contains(x));
                let m = choose|m: int| 0 <= m < front.len() && front[m] == x;
                assert(list[m] < list[list.len() - 1]);
            }
        }
    }
}

/// Where no edge is given up, every edge was tried in vain, and nothing changed.
pub proof fn every_edge_is_tried<P: Patterns>(
    patterns: P,
    before: StructurerView,
    after: StructurerView,
)
    requires
        settles(patterns, before, after, false),
    ensures
        after == before,
        forall|e: u32| #[trigger]
            before.function.flow.edges.contains_key(e) ==> refines(
                patterns,
                before,
                e,
                before,
                false,
            ),
{
    let edges = choose|edges: Seq<u32>| #[trigger]
        ascending(edges, before.function.flow.edges.dom()) && in_vain(
            patterns,
            before,
            before.tries(edges),
            before.tries(edges).len() as int,
        ) && after == before;
    let list = before.tries(edges);
    assert forall|e: u32| #[trigger] before.function.flow.edges.contains_key(e) implies refines(
        patterns,
        before,
        e,
        before,
        false,
    ) by {
        assert(edges.contains(e));
        let i = choose|i: int| 0 <= i < edges.len() && edges[i] == e;
        let at = list.len() - edges.len() + i;
        assert(list[at] == e);
        assert(refines(patterns, before, list[at], before, false));
    }
}

/// An edge is loose where both ends can be reached, each without passing through the
/// other.
pub proof fn loose_edges_join_independent_blocks(state: StructurerView, e: u32)
    requires
        state.is_loose(e),
    ensures
        exists|path: Seq<u32>| #[trigger]
            state.function.flow.is_path(
                path,
                state.function.entry->0,
                state.function.flow.edges[e].target,
            ) && !path.contains(state.function.flow.edges[e].source),
        exists|path: Seq<u32>| #[trigger]
            state.function.flow.is_path(
                path,
                state.function.entry->0,
                state.function.flow.edges[e].source,
            ) && !path.contains(state.function.flow.edges[e].target),
{
}

/// The converse: such an edge is loose.
pub proof fn independent_blocks_are_joined_by_loose_edges(
    state: StructurerView,
    e: u32,
    to_target: Seq<u32>,
    to_source: Seq<u32>,
)
    requires
        state.function.flow.is_path(
            to_target,
            state.function.entry->0,
            state.function.flow.edges[e].target,
        ),
        !to_target.contains(state.function.flow.edges[e].source),
        state.function.flow.is_path(
            to_source,
            state.function.entry->0,
            state.function.flow.edges[e].source,
        ),
        !to_source.contains(state.function.flow.edges[e].target),
    ensures
        state.is_loose(e),
{
}

/// Whatever the patterns, collapsing leaves a function at rest: the last way through
/// the blocks found no structure, and either one block is left or giving up any of the
/// edges finds none either.
pub proof fn collapsed_functions_are_at_rest<P: Patterns>(
    patterns: P,
    before: StructurerView,
    after: StructurerView,
)
    requires
        collapses(patterns, before, after),
    ensures
        exists|last: StructurerView| #[trigger] passes(patterns, last, after, false),
        after.function.flow.out.dom().len() == 1 || forall|e: u32| #[trigger]
            after.function.flow.edges.contains_key(e) ==> refines(patterns, after, e, after, false),
{
    let trace = choose|trace: Seq<StructurerView>| #[trigger]
        is_trace(patterns, before, trace) && ends(patterns, trace.last(), after);
    assert(passes(patterns, trace.last(), after, false));
    if after.function.flow.out.dom().len() != 1 {
        every_edge_is_tried(patterns, after, after);
    }
}

/// Collapsing goes from state to state by ways through the blocks that find structure,
/// and where one finds none and more than one block is left, by giving up an edge.
pub proof fn collapsing_goes_on_while_it_helps<P: Patterns>(
    patterns: P,
    before: StructurerView,
    after: StructurerView,
)
    requires
        collapses(patterns, before, after),
    ensures
        exists|trace: Seq<StructurerView>|
            trace.len() > 0 && trace[0] == before && #[trigger] passes(
                patterns,
                trace.last(),
                after,
                false,
            ) && forall|i: int, j: int|
                0 <= i && j == i + 1 && j < trace.len() ==> passes(
                    patterns,
                    #[trigger] trace[i],
                    #[trigger] trace[j],
                    true,
                ) || exists|passed: StructurerView| #[trigger]
                    passes(patterns, trace[i], passed, false)
                        && passed.function.flow.out.dom().len() != 1 && settles(
                        patterns,
                        passed,
                        trace[j],
                        true,
                    ),
{
    let trace = choose|trace: Seq<StructurerView>| #[trigger]
        is_trace(patterns, before, trace) && ends(patterns, trace.last(), after);
    assert(passes(patterns, trace.last(), after, false));
    traces_go_step_by_step(patterns, before, trace);
}

/// Trying an edge fails only where there is none, where it cannot be given up by what
/// the patterns answer of its target, where the entry is lost with it, or where the
/// way through the blocks fails.
pub proof fn trials_fail_for_a_reason<P: Patterns>(
    patterns: P,
    before: StructurerView,
    e: u32,
    error: StructureError,
)
    requires
        refine_fails(patterns, before, e, error),
    ensures
        !before.function.flow.edges.contains_key(e) ==> error == StructureError::CannotGiveUp(e),
        before.function.flow.edges.contains_key(e) ==> exists|for_next: bool|
            #![trigger before.can_give_up(e, for_next)]
            {
                &&& patterns.answers_for_next(
                    before,
                    before.function.flow.edges[e].target,
                    for_next,
                )
                &&& !before.can_give_up(e, for_next) ==> error == StructureError::CannotGiveUp(e)
                &&& before.can_give_up(e, for_next) && !before.given_up(
                    e,
                    for_next,
                ).function.has_start() ==> error == StructureError::MissingEntry
                &&& before.can_give_up(e, for_next) && before.given_up(
                    e,
                    for_next,
                ).function.has_start() ==> pass_fails(
                    patterns,
                    before.given_up(e, for_next).with_loop_heads(),
                    error,
                )
            },
{
    if exists|given: StructurerView| #[trigger]
        yields(patterns, before, e, given) && pass_fails(patterns, given, error) {
        let given = choose|given: StructurerView| #[trigger]
            yields(patterns, before, e, given) && pass_fails(patterns, given, error);
        let for_next = choose|for_next: bool|
            patterns.answers_for_next(before, before.edge(e).target, for_next)
                && before.can_give_up(e, for_next) && (#[trigger] before.given_up(
                e,
                for_next,
            )).function.has_start() && given == before.given_up(e, for_next).with_loop_heads();
        assert(before.can_give_up(e, for_next));
        assert(pass_fails(patterns, before.given_up(e, for_next).with_loop_heads(), error));
    }
}

/// A trace goes from the start from state to state, each by a way through the blocks
/// that finds structure, or by one that finds none and leaves more than one block, and
/// by giving up an edge then.
pub proof fn traces_go_step_by_step<P: Patterns>(
    patterns: P,
    before: StructurerView,
    trace: Seq<StructurerView>,
)
    requires
        is_trace(patterns, before, trace),
    ensures
        trace.len() > 0,
        trace[0] == before,
        forall|i: int, j: int|
            0 <= i && j == i + 1 && j < trace.len() ==> passes(
                patterns,
                #[trigger] trace[i],
                #[trigger] trace[j],
                true,
            ) || exists|passed: StructurerView| #[trigger]
                passes(patterns, trace[i], passed, false) && passed.function.flow.out.dom().len()
                    != 1 && settles(patterns, passed, trace[j], true),
{
    assert forall|i: int, j: int| 0 <= i && j == i + 1 && j < trace.len() implies passes(
        patterns,
        #[trigger] trace[i],
        #[trigger] trace[j],
        true,
    ) || exists|passed: StructurerView| #[trigger]
        passes(patterns, trace[i], passed, false) && passed.function.flow.out.dom().len() != 1
            && settles(patterns, passed, trace[j], true) by {
        assert(steps(patterns, trace[i], trace[j]));
        if !passes(patterns, trace[i], trace[j], true) {
            let passed = choose|passed: StructurerView| #[trigger]
                passes(patterns, trace[i], passed, false) && !passed.is_single() && settles(
                    patterns,
                    passed,
                    trace[j],
                    true,
                );
            assert(passed.function.flow.out.dom().len() != 1);
        }
    }
}

/// Collapsing fails only after more steps than can be counted, or where, after some
/// steps, the way through the blocks fails, or finds nothing and leaves several blocks
/// but no start, or an edge that fails to be tried.
pub proof fn collapsing_fails_for_a_reason<P: Patterns>(
    patterns: P,
    before: StructurerView,
    error: StructureError,
)
    requires
        collapse_fails(patterns, before, error),
    ensures
        exists|trace: Seq<StructurerView>| #[trigger]
            is_trace(patterns, before, trace) && {
                ||| error == StructureError::NoEnd && trace.len() > 0xffff_ffff_ffff_ffff
                ||| pass_fails(patterns, trace.last(), error)
                ||| exists|passed: StructurerView| #[trigger]
                    passes(patterns, trace.last(), passed, false)
                        && passed.function.flow.out.dom().len() != 1 && {
                        ||| error == StructureError::MissingEntry && !passed.function.has_start()
                        ||| exists|e: u32| #[trigger]
                            refine_fails(patterns, passed, e, error)
                                && passed.function.flow.edges.contains_key(e)
                    }
            },
{
    let trace = choose|trace: Seq<StructurerView>| #[trigger]
        is_trace(patterns, before, trace) && {
            ||| halts(patterns, trace.last(), error)
            ||| trace.len() > u64::MAX && error == StructureError::NoEnd
        };
    if halts(patterns, trace.last(), error) && !pass_fails(patterns, trace.last(), error) {
        let passed = choose|passed: StructurerView| #[trigger]
            passes(patterns, trace.last(), passed, false) && !passed.is_single()
                && settling_fails(patterns, passed, error);
        assert(passed.function.flow.out.dom().len() != 1);
        if passed.function.has_start() {
            let edges = choose|edges: Seq<u32>| #[trigger]
                ascending(edges, passed.function.flow.edges.dom()) && exists|k: int|
                    0 <= k < passed.tries(edges).len() && in_vain(
                        patterns,
                        passed,
                        passed.tries(edges),
                        k,
                    ) && #[trigger] refine_fails(
                        patterns,
                        passed,
                        passed.tries(edges)[k],
                        error,
                    );
            let list = passed.tries(edges);
            let k = choose|k: int|
                0 <= k < list.len() && in_vain(patterns, passed, list, k)
                    && #[trigger] refine_fails(patterns, passed, list[k], error);
            let keep = |e: u32| passed.is_loose(e);
            lemma_filter(edges, keep);
            if k < edges.filter(keep).len() {
                assert(edges.filter(keep).contains(edges.filter(keep)[k]));
            } else {
                assert(edges.contains(edges[k - edges.filter(keep).len()]));
            }
            assert(passed.function.flow.edges.dom().contains(list[k]));
        }
    }
}

} // verus!
