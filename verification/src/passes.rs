//! Looking for structure at every block.

use vstd::prelude::*;

use crate::cfg::{is_dominance, FunctionView};
use crate::dominance::is_post_dominance;
use crate::flow::{ascending, dominator_chains, walk_step, Dominance, Flow, WalkStep};
use crate::inspect::labelled;
use crate::lists::{lemma_push_one, lemma_take_one};
use crate::patterns::{looks, Chains, Patterns, StructureError};
use crate::structurer::{GraphStructurer, StructurerView};
use crate::tables::node_set;
use crate::walk::{
    lemma_goes_on, lemma_orderly_start, lemma_orderly_step, lemma_reaches_below,
    lemma_walk_covers, Walk, WalkState,
};

verus! {

/// Why dominators cannot be found in a function, if so.
pub open spec fn unready(function: FunctionView) -> Option<StructureError> {
    if !function.has_start() {
        Some(StructureError::MissingEntry)
    } else if !function.has_room() {
        Some(StructureError::OutOfNumbers)
    } else {
        None
    }
}

/// The dominators and post-dominators are those of `state`.
#[verifier::opaque]
pub open spec fn describes(
    state: StructurerView,
    dominators: Chains,
    post_dominators: Chains,
) -> bool {
    &&& is_dominance(state.function.flow, state.function.entry->0, dominators)
    &&& is_post_dominance(
        state.function.flow,
        post_dominators,
        state.function.flow.next_number(),
    )
}

/// The next step of a walk over a graph looks only at blocks with numbers that
/// there were in the beginning.
pub open spec fn stays_below(walk: WalkState, flow: Flow, start: Flow) -> bool {
    forall|n: u32| #[trigger] walk.step(flow).discovered.contains(n) ==> start.below_bound(n)
}

/// A look at one block on the way through all that can be reached.
pub struct Visit {
    /// Where the way through the blocks stood.
    pub walk: WalkState,
    pub node: u32,
    pub before: StructurerView,
    pub after: StructurerView,
    pub matched: bool,
    /// What the dominators were found in.
    pub basis: StructurerView,
    pub dominators: Chains,
    pub post_dominators: Chains,
}

/// A look at one block that could not be reached.
pub struct Sweep {
    pub node: u32,
    pub before: StructurerView,
    pub after: StructurerView,
    pub matched: bool,
}

/// One way through all blocks.
pub struct Pass {
    pub visits: Seq<Visit>,
    /// The dominators in the end.
    pub dominators: Chains,
    pub post_dominators: Chains,
    /// The blocks that could not be reached in the beginning.
    pub unreached: Seq<u32>,
    pub sweeps: Seq<Sweep>,
}

impl Pass {
    /// With one more visit.
    pub open spec fn with_visit(self, visit: Visit) -> Pass {
        Pass { visits: self.visits.push(visit), ..self }
    }

    /// With one more sweep.
    pub open spec fn with_sweep(self, sweep: Sweep) -> Pass {
        Pass { sweeps: self.sweeps.push(sweep), ..self }
    }

    /// The state before the visit `i`.
    pub open spec fn state_at(self, start: StructurerView, i: int) -> StructurerView {
        if i == 0 {
            start
        } else {
            self.visits[i - 1].after
        }
    }

    /// Where the way through the blocks stands before the visit `i`.
    pub open spec fn walk_at(self, start: StructurerView, i: int) -> WalkState {
        if i == 0 {
            WalkState::starting(start.function.entry->0)
        } else {
            self.visits[i - 1].walk.after(self.visits[i - 1].before.function.flow)
        }
    }

    /// The block that the way through the blocks leads to after all visits.
    pub open spec fn next_node(self, start: StructurerView) -> Option<u32> {
        let i = self.visits.len() as int;
        self.walk_at(start, i).step(self.state_at(start, i).function.flow).node
    }

    /// What the dominators at the visit `i` are found in: the state after the
    /// last match.
    pub open spec fn basis_at(self, start: StructurerView, i: int) -> StructurerView {
        if i == 0 {
            start
        } else if self.visits[i - 1].matched {
            self.visits[i - 1].after
        } else {
            self.visits[i - 1].basis
        }
    }

    /// The state before the sweep `i`.
    pub open spec fn swept_at(self, start: StructurerView, i: int) -> StructurerView {
        if i == 0 {
            self.state_at(start, self.visits.len() as int)
        } else {
            self.sweeps[i - 1].after
        }
    }

    /// The visit `i` looks at the next block in postorder, in what the one before
    /// left, and knows the dominators.
    pub open spec fn visit_follows<P: Patterns>(
        self,
        patterns: P,
        start: StructurerView,
        i: int,
    ) -> bool {
        let visit = self.visits[i];
        &&& visit.walk == self.walk_at(start, i)
        &&& visit.walk.step(visit.before.function.flow).node == Some(visit.node)
        &&& stays_below(visit.walk, visit.before.function.flow, start.function.flow)
        &&& visit.before == self.state_at(start, i)
        &&& visit.basis == self.basis_at(start, i)
        &&& unready(visit.basis.function) is None
        &&& describes(visit.basis, visit.dominators, visit.post_dominators)
        &&& looks(
            patterns,
            visit.before,
            visit.node,
            visit.dominators,
            visit.post_dominators,
            visit.after,
            Ok(visit.matched),
        )
    }

    /// The visits follow one another and look at different blocks.
    pub open spec fn visits_follow<P: Patterns>(self, patterns: P, start: StructurerView) -> bool {
        &&& forall|i: int|
            0 <= i < self.visits.len() ==> #[trigger] self.visit_follows(patterns, start, i)
        &&& forall|i: int, j: int|
            0 <= i < j < self.visits.len() ==> (#[trigger] self.visits[i]).node != (
            #[trigger] self.visits[j]).node
    }

    /// The block `n` was visited.
    pub open spec fn visited(self, n: u32) -> bool {
        exists|i: int| 0 <= i < self.visits.len() && (#[trigger] self.visits[i]).node == n
    }

    /// The edges stayed what they were through all visits.
    pub open spec fn steady(self, start: StructurerView) -> bool {
        forall|i: int|
            0 <= i < self.visits.len() ==> (#[trigger] self.visits[i]).after.function.flow
                == start.function.flow
    }

    /// Where the edges stayed what they were, what can be reached was visited.
    pub open spec fn covers(self, start: StructurerView) -> bool {
        self.steady(start) ==> forall|n: u32| #[trigger]
            self.visited(n) <==> start.function.flow.reaches(start.function.entry->0, n)
    }

    /// Where the edges stayed what they were, each block was visited after its
    /// successors, but for those that lead back to it.
    pub open spec fn in_postorder(self, start: StructurerView) -> bool {
        self.steady(start) ==> forall|i: int, m: u32|
            0 <= i < self.visits.len() && #[trigger] start.function.flow.leads(
                self.visits[i].node,
                m,
            ) ==> start.function.flow.reaches(m, self.visits[i].node) || self.visited_before(i, m)
    }

    /// The block `n` was visited before the visit `i`.
    pub open spec fn visited_before(self, i: int, n: u32) -> bool {
        exists|j: int| 0 <= j < i && (#[trigger] self.visits[j]).node == n
    }

    /// The next step of the way through the blocks stays below the numbers that
    /// there were in the beginning.
    pub open spec fn stays_low(self, start: StructurerView) -> bool {
        let i = self.visits.len() as int;
        stays_below(
            self.walk_at(start, i),
            self.state_at(start, i).function.flow,
            start.function.flow,
        )
    }

    /// Why dominators cannot be found after the last match, if so.
    pub open spec fn unready_in_the_end(self, start: StructurerView) -> Option<StructureError> {
        unready(self.basis_at(start, self.visits.len() as int).function)
    }

    /// One sweep: a block that is still there and that no edge leads to any more
    /// is taken out where no label names it, and looked at otherwise.
    pub open spec fn sweeps_one<P: Patterns>(self, patterns: P, sweep: Sweep) -> bool {
        let f = sweep.before.function;
        if !f.flow.has(sweep.node) || f.flow.incoming(sweep.node).len() != 0 {
            sweep.after == sweep.before && !sweep.matched
        } else if !labelled(f.blocks[sweep.node]) {
            sweep.after == sweep.before.with_function(f.without_block(sweep.node))
                && !sweep.matched
        } else {
            looks(
                patterns,
                sweep.before,
                sweep.node,
                self.dominators,
                self.post_dominators,
                sweep.after,
                Ok(sweep.matched),
            )
        }
    }

    /// The sweep `i` goes on with what the one before left.
    pub open spec fn sweep_follows<P: Patterns>(
        self,
        patterns: P,
        start: StructurerView,
        i: int,
    ) -> bool {
        let sweep = self.sweeps[i];
        &&& sweep.node == self.unreached[i]
        &&& sweep.before == self.swept_at(start, i)
        &&& self.sweeps_one(patterns, sweep)
    }

    /// The sweeps follow one another through blocks that could not be reached in
    /// the beginning, ascending.
    pub open spec fn sweeps_follow<P: Patterns>(self, patterns: P, start: StructurerView) -> bool {
        &&& self.sweeps.len() <= self.unreached.len()
        &&& ascending(self.unreached, self.left_over(start))
        &&& forall|i: int|
            0 <= i < self.sweeps.len() ==> #[trigger] self.sweep_follows(patterns, start, i)
    }

    /// The blocks there are after all visits that could not be reached in the
    /// beginning.
    pub open spec fn left_over(self, start: StructurerView) -> Set<u32> {
        let visited = self.state_at(start, self.visits.len() as int);
        Set::new(
            |n: u32|
                visited.function.flow.has(n) && !start.function.flow.reaches(
                    start.function.entry->0,
                    n,
                ),
        )
    }

    /// Some look found structure.
    pub open spec fn matched(self) -> bool {
        ||| exists|i: int| 0 <= i < self.visits.len() && (#[trigger] self.visits[i]).matched
        ||| exists|i: int| 0 <= i < self.sweeps.len() && (#[trigger] self.sweeps[i]).matched
    }

    /// The dominators in the end are those of the state after the last match.
    pub open spec fn ends_known(self, start: StructurerView) -> bool {
        describes(
            self.basis_at(start, self.visits.len() as int),
            self.dominators,
            self.post_dominators,
        )
    }

    /// This is a way through all blocks of `before`, which makes `after` of it.
    pub open spec fn gives<P: Patterns>(
        self,
        patterns: P,
        before: StructurerView,
        after: StructurerView,
        changed: bool,
    ) -> bool {
        &&& unready(before.function) is None
        &&& self.visits_follow(patterns, before)
        &&& self.unready_in_the_end(before) is None
        &&& self.stays_low(before)
        &&& self.next_node(before) is None
        &&& self.covers(before)
        &&& self.in_postorder(before)
        &&& self.ends_known(before)
        &&& self.sweeps_follow(patterns, before)
        &&& self.sweeps.len() == self.unreached.len()
        &&& after == self.swept_at(before, self.sweeps.len() as int)
        &&& changed == self.matched()
    }

    /// After these visits and sweeps the way through the blocks of `before` ends
    /// with `error`: dominators cannot be found, the way leads too far, or a look
    /// fails, at the next block or at one that could not be reached.
    pub open spec fn fails<P: Patterns>(
        self,
        patterns: P,
        before: StructurerView,
        error: StructureError,
    ) -> bool {
        &&& self.visits_follow(patterns, before)
        &&& match self.unready_in_the_end(before) {
            Some(first) => error == first,
            None => if !self.stays_low(before) {
                error == StructureError::OutgrownWalk && !self.steady(before)
            } else {
                &&& self.ends_known(before)
                &&& match self.next_node(before) {
                    Some(node) => self.look_fails(
                        patterns,
                        self.state_at(before, self.visits.len() as int),
                        node,
                        error,
                    ),
                    None => {
                        &&& self.sweeps_follow(patterns, before)
                        &&& self.sweeps.len() < self.unreached.len()
                        &&& self.look_fails(
                            patterns,
                            self.swept_at(before, self.sweeps.len() as int),
                            self.unreached[self.sweeps.len() as int],
                            error,
                        )
                    },
                }
            },
        }
    }

    /// A look at `node` fails.
    pub open spec fn look_fails<P: Patterns>(
        self,
        patterns: P,
        state: StructurerView,
        node: u32,
        error: StructureError,
    ) -> bool {
        exists|after: StructurerView| #[trigger]
            looks(
                patterns,
                state,
                node,
                self.dominators,
                self.post_dominators,
                after,
                Err(error),
            )
    }
}

/// A way through all blocks of `before` makes `after` of it, and finds structure
/// or not.
pub open spec fn passes<P: Patterns>(
    patterns: P,
    before: StructurerView,
    after: StructurerView,
    changed: bool,
) -> bool {
    exists|pass: Pass| #[trigger] pass.gives(patterns, before, after, changed)
}

/// A way through all blocks of `before` cannot be completed.
pub open spec fn pass_fails<P: Patterns>(
    patterns: P,
    before: StructurerView,
    error: StructureError,
) -> bool {
    exists|pass: Pass| #[trigger] pass.fails(patterns, before, error)
}

/// The nodes that are not in the list.
pub open spec fn missed(flow: Flow, reached: Seq<u32>) -> Set<u32> {
    Set::new(|n: u32| flow.has(n) && !reached.contains(n))
}

impl GraphStructurer {
    /// The entry, where dominators can be found.
    fn ready(&self) -> (entry: Result<u32, StructureError>)
        ensures
            match entry {
                Ok(node) => unready(self@.function) is None && self@.function.entry == Some(node),
                Err(error) => unready(self@.function) == Some(error),
            },
    {
        proof {
            self.lemma_view();
        }
        if !self.function.has_start() {
            return Err(StructureError::MissingEntry);
        }
        if !self.function.has_room() {
            return Err(StructureError::OutOfNumbers);
        }
        Ok(self.function.entry().unwrap())
    }

    /// Finds the dominators and the post-dominators.
    fn find_dominators(&mut self, entry: u32) -> (found: (Dominance, Dominance))
        requires
            unready(old(self)@.function) is None,
            old(self)@.function.entry == Some(entry),
        ensures
            final(self)@ == old(self)@,
            describes(old(self)@, dominator_chains(found.0), dominator_chains(found.1)),
    {
        proof {
            self.lemma_view();
        }
        let dominators = self.function.dominators(entry);
        let post_dominators = self.function.post_dominators();
        proof {
            reveal(describes);
            self.lemma_view();
            assert(self@ =~= old(self)@);
        }
        (dominators, post_dominators)
    }

    /// The blocks that are not among `reached`, ascending.
    fn missed_nodes(&self, reached: &Vec<u32>) -> (unreached: Vec<u32>)
        ensures
            ascending(unreached@, missed(self@.function.flow, reached@)),
    {
        proof {
            self.lemma_view();
        }
        let mut seen = crate::tables::empty_node_set();
        for i in 0..reached.len()
            invariant
                forall|n: u32| #[trigger]
                    node_set(seen).contains(n) <==> reached@.take(i as int).contains(n),
        {
            let new = crate::tables::insert_node(&mut seen, reached[i]);
            proof {
                lemma_take_one(reached@, i as int);
            }
        }
        assert(reached@.take(reached@.len() as int) =~= reached@);
        let nodes = self.function.node_indices();
        let mut unreached: Vec<u32> = Vec::new();
        for i in 0..nodes.len()
            invariant
                ascending(nodes@, self@.function.flow.out.dom()),
                forall|n: u32| #[trigger]
                    unreached@.contains(n) <==> nodes@.take(i as int).contains(n)
                        && !node_set(seen).contains(n),
                forall|j: int, k: int|
                    0 <= j < k < unreached@.len() ==> unreached@[j] < unreached@[k],
        {
            let ghost shorter = unreached@;
            proof {
                lemma_take_one(nodes@, i as int);
            }
            if !crate::tables::has_node(&seen, nodes[i]) {
                unreached.push(nodes[i]);
                proof {
                    let node = nodes@[i as int];
                    lemma_push_one(shorter, node);
                    assert(unreached@ == shorter.push(node));
                    assert forall|j: int, k: int| 0 <= j < k < unreached@.len() implies
                        unreached@[j] < unreached@[k] by {
                        if k == shorter.len() {
                            assert(shorter.contains(shorter[j]));
                            let short = nodes@.take(i as int);
                            let m = choose|m: int| 0 <= m < short.len() && short[m] == shorter[j];
                            assert(nodes@[m] < nodes@[i as int]);
                        }
                    }
                }
            }
        }
        assert(nodes@.take(nodes@.len() as int) =~= nodes@);
        unreached
    }

    /// Looks at every block that can be reached from the entry.
    #[verifier::rlimit(50)]
    fn visit_blocks<P: Patterns>(&mut self, patterns: &P, entry: u32) -> (result: Result<
        (Dominance, Dominance, bool, Ghost<Pass>),
        StructureError,
    >)
        requires
            unready(old(self)@.function) is None,
            old(self)@.function.entry == Some(entry),
        ensures
            match result {
                Ok((dominators, post_dominators, changed, pass)) => {
                    &&& pass@.visits_follow(*patterns, old(self)@)
                    &&& pass@.unready_in_the_end(old(self)@) is None
                    &&& pass@.stays_low(old(self)@)
                    &&& pass@.next_node(old(self)@) is None
                    &&& pass@.covers(old(self)@)
                    &&& pass@.in_postorder(old(self)@)
                    &&& pass@.dominators == dominator_chains(dominators)
                    &&& pass@.post_dominators == dominator_chains(post_dominators)
                    &&& pass@.ends_known(old(self)@)
                    &&& pass@.sweeps.len() == 0
                    &&& changed == pass@.matched()
                    &&& final(self)@ == pass@.swept_at(old(self)@, 0)
                },
                Err(error) => pass_fails(*patterns, old(self)@, error),
            },
    {
        let ghost before = self@;
        proof {
            self.lemma_view();
            use_type_invariant(&self.function);
        }
        let mut walk = Walk::new(&self.function, entry);
        let (mut dominators, mut post_dominators) = self.find_dominators(entry);
        let ghost mut pass = Pass {
            visits: Seq::empty(),
            dominators: dominator_chains(dominators),
            post_dominators: dominator_chains(post_dominators),
            unreached: Seq::empty(),
            sweeps: Seq::empty(),
        };
        let mut changed = false;
        loop
            invariant_except_break
                walk@.state() == pass.walk_at(before, pass.visits.len() as int),
            invariant
                before == old(self)@,
                unready(before.function) is None,
                before.function.wf(),
                before.function.entry == Some(entry),
                pass.visits_follow(*patterns, before),
                pass.sweeps.len() == 0,
                pass.dominators == dominator_chains(dominators),
                pass.post_dominators == dominator_chains(post_dominators),
                pass.ends_known(before),
                pass.unready_in_the_end(before) is None,
                self@ == pass.state_at(before, pass.visits.len() as int),
                changed == pass.matched(),
                walk.wf(),
                forall|n: u32|
                    n < walk@.bound <==> #[trigger] before.function.flow.below_bound(n),
                forall|n: u32| #[trigger] walk@.finished.contains(n) <==> pass.visited(n),
                pass.steady(before) ==> walk@.explores(before.function.flow, entry),
            ensures
                pass.stays_low(before),
                pass.next_node(before) is None,
                walk@.stack == Seq::<u32>::empty(),
                walk@.discovered == walk@.finished,
            decreases walk@.bound - walk@.finished.len(),
        {
            proof {
                self.lemma_view();
                walk.lemma_bounded();
            }
            let ghost at = self@;
            let ghost walked = walk@.state();
            proof {
                if pass.steady(before) {
                    assert(at.function.flow == before.function.flow);
                }
            }
            proof {
                assert(walked.stays_below(at.function.flow, walk@.bound as int) == stays_below(
                    walked,
                    at.function.flow,
                    before.function.flow,
                )) by {
                    lemma_same_bound(walked, at.function.flow, before.function.flow, walk@.bound);
                }
            }
            let node = match walk.next(&self.function) {
                Err(_) => {
                    proof {
                        let flow = before.function.flow;
                        let n = choose|n: u32| #[trigger]
                            walked.step(at.function.flow).discovered.contains(n)
                                && !flow.below_bound(n);
                        if pass.steady(before) {
                            assert(walk@.discovered.contains(n));
                            lemma_reaches_below(flow, entry, n);
                        }
                        assert(pass.fails(*patterns, before, StructureError::OutgrownWalk));
                    }
                    return Err(StructureError::OutgrownWalk);
                },
                Ok(next) => {
                    match next {
                        None => {
                            break;
                        },
                        Some(node) => node,
                    }
                },
            };
            proof {
                walk.lemma_bounded();
            }
            let matched = match self.try_match_pattern(
                patterns,
                node,
                &dominators,
                &post_dominators,
            ) {
                Ok(matched) => matched,
                Err(error) => {
                    proof {
                        lemma_visit_fails(*patterns, before, pass, self@, error);
                    }
                    return Err(error);
                },
            };
            let ghost visit = Visit {
                walk: walked,
                node,
                before: at,
                after: self@,
                matched,
                basis: pass.basis_at(before, pass.visits.len() as int),
                dominators: pass.dominators,
                post_dominators: pass.post_dominators,
            };
            proof {
                lemma_visit(*patterns, before, pass, visit);
                pass = pass.with_visit(visit);
            }
            if matched {
                let entry_now = match self.ready() {
                    Ok(entry_now) => entry_now,
                    Err(error) => {
                        assert(pass.fails(*patterns, before, error));
                        return Err(error);
                    },
                };
                let found = self.find_dominators(entry_now);
                dominators = found.0;
                post_dominators = found.1;
                proof {
                    let known = Pass {
                        dominators: dominator_chains(dominators),
                        post_dominators: dominator_chains(post_dominators),
                        ..pass
                    };
                    lemma_same_visits(*patterns, before, pass, known);
                    pass = known;
                }
            }
            changed = changed || matched;
        }
        proof {
            if pass.steady(before) {
                lemma_walk_covers(walk@, before.function.flow, entry);
                assert forall|n: u32| #[trigger] pass.visited(n) <==> before.function.flow.reaches(
                    entry,
                    n,
                ) by {
                    assert(walk@.finished.contains(n) <==> pass.visited(n));
                }
            }
            assert(pass.covers(before));
            lemma_postorder(*patterns, before, pass);
        }
        Ok((dominators, post_dominators, changed, Ghost(pass)))
    }

    /// Looks at the blocks that could not be reached, and takes out those that
    /// nothing leads to and no label names.
    fn sweep_blocks<P: Patterns>(
        &mut self,
        patterns: &P,
        unreached: &Vec<u32>,
        dominators: &Dominance,
        post_dominators: &Dominance,
        Ghost(before): Ghost<StructurerView>,
        Ghost(walked): Ghost<Pass>,
    ) -> (result: Result<(bool, Ghost<Pass>), StructureError>)
        requires
            walked.visits_follow(*patterns, before),
            walked.unready_in_the_end(before) is None,
            walked.stays_low(before),
            walked.next_node(before) is None,
            walked.sweeps_follow(*patterns, before),
            walked.ends_known(before),
            walked.sweeps.len() == 0,
            walked.unreached == unreached@,
            walked.dominators == dominator_chains(*dominators),
            walked.post_dominators == dominator_chains(*post_dominators),
            old(self)@ == walked.swept_at(before, 0),
        ensures
            match result {
                Ok((matched, pass)) => {
                    &&& pass@ == (Pass { sweeps: pass@.sweeps, ..walked })
                    &&& pass@.sweeps_follow(*patterns, before)
                    &&& pass@.sweeps.len() == unreached@.len()
                    &&& final(self)@ == pass@.swept_at(before, unreached@.len() as int)
                    &&& (matched || walked.matched()) == pass@.matched()
                },
                Err(error) => pass_fails(*patterns, before, error),
            },
    {
        let ghost mut pass = walked;
        let mut changed = false;
        for i in 0..unreached.len()
            invariant
                walked.visits_follow(*patterns, before),
                walked.unready_in_the_end(before) is None,
                walked.stays_low(before),
                walked.next_node(before) is None,
                walked.ends_known(before),
                walked.dominators == dominator_chains(*dominators),
                walked.post_dominators == dominator_chains(*post_dominators),
                pass == (Pass { sweeps: pass.sweeps, ..walked }),
                pass.sweeps_follow(*patterns, before),
                pass.unreached == unreached@,
                pass.sweeps.len() == i,
                self@ == pass.swept_at(before, i as int),
                (changed || walked.matched()) == pass.matched(),
        {
            let node = unreached[i];
            let ghost at = self@;
            proof {
                self.lemma_view();
            }
            let mut matched = false;
            if self.function.has_block(node) && self.function.predecessor_count(node) == 0 {
                let named = Self::starts_with_label(self.function.block(node).unwrap());
                if !named {
                    let gone = self.function.remove_block(node);
                    proof {
                        self.lemma_view();
                    }
                } else {
                    matched = match self.try_match_pattern(
                        patterns,
                        node,
                        dominators,
                        post_dominators,
                    ) {
                        Ok(matched) => matched,
                        Err(error) => {
                            proof {
                                lemma_sweep_fails(*patterns, before, walked, pass, self@, error);
                            }
                            return Err(error);
                        },
                    };
                }
            }
            let ghost sweep = Sweep { node, before: at, after: self@, matched };
            proof {
                lemma_sweep(*patterns, before, pass, sweep);
                pass = pass.with_sweep(sweep);
            }
            changed = changed || matched;
        }
        Ok((changed, Ghost(pass)))
    }

    /// Looks for structure at every block, and takes out blocks that nothing
    /// leads to and no label names.  Tells whether it found any structure.
    pub fn match_blocks<P: Patterns>(&mut self, patterns: &P) -> (result: Result<
        bool,
        StructureError,
    >)
        ensures
            match result {
                Ok(changed) => passes(*patterns, old(self)@, final(self)@, changed),
                Err(error) => pass_fails(*patterns, old(self)@, error),
            },
    {
        let ghost before = self@;
        let entry = match self.ready() {
            Ok(entry) => entry,
            Err(error) => {
                proof {
                    lemma_unready(*patterns, before, error);
                }
                return Err(error);
            },
        };
        proof {
            self.lemma_view();
        }
        let reached = self.function.reachable(entry);
        let (dominators, post_dominators, walked_changed, Ghost(walked)) = match self.visit_blocks(
            patterns,
            entry,
        ) {
            Ok(walked) => walked,
            Err(error) => {
                return Err(error);
            },
        };
        let unreached = self.missed_nodes(&reached);
        let ghost walked_on = Pass { unreached: unreached@, ..walked };
        proof {
            lemma_same_visits(*patterns, before, walked, walked_on);
            assert(walked_on.left_over(before) =~= missed(self@.function.flow, reached@));
        }
        let (swept_changed, Ghost(pass)) = match self.sweep_blocks(
            patterns,
            &unreached,
            &dominators,
            &post_dominators,
            Ghost(before),
            Ghost(walked_on),
        ) {
            Ok(swept) => swept,
            Err(error) => {
                return Err(error);
            },
        };
        proof {
            lemma_same_visits(*patterns, before, walked_on, pass);
            assert(pass.gives(*patterns, before, self@, walked_changed || swept_changed));
        }
        Ok(walked_changed || swept_changed)
    }
}

proof fn lemma_same_bound(walk: WalkState, flow: Flow, start: Flow, bound: usize)
    requires
        forall|n: u32| n < bound <==> #[trigger] start.below_bound(n),
    ensures
        walk.stays_below(flow, bound as int) == stays_below(walk, flow, start),
{
}

/// A function in which no dominators can be found ends a pass at once.
proof fn lemma_unready<P: Patterns>(patterns: P, before: StructurerView, error: StructureError)
    requires
        unready(before.function) == Some(error),
    ensures
        pass_fails(patterns, before, error),
{
    let pass = Pass {
        visits: Seq::empty(),
        dominators: Map::empty(),
        post_dominators: Map::empty(),
        unreached: Seq::empty(),
        sweeps: Seq::empty(),
    };
    assert(pass.fails(patterns, before, error));
}

/// A visit that fails.
proof fn lemma_visit_fails<P: Patterns>(
    patterns: P,
    before: StructurerView,
    pass: Pass,
    after: StructurerView,
    error: StructureError,
)
    requires
        pass.visits_follow(patterns, before),
        pass.unready_in_the_end(before) is None,
        pass.stays_low(before),
        pass.ends_known(before),
        pass.next_node(before) is Some,
        looks(
            patterns,
            pass.state_at(before, pass.visits.len() as int),
            pass.next_node(before)->0,
            pass.dominators,
            pass.post_dominators,
            after,
            Err(error),
        ),
    ensures
        pass_fails(patterns, before, error),
{
    assert(pass.fails(patterns, before, error));
}

/// A sweep that fails.
proof fn lemma_sweep_fails<P: Patterns>(
    patterns: P,
    before: StructurerView,
    walked: Pass,
    pass: Pass,
    after: StructurerView,
    error: StructureError,
)
    requires
        walked.visits_follow(patterns, before),
        walked.unready_in_the_end(before) is None,
        walked.stays_low(before),
        walked.next_node(before) is None,
        walked.ends_known(before),
        pass == (Pass { sweeps: pass.sweeps, ..walked }),
        pass.sweeps_follow(patterns, before),
        pass.sweeps.len() < pass.unreached.len(),
        looks(
            patterns,
            pass.swept_at(before, pass.sweeps.len() as int),
            pass.unreached[pass.sweeps.len() as int],
            pass.dominators,
            pass.post_dominators,
            after,
            Err(error),
        ),
    ensures
        pass_fails(patterns, before, error),
{
    lemma_same_visits(patterns, before, walked, pass);
    assert(pass.fails(patterns, before, error));
}

/// One more visit.
proof fn lemma_visit<P: Patterns>(patterns: P, start: StructurerView, pass: Pass, visit: Visit)
    requires
        pass.visits_follow(patterns, start),
        visit.walk == pass.walk_at(start, pass.visits.len() as int),
        visit.walk.step(visit.before.function.flow).node == Some(visit.node),
        stays_below(visit.walk, visit.before.function.flow, start.function.flow),
        visit.before == pass.state_at(start, pass.visits.len() as int),
        visit.basis == pass.basis_at(start, pass.visits.len() as int),
        unready(visit.basis.function) is None,
        describes(visit.basis, visit.dominators, visit.post_dominators),
        looks(
            patterns,
            visit.before,
            visit.node,
            visit.dominators,
            visit.post_dominators,
            visit.after,
            Ok(visit.matched),
        ),
        !pass.visited(visit.node),
    ensures
        pass.with_visit(visit).visits_follow(patterns, start),
        forall|n: u32| #[trigger]
            pass.with_visit(visit).visited(n) <==> pass.visited(n) || n == visit.node,
        pass.with_visit(visit).steady(start) ==> pass.steady(start),
        pass.with_visit(visit).matched() == (pass.matched() || visit.matched),
{
    let longer = pass.with_visit(visit);
    let last = pass.visits.len() as int;
    assert forall|i: int| 0 <= i < last implies #[trigger] longer.visits[i] == pass.visits[i] by {}
    assert(longer.visits[last] == visit);
    assert forall|i: int| 0 <= i < longer.visits.len() implies #[trigger] longer.visit_follows(
        patterns,
        start,
        i,
    ) by {
        assert(longer.state_at(start, i) == pass.state_at(start, i));
        assert(longer.basis_at(start, i) == pass.basis_at(start, i));
        assert(longer.walk_at(start, i) == pass.walk_at(start, i));
        if i < last {
            assert(pass.visit_follows(patterns, start, i));
        }
    }
    assert forall|i: int, j: int| 0 <= i < j < longer.visits.len() implies (
    #[trigger] longer.visits[i]).node != (#[trigger] longer.visits[j]).node by {
        assert(longer.visits[i] == pass.visits[i]);
        if j < last {
            assert(longer.visits[j] == pass.visits[j]);
        }
    }
    assert forall|n: u32| #[trigger] longer.visited(n) <==> pass.visited(n) || n == visit.node by {
        if pass.visited(n) {
            let i = choose|i: int|
                0 <= i < pass.visits.len() && (#[trigger] pass.visits[i]).node == n;
            assert(longer.visits[i].node == n);
        }
        if longer.visited(n) {
            let i = choose|i: int|
                0 <= i < longer.visits.len() && (#[trigger] longer.visits[i]).node == n;
            if i < last {
                assert(pass.visits[i].node == n);
            }
        }
    }
    if longer.steady(start) {
        assert forall|i: int| 0 <= i < last implies (
        #[trigger] pass.visits[i]).after.function.flow == start.function.flow by {
            assert(longer.visits[i] == pass.visits[i]);
        }
    }
    if pass.matched() {
        if exists|i: int| 0 <= i < pass.visits.len() && (#[trigger] pass.visits[i]).matched {
            let i = choose|i: int|
                0 <= i < pass.visits.len() && (#[trigger] pass.visits[i]).matched;
            assert(longer.visits[i].matched);
        } else {
            let i = choose|i: int|
                0 <= i < pass.sweeps.len() && (#[trigger] pass.sweeps[i]).matched;
            assert(longer.sweeps[i].matched);
        }
    }
    if longer.matched() {
        if exists|i: int| 0 <= i < longer.sweeps.len() && (#[trigger] longer.sweeps[i]).matched {
            let i = choose|i: int|
                0 <= i < longer.sweeps.len() && (#[trigger] longer.sweeps[i]).matched;
            assert(pass.sweeps[i].matched);
        } else {
            let i = choose|i: int|
                0 <= i < longer.visits.len() && (#[trigger] longer.visits[i]).matched;
            if i < last {
                assert(pass.visits[i].matched);
            }
        }
    }
}

/// Where the edges stay what they were, the way through the blocks is in order.
proof fn lemma_walk_orderly<P: Patterns>(patterns: P, start: StructurerView, pass: Pass, i: int)
    requires
        start.function.wf(),
        pass.visits_follow(patterns, start),
        pass.steady(start),
        0 <= i <= pass.visits.len(),
    ensures
        pass.walk_at(start, i).orderly(start.function.flow),
        forall|n: u32| #[trigger]
            pass.walk_at(start, i).finished.contains(n) <==> pass.visited_before(i, n),
    decreases i,
{
    if i == 0 {
        lemma_orderly_start(start.function.flow, start.function.entry->0);
    } else {
        let flow = start.function.flow;
        lemma_walk_orderly(patterns, start, pass, i - 1);
        assert(pass.visit_follows(patterns, start, i - 1));
        let visit = pass.visits[i - 1];
        if i > 1 {
            assert(pass.visits[i - 2].after.function.flow == flow);
        }
        assert(visit.before.function.flow == flow);
        lemma_orderly_step(visit.walk, flow);
        lemma_goes_on(visit.walk, flow);
        assert forall|n: u32| #[trigger]
            pass.walk_at(start, i).finished.contains(n) <==> pass.visited_before(i, n) by {
            assert(visit.walk.finished.contains(n) <==> pass.visited_before(i - 1, n));
            if pass.visited_before(i - 1, n) {
                let j = choose|j: int| 0 <= j < i - 1 && (#[trigger] pass.visits[j]).node == n;
                assert(pass.visits[j].node == n);
            }
            if pass.visited_before(i, n) {
                let j = choose|j: int| 0 <= j < i && (#[trigger] pass.visits[j]).node == n;
                if j < i - 1 {
                    assert(pass.visited_before(i - 1, n));
                }
            }
            if n == visit.node {
                assert(pass.visits[i - 1].node == n);
            }
        }
    }
}

/// Where the edges stay what they were, blocks are visited in postorder.
proof fn lemma_postorder<P: Patterns>(patterns: P, start: StructurerView, pass: Pass)
    requires
        start.function.wf(),
        pass.visits_follow(patterns, start),
    ensures
        pass.in_postorder(start),
{
    let flow = start.function.flow;
    if pass.steady(start) {
        assert forall|i: int, m: u32|
            0 <= i < pass.visits.len() && #[trigger] flow.leads(
                pass.visits[i].node,
                m,
            ) implies flow.reaches(m, pass.visits[i].node) || pass.visited_before(i, m) by {
            lemma_walk_orderly(patterns, start, pass, i);
            assert(pass.visit_follows(patterns, start, i));
            if i > 0 {
                assert(pass.visits[i - 1].after.function.flow == flow);
            }
            let walk = pass.visits[i].walk;
            lemma_orderly_step(walk, flow);
            assert(flow.leads(walk.step(flow).node->0, m));
            assert(walk.finished.contains(m) <==> pass.visited_before(i, m));
        }
    }
}

/// What is said of the visits holds whatever follows them.
proof fn lemma_same_visits<P: Patterns>(patterns: P, start: StructurerView, a: Pass, b: Pass)
    requires
        a.visits == b.visits,
        a.visits_follow(patterns, start),
    ensures
        b.visits_follow(patterns, start),
        a.next_node(start) == b.next_node(start),
        a.unready_in_the_end(start) == b.unready_in_the_end(start),
        a.stays_low(start) == b.stays_low(start),
        a.in_postorder(start) == b.in_postorder(start),
        a.steady(start) == b.steady(start),
        forall|n: u32| a.visited(n) == #[trigger] b.visited(n),
        a.covers(start) ==> b.covers(start),
        a.sweeps == b.sweeps ==> a.matched() == b.matched(),
{
    assert forall|i: int| 0 <= i < b.visits.len() implies #[trigger] b.visit_follows(
        patterns,
        start,
        i,
    ) by {
        assert(a.visit_follows(patterns, start, i));
    }
    assert forall|n: u32| a.visited(n) == #[trigger] b.visited(n) by {}
    if a.covers(start) && b.steady(start) {
        assert forall|n: u32| #[trigger] b.visited(n) <==> start.function.flow.reaches(
            start.function.entry->0,
            n,
        ) by {
            assert(a.visited(n) == b.visited(n));
        }
    }
}

/// One more sweep.
proof fn lemma_sweep<P: Patterns>(patterns: P, start: StructurerView, pass: Pass, sweep: Sweep)
    requires
        pass.sweeps_follow(patterns, start),
        pass.sweeps.len() < pass.unreached.len(),
        sweep.node == pass.unreached[pass.sweeps.len() as int],
        sweep.before == pass.swept_at(start, pass.sweeps.len() as int),
        pass.sweeps_one(patterns, sweep),
    ensures
        pass.with_sweep(sweep).sweeps_follow(patterns, start),
        pass.with_sweep(sweep).matched() == (pass.matched() || sweep.matched),
{
    let longer = pass.with_sweep(sweep);
    assert(longer.left_over(start) == pass.left_over(start));
    assert forall|i: int| 0 <= i < longer.sweeps.len() implies #[trigger] longer.sweep_follows(
        patterns,
        start,
        i,
    ) by {
        if i < pass.sweeps.len() {
            assert(pass.sweep_follows(patterns, start, i));
        }
        assert(longer.swept_at(start, i) == pass.swept_at(start, i));
    }
    if pass.matched() {
        if exists|i: int| 0 <= i < pass.visits.len() && (#[trigger] pass.visits[i]).matched {
            let i = choose|i: int|
                0 <= i < pass.visits.len() && (#[trigger] pass.visits[i]).matched;
            assert(longer.visits[i].matched);
        } else {
            let i = choose|i: int|
                0 <= i < pass.sweeps.len() && (#[trigger] pass.sweeps[i]).matched;
            assert(longer.sweeps[i].matched);
        }
    }
    if sweep.matched {
        assert(longer.sweeps[pass.sweeps.len() as int].matched);
    }
    if longer.matched() {
        if exists|i: int| 0 <= i < longer.visits.len() && (#[trigger] longer.visits[i]).matched {
            let i = choose|i: int|
                0 <= i < longer.visits.len() && (#[trigger] longer.visits[i]).matched;
            assert(pass.visits[i].matched);
        } else {
            let i = choose|i: int|
                0 <= i < longer.sweeps.len() && (#[trigger] longer.sweeps[i]).matched;
            if i < pass.sweeps.len() {
                assert(pass.sweeps[i].matched);
            }
        }
    }
}

/// Where dominators cannot be found in the beginning, that is the error, and there
/// is no other outcome.
pub proof fn unready_functions_fail_at_once<P: Patterns>(
    patterns: P,
    before: StructurerView,
    error: StructureError,
)
    requires
        unready(before.function) is Some,
    ensures
        pass_fails(patterns, before, error) <==> unready(before.function) == Some(error),
        forall|after: StructurerView, changed: bool| !#[trigger]
            passes(patterns, before, after, changed),
{
    if unready(before.function) == Some(error) {
        lemma_unready(patterns, before, error);
    }
    if pass_fails(patterns, before, error) {
        let pass = choose|pass: Pass| #[trigger] pass.fails(patterns, before, error);
        if pass.visits.len() > 0 {
            assert(pass.visit_follows(patterns, before, 0));
        }
    }
}

/// The visits go on from one another, each at the block that the walk hands out in
/// the function as it is then, with the dominators of the function as it was after
/// the last match.
pub proof fn visits_go_on_from_one_another<P: Patterns>(
    patterns: P,
    pass: Pass,
    before: StructurerView,
)
    requires
        pass.visits_follow(patterns, before),
    ensures
        forall|i: int|
            0 <= i < pass.visits.len() ==> looks(
                patterns,
                (#[trigger] pass.visits[i]).before,
                pass.visits[i].node,
                pass.visits[i].dominators,
                pass.visits[i].post_dominators,
                pass.visits[i].after,
                Ok(pass.visits[i].matched),
            ),
        pass.visits.len() > 0 ==> {
            &&& pass.visits[0].before == before
            &&& pass.visits[0].basis == before
            &&& pass.visits[0].walk.stack == seq![before.function.entry->0]
            &&& pass.visits[0].walk.discovered == Set::<u32>::empty()
            &&& pass.visits[0].walk.finished == Set::<u32>::empty()
        },
        forall|i: int, j: int|
            0 <= i && j == i + 1 && j < pass.visits.len() ==> {
                &&& (#[trigger] pass.visits[j]).before == (#[trigger] pass.visits[i]).after
                &&& pass.visits[j].basis == if pass.visits[i].matched {
                    pass.visits[i].after
                } else {
                    pass.visits[i].basis
                }
                &&& walk_step(
                    pass.visits[i].walk.stack,
                    pass.visits[i].walk.discovered,
                    pass.visits[i].walk.finished,
                    pass.visits[i].before.function.flow.successor_lists(),
                ) == (WalkStep {
                    stack: pass.visits[j].walk.stack,
                    discovered: pass.visits[j].walk.discovered,
                    finished: pass.visits[j].walk.finished,
                    node: Some(pass.visits[i].node),
                })
            },
        forall|i: int|
            0 <= i < pass.visits.len() ==> {
                &&& walk_step(
                    (#[trigger] pass.visits[i]).walk.stack,
                    pass.visits[i].walk.discovered,
                    pass.visits[i].walk.finished,
                    pass.visits[i].before.function.flow.successor_lists(),
                ).node == Some(pass.visits[i].node)
                &&& is_dominance(
                    pass.visits[i].basis.function.flow,
                    pass.visits[i].basis.function.entry->0,
                    pass.visits[i].dominators,
                )
                &&& is_post_dominance(
                    pass.visits[i].basis.function.flow,
                    pass.visits[i].post_dominators,
                    pass.visits[i].basis.function.flow.next_number(),
                )
            },
        forall|i: int, j: int|
            0 <= i < j < pass.visits.len() ==> (#[trigger] pass.visits[i]).node != (
            #[trigger] pass.visits[j]).node,
{
    reveal(describes);
    assert forall|i: int| 0 <= i < pass.visits.len() implies looks(
        patterns,
        (#[trigger] pass.visits[i]).before,
        pass.visits[i].node,
        pass.visits[i].dominators,
        pass.visits[i].post_dominators,
        pass.visits[i].after,
        Ok(pass.visits[i].matched),
    ) && pass.visits[i].walk.step(pass.visits[i].before.function.flow).node == Some(
        pass.visits[i].node,
    ) && describes(
        pass.visits[i].basis,
        pass.visits[i].dominators,
        pass.visits[i].post_dominators,
    ) by {
        assert(pass.visit_follows(patterns, before, i));
    }
    if pass.visits.len() > 0 {
        assert(pass.visit_follows(patterns, before, 0));
    }
    assert forall|i: int, j: int| 0 <= i && j == i + 1 && j < pass.visits.len() implies {
        &&& (#[trigger] pass.visits[j]).before == (#[trigger] pass.visits[i]).after
        &&& pass.visits[j].basis == if pass.visits[i].matched {
            pass.visits[i].after
        } else {
            pass.visits[i].basis
        }
        &&& pass.visits[j].walk == pass.visits[i].walk.after(pass.visits[i].before.function.flow)
    } by {
        assert(pass.visit_follows(patterns, before, j));
    }
}

/// The sweeps go on from one another and from the last visit, through the blocks that
/// are there then and could not be reached in the beginning, in ascending order.  One
/// that an edge leads to stays as it is, one that starts with no label goes, and at
/// any other a look is had.
pub proof fn sweeps_go_on_from_one_another<P: Patterns>(
    patterns: P,
    pass: Pass,
    before: StructurerView,
)
    requires
        pass.sweeps_follow(patterns, before),
    ensures
        pass.sweeps.len() <= pass.unreached.len(),
        forall|i: int, j: int|
            0 <= i < j < pass.unreached.len() ==> pass.unreached[i] < pass.unreached[j],
        forall|n: u32| #[trigger]
            pass.unreached.contains(n) <==> !before.function.flow.reaches(
                before.function.entry->0,
                n,
            ) && if pass.visits.len() == 0 {
                before.function.flow.has(n)
            } else {
                pass.visits.last().after.function.flow.has(n)
            },
        forall|i: int|
            0 <= i < pass.sweeps.len() ==> (#[trigger] pass.sweeps[i]).node == pass.unreached[i],
        pass.sweeps.len() > 0 ==> pass.sweeps[0].before == if pass.visits.len() == 0 {
            before
        } else {
            pass.visits.last().after
        },
        forall|i: int, j: int|
            0 <= i && j == i + 1 && j < pass.sweeps.len() ==> (#[trigger] pass.sweeps[j]).before
                == (#[trigger] pass.sweeps[i]).after,
        forall|i: int|
            0 <= i < pass.sweeps.len() && (#[trigger] pass.sweeps[i]).before.function.wf() && (
            !pass.sweeps[i].before.function.flow.has(pass.sweeps[i].node) || exists|e: u32|
                #[trigger]
                pass.sweeps[i].before.function.flow.edges.contains_key(e)
                    && pass.sweeps[i].before.function.flow.edges[e].target == pass.sweeps[i].node)
                ==> pass.sweeps[i].after == pass.sweeps[i].before && !pass.sweeps[i].matched,
        forall|i: int|
            0 <= i < pass.sweeps.len() && (#[trigger] pass.sweeps[i]).before.function.wf()
                && pass.sweeps[i].before.function.flow.has(pass.sweeps[i].node) && (forall|e: u32|
                #[trigger]
                pass.sweeps[i].before.function.flow.edges.contains_key(e)
                    ==> pass.sweeps[i].before.function.flow.edges[e].target
                    != pass.sweeps[i].node) && !(pass.sweeps[i].before.function.blocks[
                pass.sweeps[i].node
            ].len() > 0 && pass.sweeps[i].before.function.blocks[pass.sweeps[i].node][0] is Label)
                ==> {
                &&& pass.sweeps[i].after.function.blocks
                    == pass.sweeps[i].before.function.blocks.remove(pass.sweeps[i].node)
                &&& pass.sweeps[i].after.function.flow
                    == pass.sweeps[i].before.function.flow.without_node(pass.sweeps[i].node)
                &&& pass.sweeps[i].after.function.entry == pass.sweeps[i].before.function.entry
                &&& pass.sweeps[i].after.labels == pass.sweeps[i].before.labels
                &&& pass.sweeps[i].after.loop_headers == pass.sweeps[i].before.loop_headers
                &&& !pass.sweeps[i].matched
            },
        forall|i: int|
            0 <= i < pass.sweeps.len() && (#[trigger] pass.sweeps[i]).before.function.wf()
                && pass.sweeps[i].before.function.flow.has(pass.sweeps[i].node) && (forall|e: u32|
                #[trigger]
                pass.sweeps[i].before.function.flow.edges.contains_key(e)
                    ==> pass.sweeps[i].before.function.flow.edges[e].target
                    != pass.sweeps[i].node) && pass.sweeps[i].before.function.blocks[
                pass.sweeps[i].node
            ].len() > 0 && pass.sweeps[i].before.function.blocks[pass.sweeps[i].node][0] is Label
                ==> looks(
                patterns,
                pass.sweeps[i].before,
                pass.sweeps[i].node,
                pass.dominators,
                pass.post_dominators,
                pass.sweeps[i].after,
                Ok(pass.sweeps[i].matched),
            ),
{
    assert forall|n: u32| #[trigger]
        pass.unreached.contains(n) <==> !before.function.flow.reaches(before.function.entry->0, n)
            && if pass.visits.len() == 0 {
            before.function.flow.has(n)
        } else {
            pass.visits.last().after.function.flow.has(n)
        } by {
        assert(pass.unreached.contains(n) <==> pass.left_over(before).contains(n));
    }
    assert forall|i: int| 0 <= i < pass.sweeps.len() implies (#[trigger] pass.sweeps[i]).node
        == pass.unreached[i] && pass.sweeps[i].before == pass.swept_at(before, i)
        && pass.sweeps_one(patterns, pass.sweeps[i]) by {
        assert(pass.sweep_follows(patterns, before, i));
    }
    assert forall|i: int|
        0 <= i < pass.sweeps.len() && (
        #[trigger] pass.sweeps[i]).before.function.wf() implies (
    pass.sweeps[i].before.function.flow.incoming(pass.sweeps[i].node).len() == 0 <==> forall|
        e: u32,
    | #[trigger]
        pass.sweeps[i].before.function.flow.edges.contains_key(e)
            ==> pass.sweeps[i].before.function.flow.edges[e].target != pass.sweeps[i].node) by {
        lemma_nothing_arrives(pass.sweeps[i].before.function.flow, pass.sweeps[i].node);
    }
}

proof fn lemma_nothing_arrives(f: Flow, node: u32)
    requires
        f.wf(),
    ensures
        f.incoming(node).len() == 0 <==> forall|e: u32| #[trigger]
            f.edges.contains_key(e) ==> f.edges[e].target != node,
{
    assert(f.incoming(node).subset_of(f.edges.dom()));
    vstd::set_lib::lemma_set_subset_finite(f.edges.dom(), f.incoming(node));
    if f.incoming(node).len() == 0 {
        assert forall|e: u32| #[trigger] f.edges.contains_key(e) implies f.edges[e].target
            != node by {
            assert(!f.incoming(node).contains(e));
        }
    }
    if forall|e: u32| #[trigger] f.edges.contains_key(e) ==> f.edges[e].target != node {
        assert(f.incoming(node) =~= Set::<u32>::empty());
    }
}

/// A way through the blocks visits until the walk is at its end, then sweeps every
/// block that could not be reached, and tells of a change if and only if some look
/// on the way matched.
pub proof fn passes_go_all_the_way<P: Patterns>(
    patterns: P,
    pass: Pass,
    before: StructurerView,
    after: StructurerView,
    changed: bool,
)
    requires
        pass.gives(patterns, before, after, changed),
    ensures
        before.function.entry is Some,
        pass.visits_follow(patterns, before),
        pass.visits.len() == 0 ==> walk_step(
            seq![before.function.entry->0],
            Set::empty(),
            Set::empty(),
            before.function.flow.successor_lists(),
        ).node is None,
        pass.visits.len() > 0 ==> walk_step(
            walk_step(
                pass.visits.last().walk.stack,
                pass.visits.last().walk.discovered,
                pass.visits.last().walk.finished,
                pass.visits.last().before.function.flow.successor_lists(),
            ).stack,
            walk_step(
                pass.visits.last().walk.stack,
                pass.visits.last().walk.discovered,
                pass.visits.last().walk.finished,
                pass.visits.last().before.function.flow.successor_lists(),
            ).discovered,
            walk_step(
                pass.visits.last().walk.stack,
                pass.visits.last().walk.discovered,
                pass.visits.last().walk.finished,
                pass.visits.last().before.function.flow.successor_lists(),
            ).finished,
            pass.visits.last().after.function.flow.successor_lists(),
        ).node is None,
        (forall|i: int|
            0 <= i < pass.visits.len() ==> (#[trigger] pass.visits[i]).after.function.flow
                == before.function.flow) ==> forall|n: u32| #[trigger]
            before.function.flow.reaches(before.function.entry->0, n) <==> exists|i: int|
                0 <= i < pass.visits.len() && (#[trigger] pass.visits[i]).node == n,
        pass.visits.len() > 0 && pass.visits.last().matched ==> is_dominance(
            pass.visits.last().after.function.flow,
            pass.visits.last().after.function.entry->0,
            pass.dominators,
        ) && is_post_dominance(
            pass.visits.last().after.function.flow,
            pass.post_dominators,
            pass.visits.last().after.function.flow.next_number(),
        ),
        pass.visits.len() > 0 && !pass.visits.last().matched ==> is_dominance(
            pass.visits.last().basis.function.flow,
            pass.visits.last().basis.function.entry->0,
            pass.dominators,
        ) && is_post_dominance(
            pass.visits.last().basis.function.flow,
            pass.post_dominators,
            pass.visits.last().basis.function.flow.next_number(),
        ),
        pass.sweeps_follow(patterns, before),
        pass.sweeps.len() == pass.unreached.len(),
        after == if pass.sweeps.len() > 0 {
            pass.sweeps.last().after
        } else if pass.visits.len() > 0 {
            pass.visits.last().after
        } else {
            before
        },
        changed <==> {
            ||| exists|i: int| 0 <= i < pass.visits.len() && (#[trigger] pass.visits[i]).matched
            ||| exists|i: int| 0 <= i < pass.sweeps.len() && (#[trigger] pass.sweeps[i]).matched
        },
{
    reveal(describes);
    if forall|i: int|
        0 <= i < pass.visits.len() ==> (#[trigger] pass.visits[i]).after.function.flow
            == before.function.flow {
        assert(pass.steady(before));
        assert forall|n: u32| #[trigger]
            before.function.flow.reaches(before.function.entry->0, n) <==> exists|i: int|
                0 <= i < pass.visits.len() && (#[trigger] pass.visits[i]).node == n by {
            assert(pass.visited(n) <==> before.function.flow.reaches(before.function.entry->0, n));
        }
    }
}

/// What is told of a way through the blocks is told of one that goes all the way.
pub proof fn passes_are_ways_through_the_blocks<P: Patterns>(
    patterns: P,
    before: StructurerView,
    after: StructurerView,
    changed: bool,
)
    requires
        passes(patterns, before, after, changed),
    ensures
        exists|pass: Pass| #[trigger] pass.gives(patterns, before, after, changed),
{
}

/// A way through the blocks ends early only for a reason: there is no entry or no
/// number left after the last match, the walk comes to a number that no block had in
/// the beginning, or a look fails, at the block that the walk hands out next or, where
/// it is at its end, at the next that could not be reached.
pub proof fn passes_end_early_for_a_reason<P: Patterns>(
    patterns: P,
    before: StructurerView,
    error: StructureError,
)
    requires
        pass_fails(patterns, before, error),
    ensures
        exists|pass: Pass| #[trigger]
            pass.visits_follow(patterns, before) && {
                ||| error == StructureError::MissingEntry && !pass.basis_at(
                    before,
                    pass.visits.len() as int,
                ).function.has_start()
                ||| error == StructureError::OutOfNumbers && !pass.basis_at(
                    before,
                    pass.visits.len() as int,
                ).function.has_room()
                ||| error == StructureError::OutgrownWalk && exists|n: u32| #[trigger]
                    pass.walk_at(before, pass.visits.len() as int).step(
                        pass.state_at(before, pass.visits.len() as int).function.flow,
                    ).discovered.contains(n) && !before.function.flow.below_bound(n)
                ||| exists|last: StructurerView|
                    pass.next_node(before) is Some && #[trigger] looks(
                        patterns,
                        pass.state_at(before, pass.visits.len() as int),
                        pass.next_node(before)->0,
                        pass.dominators,
                        pass.post_dominators,
                        last,
                        Err(error),
                    )
                ||| exists|last: StructurerView|
                    pass.next_node(before) is None && pass.sweeps_follow(patterns, before)
                        && #[trigger] looks(
                        patterns,
                        pass.swept_at(before, pass.sweeps.len() as int),
                        pass.unreached[pass.sweeps.len() as int],
                        pass.dominators,
                        pass.post_dominators,
                        last,
                        Err(error),
                    )
            },
{
    let pass = choose|pass: Pass| #[trigger] pass.fails(patterns, before, error);
    assert(pass.visits_follow(patterns, before));
}

/// Where a way through the blocks stands: before the first visit at the start, and
/// later where the visit or sweep before left it.
pub proof fn passes_stand_where_they_were_left(pass: Pass, start: StructurerView)
    ensures
        pass.visits.len() == 0 ==> {
            &&& pass.state_at(start, 0) == start
            &&& pass.basis_at(start, 0) == start
            &&& pass.walk_at(start, 0).stack == seq![start.function.entry->0]
            &&& pass.walk_at(start, 0).discovered == Set::<u32>::empty()
            &&& pass.walk_at(start, 0).finished == Set::<u32>::empty()
        },
        pass.visits.len() > 0 ==> {
            &&& pass.state_at(start, pass.visits.len() as int) == pass.visits.last().after
            &&& pass.basis_at(start, pass.visits.len() as int) == if pass.visits.last().matched {
                pass.visits.last().after
            } else {
                pass.visits.last().basis
            }
            &&& pass.walk_at(start, pass.visits.len() as int) == pass.visits.last().walk.after(
                pass.visits.last().before.function.flow,
            )
        },
        pass.sweeps.len() == 0 ==> pass.swept_at(start, 0) == pass.state_at(
            start,
            pass.visits.len() as int,
        ),
        pass.sweeps.len() > 0 ==> pass.swept_at(start, pass.sweeps.len() as int)
            == pass.sweeps.last().after,
        pass.next_node(start) == pass.walk_at(start, pass.visits.len() as int).step(
            pass.state_at(start, pass.visits.len() as int).function.flow,
        ).node,
{
}

} // verus!
