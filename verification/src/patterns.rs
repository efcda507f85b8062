//! Recognising structure at one block.

use vstd::prelude::*;

use crate::flow::{dominator_chains, BranchType, Dominance};
use crate::structurer::{GraphStructurer, StructurerView};

verus! {

/// Why a function cannot be structured.
#[derive(Clone, Copy, Debug, PartialEq, Eq, Structural)]
pub enum StructureError {
    /// There is no block to start from.
    MissingEntry,
    /// A block goes on at more than two places.
    TooManySuccessors(u32),
    /// A block goes on at two places that are not the two sides of a condition.
    NotABranch(u32),
    /// There are no numbers left for more blocks or edges.
    OutOfNumbers,
    /// The way through the blocks comes to one with a higher number than there
    /// was when it began.
    OutgrownWalk,
    /// An edge cannot be given up: there is none, its target cannot be joined to
    /// its source, or no numbers are left for what takes its place.
    CannotGiveUp(u32),
    /// A goto names a label that stands nowhere.
    UnknownLabel,
    /// A goto names a label without a first letter.
    MalformedLabel,
    /// Structure was still being found after more rounds than can be counted.
    NoEnd,
}

/// The dominators of blocks.
pub type Chains = Map<u32, Seq<u32>>;

/// The structures that can be recognised at a block.
///
/// Each method looks for one kind of structure, rewrites the function where it
/// finds it, and tells whether it did.  The specification functions say what
/// the methods do; they are free to say as much or as little as they like, and
/// say nothing unless they are written out.
pub trait Patterns {
    /// What [`Patterns::try_collapse_loop`] may make of a function.
    open spec fn collapses_loop(
        &self,
        before: StructurerView,
        node: u32,
        dominators: Chains,
        post_dominators: Chains,
        after: StructurerView,
        matched: bool,
    ) -> bool {
        true
    }

    /// What [`Patterns::try_remove_unnecessary_condition`] may make of a
    /// function.
    open spec fn removes_condition(
        &self,
        before: StructurerView,
        node: u32,
        after: StructurerView,
        matched: bool,
    ) -> bool {
        true
    }

    /// What [`Patterns::match_jump`] may make of a function.
    open spec fn matches_jump(
        &self,
        before: StructurerView,
        node: u32,
        target: u32,
        after: StructurerView,
        matched: bool,
    ) -> bool {
        true
    }

    /// What [`Patterns::match_conditional`] may make of a function.
    open spec fn matches_conditional(
        &self,
        before: StructurerView,
        node: u32,
        then_target: u32,
        else_target: u32,
        after: StructurerView,
        matched: bool,
    ) -> bool {
        true
    }

    /// What [`Patterns::is_for_next`] may answer.
    open spec fn answers_for_next(&self, state: StructurerView, node: u32, found: bool) -> bool {
        true
    }

    /// A loop with its head at `node`.
    fn try_collapse_loop(
        &self,
        structurer: &mut GraphStructurer,
        node: u32,
        dominators: &Dominance,
        post_dominators: &Dominance,
    ) -> (matched: bool)
        ensures
            self.collapses_loop(
                old(structurer)@,
                node,
                dominator_chains(*dominators),
                dominator_chains(*post_dominators),
                final(structurer)@,
                matched,
            ),
    ;

    /// A condition at `node` that makes no difference.
    fn try_remove_unnecessary_condition(
        &self,
        structurer: &mut GraphStructurer,
        node: u32,
    ) -> (matched: bool)
        ensures
            self.removes_condition(old(structurer)@, node, final(structurer)@, matched),
    ;

    /// A step from `node` to its only successor.
    fn match_jump(&self, structurer: &mut GraphStructurer, node: u32, target: u32) -> (matched:
        bool)
        ensures
            self.matches_jump(old(structurer)@, node, target, final(structurer)@, matched),
    ;

    /// A condition at `node` with its two sides.
    fn match_conditional(
        &self,
        structurer: &mut GraphStructurer,
        node: u32,
        then_target: u32,
        else_target: u32,
    ) -> (matched: bool)
        ensures
            self.matches_conditional(
                old(structurer)@,
                node,
                then_target,
                else_target,
                final(structurer)@,
                matched,
            ),
    ;

    /// Whether a block is the head of a counting or iterating loop.
    fn is_for_next(&self, structurer: &GraphStructurer, node: u32) -> (found: bool)
        ensures
            self.answers_for_next(structurer@, node, found),
    ;
}

/// No structures at all: no edge is joined away and none becomes a jump, since giving
/// one up never helps.  Only dead blocks go, with the edges that leave them.
pub struct NoPatterns;

impl Patterns for NoPatterns {
    open spec fn collapses_loop(
        &self,
        before: StructurerView,
        node: u32,
        dominators: Chains,
        post_dominators: Chains,
        after: StructurerView,
        matched: bool,
    ) -> bool {
        after == before && !matched
    }

    open spec fn removes_condition(
        &self,
        before: StructurerView,
        node: u32,
        after: StructurerView,
        matched: bool,
    ) -> bool {
        after == before && !matched
    }

    open spec fn matches_jump(
        &self,
        before: StructurerView,
        node: u32,
        target: u32,
        after: StructurerView,
        matched: bool,
    ) -> bool {
        after == before && !matched
    }

    open spec fn matches_conditional(
        &self,
        before: StructurerView,
        node: u32,
        then_target: u32,
        else_target: u32,
        after: StructurerView,
        matched: bool,
    ) -> bool {
        after == before && !matched
    }

    open spec fn answers_for_next(&self, state: StructurerView, node: u32, found: bool) -> bool {
        !found
    }

    fn try_collapse_loop(
        &self,
        structurer: &mut GraphStructurer,
        node: u32,
        dominators: &Dominance,
        post_dominators: &Dominance,
    ) -> (matched: bool) {
        false
    }

    fn try_remove_unnecessary_condition(
        &self,
        structurer: &mut GraphStructurer,
        node: u32,
    ) -> (matched: bool) {
        false
    }

    fn match_jump(&self, structurer: &mut GraphStructurer, node: u32, target: u32) -> (matched:
        bool) {
        false
    }

    fn match_conditional(
        &self,
        structurer: &mut GraphStructurer,
        node: u32,
        then_target: u32,
        else_target: u32,
    ) -> (matched: bool) {
        false
    }

    fn is_for_next(&self, structurer: &GraphStructurer, node: u32) -> (found: bool) {
        false
    }
}

/// The steps of one look at a block.
pub struct Look {
    /// After looking for a loop.
    pub loop_after: StructurerView,
    pub loop_matched: bool,
    /// After looking for a condition that makes no difference.
    pub condition_after: StructurerView,
    pub condition_matched: bool,
}

/// What looking for a condition or a jump at `node` gives, by the number of its
/// successors, after neither a loop nor a needless condition was found.
pub open spec fn looks_onward<P: Patterns>(
    patterns: P,
    successors: Seq<u32>,
    before: StructurerView,
    node: u32,
    after: StructurerView,
    result: Result<bool, StructureError>,
) -> bool {
    let flow = before.function.flow;
    if successors.len() == 0 {
        after == before && result == Ok::<bool, StructureError>(false)
    } else if successors.len() == 1 {
        result is Ok && patterns.matches_jump(before, node, successors[0], after, result->Ok_0)
    } else if successors.len() == 2 {
        match flow.branches(node) {
            Some(pair) => result is Ok && patterns.matches_conditional(
                before,
                node,
                flow.edges[pair.0].target,
                flow.edges[pair.1].target,
                after,
                result->Ok_0,
            ),
            None => after == before && result == Err::<bool, StructureError>(
                StructureError::NotABranch(node),
            ),
        }
    } else {
        after == before && result == Err::<bool, StructureError>(
            StructureError::TooManySuccessors(node),
        )
    }
}

/// What one look at the block `node` gives, step by step: first a loop, after
/// which the loop headers are looked for anew, then a condition that makes no
/// difference, then by the number of successors that the block had at first.
pub open spec fn look_gives<P: Patterns>(
    patterns: P,
    before: StructurerView,
    node: u32,
    dominators: Chains,
    post_dominators: Chains,
    look: Look,
    after: StructurerView,
    result: Result<bool, StructureError>,
) -> bool {
    &&& patterns.collapses_loop(
        before,
        node,
        dominators,
        post_dominators,
        look.loop_after,
        look.loop_matched,
    )
    &&& if look.loop_matched {
        if look.loop_after.function.has_start() {
            after == look.loop_after.with_loop_heads() && result == Ok::<bool, StructureError>(
                true,
            )
        } else {
            after == look.loop_after && result == Err::<bool, StructureError>(
                StructureError::MissingEntry,
            )
        }
    } else {
        &&& patterns.removes_condition(
            look.loop_after,
            node,
            look.condition_after,
            look.condition_matched,
        )
        &&& if look.condition_matched {
            after == look.condition_after && result == Ok::<bool, StructureError>(true)
        } else {
            looks_onward(
                patterns,
                before.function.flow.successors(node),
                look.condition_after,
                node,
                after,
                result,
            )
        }
    }
}

/// What one look at the block `node` gives.
#[verifier::opaque]
pub open spec fn looks<P: Patterns>(
    patterns: P,
    before: StructurerView,
    node: u32,
    dominators: Chains,
    post_dominators: Chains,
    after: StructurerView,
    result: Result<bool, StructureError>,
) -> bool {
    exists|look: Look| #[trigger]
        look_gives(
            patterns,
            before,
            node,
            dominators,
            post_dominators,
            look,
            after,
            result,
        )
}

impl GraphStructurer {
    /// Looks for structure at the block `node`.
    pub fn try_match_pattern<P: Patterns>(
        &mut self,
        patterns: &P,
        node: u32,
        dominators: &Dominance,
        post_dominators: &Dominance,
    ) -> (result: Result<bool, StructureError>)
        ensures
            looks(
                *patterns,
                old(self)@,
                node,
                dominator_chains(*dominators),
                dominator_chains(*post_dominators),
                final(self)@,
                result,
            ),
    {
        let ghost before = self@;
        let ghost chains = dominator_chains(*dominators);
        let ghost post_chains = dominator_chains(*post_dominators);
        proof {
            reveal(looks);
            self.lemma_view();
        }
        let successors = self.function.successor_blocks(node);
        let loop_matched = patterns.try_collapse_loop(self, node, dominators, post_dominators);
        let ghost loop_after = self@;
        proof {
            self.lemma_view();
        }
        if loop_matched {
            let ghost look = Look {
                loop_after,
                loop_matched: true,
                condition_after: loop_after,
                condition_matched: false,
            };
            let result: Result<bool, StructureError> = if self.function.has_start() {
                self.find_loop_headers();
                Ok(true)
            } else {
                Err(StructureError::MissingEntry)
            };
            assert(look_gives(*patterns, before, node, chains, post_chains, look, self@, result));
            return result;
        }
        let condition_matched = patterns.try_remove_unnecessary_condition(self, node);
        let ghost condition_after = self@;
        let ghost look = Look { loop_after, loop_matched, condition_after, condition_matched };
        proof {
            self.lemma_view();
            use_type_invariant(&self.function);
        }
        if condition_matched {
            assert(look_gives(
                *patterns,
                before,
                node,
                chains,
                post_chains,
                look,
                self@,
                Ok(true),
            ));
            return Ok(true);
        }
        let result: Result<bool, StructureError> = if successors.len() == 0 {
            Ok(false)
        } else if successors.len() == 1 {
            Ok(patterns.match_jump(self, node, successors[0]))
        } else if successors.len() == 2 {
            match self.function.conditional_edges(node) {
                Some((then_edge, else_edge)) => {
                    let ghost flow = self.function@.flow;
                    proof {
                        assert(flow.out[node].contains(then_edge)) by {
                            assert(flow.out[node].contains(flow.out[node][0]));
                            assert(flow.out[node].contains(flow.out[node][1]));
                        }
                        assert(flow.out[node].contains(else_edge)) by {
                            assert(flow.out[node].contains(flow.out[node][0]));
                            assert(flow.out[node].contains(flow.out[node][1]));
                        }
                    }
                    let (_, then_target) = self.function.edge_endpoints(then_edge).unwrap();
                    let (_, else_target) = self.function.edge_endpoints(else_edge).unwrap();
                    Ok(patterns.match_conditional(self, node, then_target, else_target))
                },
                None => Err(StructureError::NotABranch(node)),
            }
        } else {
            Err(StructureError::TooManySuccessors(node))
        };
        assert(look_gives(*patterns, before, node, chains, post_chains, look, self@, result));
        result
    }
}

/// A look at a block asks for a loop first, and looks for the loop headers anew where
/// there is one.  Else it asks for a condition that makes no difference, and else by
/// the number of edges that left the block in the beginning: with none it finds
/// nothing, with one it asks for a jump to its target, and with two for a condition
/// with the target of the edge for what holds and that of the edge for what does not.
pub proof fn looks_ask_in_order<P: Patterns>(
    patterns: P,
    before: StructurerView,
    node: u32,
    dominators: Chains,
    post_dominators: Chains,
    after: StructurerView,
    result: Result<bool, StructureError>,
)
    requires
        looks(patterns, before, node, dominators, post_dominators, after, result),
    ensures
        exists|first: StructurerView, is_loop: bool|
            #![trigger patterns.collapses_loop(
                before, node, dominators, post_dominators, first, is_loop)]
            patterns.collapses_loop(before, node, dominators, post_dominators, first, is_loop)
                && (is_loop && first.function.has_start() ==> after == first.with_loop_heads()
                && result == Ok::<bool, StructureError>(true)) && (is_loop
                && !first.function.has_start() ==> result == Err::<bool, StructureError>(
                StructureError::MissingEntry,
            )) && (!is_loop ==> exists|second: StructurerView, is_needless: bool|
                #![trigger patterns.removes_condition(first, node, second, is_needless)]
                patterns.removes_condition(first, node, second, is_needless) && (is_needless
                    ==> after == second && result == Ok::<bool, StructureError>(true)) && (
                !is_needless && before.function.flow.out_edges(node).len() == 0 ==> after == second
                    && result == Ok::<bool, StructureError>(false)) && (!is_needless
                    && before.function.flow.out_edges(node).len() == 1 ==> result is Ok
                    && patterns.matches_jump(
                    second,
                    node,
                    before.function.flow.edges[before.function.flow.out_edges(node)[0]].target,
                    after,
                    result->Ok_0,
                )) && (!is_needless && before.function.flow.out_edges(node).len() == 2 && result
                    is Ok ==> second.function.flow.out_edges(node).len() == 2 && exists|
                    t: u32,
                    e: u32,
                |
                    #![trigger second.function.flow.edges[t], second.function.flow.edges[e]]
                    second.function.flow.out_edges(node).contains(t)
                        && second.function.flow.out_edges(node).contains(e)
                        && second.function.flow.edges[t].weight.branch_type == BranchType::Then
                        && second.function.flow.edges[e].weight.branch_type == BranchType::Else
                        && patterns.matches_conditional(
                        second,
                        node,
                        second.function.flow.edges[t].target,
                        second.function.flow.edges[e].target,
                        after,
                        result->Ok_0,
                    )) && (!is_needless && before.function.flow.out_edges(node).len() == 2
                    && result is Err ==> after == second && result == Err::<bool, StructureError>(
                    StructureError::NotABranch(node),
                ) && !(second.function.flow.out_edges(node).len() == 2 && exists|t: u32, e: u32|
                    #![trigger second.function.flow.edges[t], second.function.flow.edges[e]]
                    second.function.flow.out_edges(node).contains(t)
                        && second.function.flow.out_edges(node).contains(e)
                        && second.function.flow.edges[t].weight.branch_type == BranchType::Then
                        && second.function.flow.edges[e].weight.branch_type == BranchType::Else))
                    && (!is_needless && before.function.flow.out_edges(node).len() > 2 ==> after
                    == second && result == Err::<bool, StructureError>(
                    StructureError::TooManySuccessors(node),
                ))),
{
    reveal(looks);
    let look = choose|look: Look| #[trigger]
        look_gives(patterns, before, node, dominators, post_dominators, look, after, result);
    let first = look.loop_after;
    let second = look.condition_after;
    assert(patterns.collapses_loop(
        before,
        node,
        dominators,
        post_dominators,
        first,
        look.loop_matched,
    ));
    if !look.loop_matched {
        assert(patterns.removes_condition(first, node, second, look.condition_matched));
        let count = before.function.flow.out_edges(node).len();
        assert(before.function.flow.successors(node).len() == count);
        if !look.condition_matched && count == 2 {
            let flow = second.function.flow;
            let out = flow.out_edges(node);
            match flow.branches(node) {
                Some((t, e)) => {
                    assert(out.contains(out[0]) && out.contains(out[1]));
                    assert(flow.edges[t].weight.branch_type == BranchType::Then);
                    assert(flow.edges[e].weight.branch_type == BranchType::Else);
                },
                None => {
                    if out.len() == 2 {
                        assert forall|x: u32| #[trigger] out.contains(x) implies x == out[0] || x
                            == out[1] by {}
                    }
                },
            }
        }
    }
}

} // verus!
