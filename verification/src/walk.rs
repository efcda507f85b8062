//! Walking the blocks of a function from the last ones to the first.

use vstd::prelude::*;

use crate::cfg::Function;
use crate::flow::{
    lemma_unseen, listed, not_seen, unseen, walk_capacity, walk_discovered, walk_finished,
    walk_stack, walk_step, Flow, PostOrder, WalkStep,
};
use crate::lists::{lemma_appended, lemma_filter};

verus! {

/// A walk that hands out each block after those that can be reached from it.
/// The function may change meanwhile.
pub struct Walk {
    order: PostOrder,
    bound: usize,
    room: usize,
}

/// A walk has come to a block with too large a number.
pub struct Outgrown;

/// Where a walk stands.
#[verifier::ext_equal]
pub struct WalkState {
    pub stack: Seq<u32>,
    pub discovered: Set<u32>,
    pub finished: Set<u32>,
}

impl WalkState {
    /// The next step looks at no block from `bound` on.
    pub open spec fn stays_below(self, f: Flow, bound: int) -> bool {
        forall|n: u32| #[trigger] self.step(f).discovered.contains(n) ==> n < bound
    }

    /// Before the first step.
    pub open spec fn starting(start: u32) -> WalkState {
        WalkState { stack: seq![start], discovered: Set::empty(), finished: Set::empty() }
    }

    /// The next step over a graph.
    pub open spec fn step(self, f: Flow) -> WalkStep {
        walk_step(self.stack, self.discovered, self.finished, f.successor_lists())
    }

    /// After the next step over a graph.
    pub open spec fn after(self, f: Flow) -> WalkState {
        let step = self.step(f);
        WalkState {
            stack: step.stack,
            discovered: step.discovered,
            finished: step.finished,
        }
    }
}

/// How far a walk has come.
pub struct WalkView {
    /// The blocks it has still to look at, the next one last.
    pub stack: Seq<u32>,
    /// The blocks it has looked at.
    pub discovered: Set<u32>,
    /// The blocks it has handed out.
    pub finished: Set<u32>,
    /// The number that blocks must stay below.
    pub bound: usize,
}

impl View for Walk {
    type V = WalkView;

    closed spec fn view(&self) -> WalkView {
        WalkView {
            stack: walk_stack(self.order),
            discovered: walk_discovered(self.order),
            finished: walk_finished(self.order),
            bound: self.bound,
        }
    }
}

impl WalkView {
    pub open spec fn state(self) -> WalkState {
        WalkState { stack: self.stack, discovered: self.discovered, finished: self.finished }
    }

    /// What has been looked at so far in a graph that has not changed since the
    /// start.
    pub open spec fn explores(self, f: Flow, start: u32) -> bool {
        &&& self.stack.contains(start) || self.discovered.contains(start)
        &&& forall|n: u32| #[trigger] self.stack.contains(n) ==> f.reaches(start, n)
        &&& forall|n: u32| #[trigger] self.discovered.contains(n) ==> f.reaches(start, n)
        &&& forall|n: u32, m: u32| #[trigger]
            self.discovered.contains(n) && #[trigger] f.leads(n, m) ==> self.discovered.contains(m)
                || self.stack.contains(m)
    }
}

pub proof fn lemma_reaches_self(f: Flow, n: u32)
    ensures
        f.reaches(n, n),
{
    assert(f.is_path(seq![n], n, n));
}

pub proof fn lemma_reaches_step(f: Flow, a: u32, b: u32, c: u32)
    requires
        f.reaches(a, b),
        f.leads(b, c),
    ensures
        f.reaches(a, c),
{
    let path = choose|path: Seq<u32>| f.is_path(path, a, b);
    let long = path.push(c);
    assert forall|i: int| 0 <= i < long.len() - 1 implies f.leads(
        #[trigger] long[i],
        long[i + 1],
    ) by {
        if i < path.len() - 1 {
            assert(f.leads(path[i], path[i + 1]));
        }
    }
    assert(f.is_path(long, a, c));
}

pub proof fn lemma_reaches_join(f: Flow, a: u32, b: u32, c: u32)
    requires
        f.reaches(a, b),
        f.reaches(b, c),
    ensures
        f.reaches(a, c),
{
    let second = choose|path: Seq<u32>| f.is_path(path, b, c);
    lemma_reaches_along(f, a, second, b, c);
}

proof fn lemma_reaches_along(f: Flow, a: u32, path: Seq<u32>, b: u32, c: u32)
    requires
        f.reaches(a, b),
        f.is_path(path, b, c),
    ensures
        f.reaches(a, c),
    decreases path.len(),
{
    if path.len() > 1 {
        let front = path.drop_last();
        let last = front.last();
        assert forall|i: int| 0 <= i < front.len() - 1 implies f.leads(
            #[trigger] front[i],
            front[i + 1],
        ) by {
            assert(f.leads(path[i], path[i + 1]));
        }
        lemma_reaches_along(f, a, front, b, last);
        assert(f.leads(path[path.len() - 2], path[path.len() - 2 + 1]));
        lemma_reaches_step(f, a, last, c);
    }
}

pub proof fn lemma_closed(f: Flow, seen: Set<u32>, path: Seq<u32>, start: u32, n: u32)
    requires
        seen.contains(start),
        forall|a: u32, b: u32| #[trigger] seen.contains(a) && #[trigger] f.leads(a, b)
            ==> seen.contains(b),
        f.is_path(path, start, n),
    ensures
        seen.contains(n),
    decreases path.len(),
{
    if path.len() > 1 {
        let front = path.drop_last();
        let last = front.last();
        assert forall|i: int| 0 <= i < front.len() - 1 implies f.leads(
            #[trigger] front[i],
            front[i + 1],
        ) by {
            assert(f.leads(path[i], path[i + 1]));
        }
        lemma_closed(f, seen, front, start, last);
        assert(f.leads(path[path.len() - 2], path[path.len() - 2 + 1]));
    }
}

/// What can be reached from a block with a number in use has a number in use.
pub proof fn lemma_reaches_below(f: Flow, start: u32, n: u32)
    requires
        f.wf(),
        f.below_bound(start),
        f.reaches(start, n),
    ensures
        f.below_bound(n),
{
    let path = choose|path: Seq<u32>| f.is_path(path, start, n);
    if path.len() > 1 {
        let last = path.len() - 2;
        assert(f.leads(path[last], path[last + 1]));
        let e = choose|e: u32| #[trigger]
            f.edges.contains_key(e) && f.edges[e].source == path[last] && f.edges[e].target
                == path[last + 1];
        assert(f.has(n));
    }
}

/// The successors listed are those that edges lead to.
pub proof fn lemma_listed(f: Flow, a: u32, b: u32)
    requires
        f.wf(),
    ensures
        listed(f.successor_lists(), a).contains(b) <==> f.leads(a, b),
{
    let list = listed(f.successor_lists(), a);
    if list.contains(b) {
        let k = choose|k: int| 0 <= k < list.len() && list[k] == b;
        assert(f.out[a].contains(f.out[a][k]));
        let e = f.out[a][k];
        assert(f.edges.contains_key(e) && f.edges[e].source == a && f.edges[e].target == b);
    }
    if f.leads(a, b) {
        let e = choose|e: u32| #[trigger]
            f.edges.contains_key(e) && f.edges[e].source == a && f.edges[e].target == b;
        assert(f.has(a));
        assert(f.out[a].contains(e));
        let k = choose|k: int| 0 <= k < f.out[a].len() && f.out[a][k] == e;
        assert(list[k] == b);
    }
}

/// What is put behind a node that is looked at.
proof fn lemma_pushed(f: Flow, node: u32, seen: Set<u32>)
    requires
        f.wf(),
    ensures
        forall|m: u32| #[trigger]
            not_seen(listed(f.successor_lists(), node), seen).contains(m) <==> f.leads(node, m)
                && !seen.contains(m),
{
    let list = listed(f.successor_lists(), node);
    lemma_filter(list, |n: u32| !seen.contains(n));
    assert forall|m: u32| #[trigger] not_seen(list, seen).contains(m) <==> f.leads(node, m)
        && !seen.contains(m) by {
        lemma_listed(f, node, m);
    }
}

proof fn lemma_popped(stack: Seq<u32>)
    requires
        stack.len() > 0,
    ensures
        forall|n: u32| #[trigger]
            stack.contains(n) <==> stack.drop_last().contains(n) || n == stack.last(),
{
    assert(stack =~= stack.drop_last() + seq![stack.last()]);
    lemma_appended(stack.drop_last(), seq![stack.last()]);
    assert forall|n: u32| #[trigger] seq![stack.last()].contains(n) <==> n == stack.last() by {
        assert(seq![stack.last()][0] == stack.last());
    }
}

impl WalkState {
    /// What one step does, to whatever graph.
    pub open spec fn goes_on(self, f: Flow) -> bool {
        let step = self.step(f);
        &&& self.discovered.subset_of(step.discovered)
        &&& forall|n: u32| #[trigger]
            self.stack.contains(n) ==> step.discovered.contains(n) || step.stack.contains(n)
        &&& forall|n: u32| #[trigger]
            step.stack.contains(n) && !self.stack.contains(n) ==> exists|from: u32| #[trigger]
                step.discovered.contains(from) && !self.discovered.contains(from) && f.leads(
                    from,
                    n,
                )
        &&& (forall|n: u32| #[trigger]
            self.discovered.contains(n) ==> self.finished.contains(n) || self.stack.contains(n))
            ==> (forall|n: u32| #[trigger]
            step.discovered.contains(n) ==> step.finished.contains(n) || step.stack.contains(n))
        &&& forall|n: u32, m: u32| #[trigger]
            step.discovered.contains(n) && !self.discovered.contains(n) && #[trigger] f.leads(n, m)
                ==> step.discovered.contains(m) || step.stack.contains(m)
        &&& forall|n: u32| #[trigger]
            step.discovered.contains(n) && !self.discovered.contains(n) ==> exists|from: u32|
                #[trigger] self.stack.contains(from) && f.reaches(from, n)
        &&& match step.node {
            Some(n) => !self.finished.contains(n) && step.discovered.contains(n) && step.finished
                == self.finished.insert(n),
            None => step.finished == self.finished && step.stack == Seq::<u32>::empty(),
        }
    }

    /// With the last node looked at.
    spec fn looked(self, f: Flow) -> WalkState {
        let node = self.stack.last();
        let seen = self.discovered.insert(node);
        WalkState {
            stack: self.stack + not_seen(listed(f.successor_lists(), node), seen),
            discovered: seen,
            finished: self.finished,
        }
    }

    /// With the last node taken off.
    spec fn popped(self) -> WalkState {
        WalkState { stack: self.stack.drop_last(), ..self }
    }
}

proof fn lemma_goes_on_looked(walk: WalkState, f: Flow)
    requires
        f.wf(),
        walk.stack.len() > 0,
        !walk.discovered.contains(walk.stack.last()),
        walk.looked(f).goes_on(f),
    ensures
        walk.goes_on(f),
{
    let node = walk.stack.last();
    let next = walk.looked(f);
    let step = walk.step(f);
    assert(step == next.step(f));
    let pushed = not_seen(listed(f.successor_lists(), node), next.discovered);
    lemma_pushed(f, node, next.discovered);
    lemma_appended(walk.stack, pushed);
    assert(walk.stack.contains(node));
    assert(step.discovered.contains(node));
    assert forall|n: u32| #[trigger] step.stack.contains(n) && !walk.stack.contains(n) implies
        exists|from: u32| #[trigger]
        step.discovered.contains(from) && !walk.discovered.contains(from) && f.leads(from, n) by {
        if next.stack.contains(n) {
            assert(step.discovered.contains(node) && !walk.discovered.contains(node)
                && f.leads(node, n));
        } else {
            let from = choose|from: u32| #[trigger]
                step.discovered.contains(from) && !next.discovered.contains(from) && f.leads(
                    from,
                    n,
                );
            assert(step.discovered.contains(from) && !walk.discovered.contains(from));
        }
    }
    assert forall|n: u32, m: u32| #[trigger]
        step.discovered.contains(n) && !walk.discovered.contains(n) && #[trigger] f.leads(
            n,
            m,
        ) implies step.discovered.contains(m) || step.stack.contains(m) by {
        if n == node {
            if !next.discovered.contains(m) {
                assert(pushed.contains(m));
                assert(next.stack.contains(m));
            }
        }
    }
    assert forall|n: u32| #[trigger]
        step.discovered.contains(n) && !walk.discovered.contains(n) implies exists|from: u32|
            #[trigger] walk.stack.contains(from) && f.reaches(from, n) by {
        if n == node {
            lemma_reaches_self(f, node);
            assert(walk.stack.contains(node) && f.reaches(node, n));
        } else {
            let from = choose|from: u32| #[trigger]
                next.stack.contains(from) && f.reaches(from, n);
            if walk.stack.contains(from) {
                assert(walk.stack.contains(from) && f.reaches(from, n));
            } else {
                lemma_reaches_self(f, node);
                lemma_reaches_step(f, node, node, from);
                lemma_reaches_join(f, node, from, n);
                assert(walk.stack.contains(node) && f.reaches(node, n));
            }
        }
    }
    if forall|n: u32| #[trigger]
        walk.discovered.contains(n) ==> walk.finished.contains(n) || walk.stack.contains(n) {
        assert forall|n: u32| #[trigger] next.discovered.contains(n) implies
            next.finished.contains(n) || next.stack.contains(n) by {
            if n != node {
                assert(walk.discovered.contains(n));
            }
        }
    }
    assert forall|n: u32| #[trigger] walk.stack.contains(n) implies step.discovered.contains(n)
        || step.stack.contains(n) by {
        assert(next.stack.contains(n));
    }
    assert(walk.discovered.subset_of(step.discovered));
}

proof fn lemma_goes_on_popped(walk: WalkState, f: Flow)
    requires
        walk.stack.len() > 0,
        walk.discovered.contains(walk.stack.last()),
        walk.finished.contains(walk.stack.last()),
        walk.popped().goes_on(f),
    ensures
        walk.goes_on(f),
{
    let next = walk.popped();
    let step = walk.step(f);
    assert(step == next.step(f));
    lemma_popped(walk.stack);
    assert forall|n: u32| #[trigger]
        step.discovered.contains(n) && !walk.discovered.contains(n) implies exists|from: u32|
            #[trigger] walk.stack.contains(from) && f.reaches(from, n) by {
        let from = choose|from: u32| #[trigger] next.stack.contains(from) && f.reaches(from, n);
        assert(walk.stack.contains(from) && f.reaches(from, n));
    }
}

/// Every step goes on.
pub proof fn lemma_goes_on(walk: WalkState, f: Flow)
    requires
        f.wf(),
    ensures
        walk.goes_on(f),
    decreases unseen(walk.discovered).len(), walk.stack.len(),
{
    let node = walk.stack.last();
    if walk.stack.len() == 0 {
        assert(walk.stack =~= Seq::<u32>::empty());
    } else if !walk.discovered.contains(node) {
        lemma_unseen(walk.discovered, node);
        lemma_goes_on(walk.looked(f), f);
        lemma_goes_on_looked(walk, f);
    } else if walk.finished.contains(node) {
        lemma_goes_on(walk.popped(), f);
        lemma_goes_on_popped(walk, f);
    } else {
        lemma_popped(walk.stack);
    }
}

/// The node at `i` does not come again further up.
spec fn topmost(stack: Seq<u32>, i: int) -> bool {
    forall|k: int| i < k < stack.len() ==> stack[k] != stack[i]
}

/// Where a node is on the stack, it has a topmost place.
proof fn lemma_topmost(stack: Seq<u32>, node: u32) -> (i: int)
    requires
        stack.contains(node),
    ensures
        0 <= i < stack.len(),
        stack[i] == node,
        topmost(stack, i),
    decreases stack.len(),
{
    if stack.last() == node {
        stack.len() - 1
    } else {
        lemma_popped(stack);
        let i = lemma_topmost(stack.drop_last(), node);
        assert forall|k: int| i < k < stack.len() implies stack[k] != stack[i] by {
            if k < stack.len() - 1 {
                assert(stack[k] == stack.drop_last()[k]);
            }
        }
        i
    }
}

impl WalkState {
    /// A node that has been looked at and not been handed out.
    spec fn open_at(self, i: int) -> bool {
        &&& 0 <= i < self.stack.len()
        &&& self.discovered.contains(self.stack[i])
        &&& !self.finished.contains(self.stack[i])
        &&& topmost(self.stack, i)
    }

    /// What holds of a walk over a graph that has not changed since the start: what
    /// lies above a node on the stack can be reached from it, and its successors
    /// have been looked at or lie above it.
    pub closed spec fn orderly(self, f: Flow) -> bool {
        &&& self.finished.subset_of(self.discovered)
        &&& forall|n: u32| #[trigger]
            self.discovered.contains(n) ==> self.finished.contains(n) || self.stack.contains(n)
        &&& forall|i: int, j: int| #[trigger]
            self.open_at(i) && i < j < self.stack.len() ==> f.reaches(
                self.stack[i],
                #[trigger] self.stack[j],
            )
        &&& forall|i: int, m: u32| #[trigger]
            self.open_at(i) && #[trigger] f.leads(self.stack[i], m) ==> self.discovered.contains(m)
                || self.lies_above(i, m)
        &&& forall|n: u32, m: u32| #[trigger]
            self.finished.contains(n) && #[trigger] f.leads(n, m) ==> self.discovered.contains(m)
    }

    spec fn lies_above(self, i: int, m: u32) -> bool {
        exists|k: int| i < k < self.stack.len() && #[trigger] self.stack[k] == m
    }
}

pub proof fn lemma_orderly_start(f: Flow, start: u32)
    ensures
        WalkState::starting(start).orderly(f),
{
}

proof fn lemma_orderly_looked(walk: WalkState, f: Flow)
    requires
        f.wf(),
        walk.orderly(f),
        walk.stack.len() > 0,
        !walk.discovered.contains(walk.stack.last()),
    ensures
        walk.looked(f).orderly(f),
{
    let node = walk.stack.last();
    let top = walk.stack.len() - 1;
    let next = walk.looked(f);
    let pushed = not_seen(listed(f.successor_lists(), node), next.discovered);
    lemma_pushed(f, node, next.discovered);
    lemma_appended(walk.stack, pushed);
    assert(walk.stack.contains(node));
    assert(next.stack[top] == node);
    assert forall|i: int| #[trigger] next.open_at(i) && i != top implies walk.open_at(i) by {
        if i > top {
            assert(next.stack[i] == pushed[i - walk.stack.len()]);
            assert(pushed.contains(next.stack[i]));
        } else {
            assert(next.stack[i] == walk.stack[i]);
            assert(next.stack[top] != next.stack[i]);
            assert forall|k: int| i < k < walk.stack.len() implies walk.stack[k]
                != walk.stack[i] by {
                assert(next.stack[k] == walk.stack[k]);
            }
        }
    }
    assert forall|i: int, j: int| #[trigger]
        next.open_at(i) && i < j < next.stack.len() implies f.reaches(
        next.stack[i],
        #[trigger] next.stack[j],
    ) by {
        lemma_reaches_self(f, node);
        if j > top {
            assert(next.stack[j] == pushed[j - walk.stack.len()]);
            assert(pushed.contains(next.stack[j]));
            if i != top {
                assert(walk.open_at(i));
                assert(f.reaches(walk.stack[i], walk.stack[top]));
            }
            lemma_reaches_step(f, next.stack[i], node, next.stack[j]);
        } else {
            assert(walk.open_at(i));
            assert(next.stack[j] == walk.stack[j]);
            assert(f.reaches(walk.stack[i], walk.stack[j]));
        }
    }
    assert forall|i: int, m: u32| #[trigger]
        next.open_at(i) && #[trigger] f.leads(next.stack[i], m) implies next.discovered.contains(m)
        || next.lies_above(i, m) by {
        if i == top {
            if !next.discovered.contains(m) {
                assert(pushed.contains(m));
                let k = choose|k: int| 0 <= k < pushed.len() && pushed[k] == m;
                assert(next.stack[walk.stack.len() + k] == m);
            }
        } else {
            assert(walk.open_at(i));
            if !walk.discovered.contains(m) {
                assert(walk.lies_above(i, m));
                let k = choose|k: int| i < k < walk.stack.len() && #[trigger] walk.stack[k] == m;
                assert(next.stack[k] == m);
            }
        }
    }
    assert forall|n: u32| #[trigger] next.discovered.contains(n) implies next.finished.contains(n)
        || next.stack.contains(n) by {
        if n != node {
            assert(walk.discovered.contains(n));
        }
    }
}

proof fn lemma_orderly_popped(walk: WalkState, f: Flow, finished: Set<u32>)
    requires
        walk.orderly(f),
        walk.stack.len() > 0,
        walk.discovered.contains(walk.stack.last()),
        finished == walk.finished.insert(walk.stack.last()),
    ensures
        (WalkState { stack: walk.stack.drop_last(), finished, ..walk }).orderly(f),
{
    let node = walk.stack.last();
    let top = walk.stack.len() - 1;
    let next = WalkState { stack: walk.stack.drop_last(), finished, ..walk };
    lemma_popped(walk.stack);
    assert forall|i: int| #[trigger] next.open_at(i) implies walk.open_at(i) by {
        assert(next.stack[i] == walk.stack[i]);
        assert forall|k: int| i < k < walk.stack.len() implies walk.stack[k] != walk.stack[i] by {
            if k < top {
                assert(next.stack[k] == walk.stack[k]);
            }
        }
    }
    assert forall|i: int, j: int| #[trigger]
        next.open_at(i) && i < j < next.stack.len() implies f.reaches(
        next.stack[i],
        #[trigger] next.stack[j],
    ) by {
        assert(walk.open_at(i));
        assert(f.reaches(walk.stack[i], walk.stack[j]));
    }
    assert forall|i: int, m: u32| #[trigger]
        next.open_at(i) && #[trigger] f.leads(next.stack[i], m) implies next.discovered.contains(m)
        || next.lies_above(i, m) by {
        assert(walk.open_at(i));
        if !walk.discovered.contains(m) {
            assert(walk.lies_above(i, m));
            let k = choose|k: int| i < k < walk.stack.len() && #[trigger] walk.stack[k] == m;
            assert(next.stack[k] == m);
        }
    }
    assert forall|n: u32, m: u32| #[trigger]
        next.finished.contains(n) && #[trigger] f.leads(n, m) implies next.discovered.contains(
        m,
    ) by {
        if !walk.finished.contains(n) {
            assert(walk.open_at(top));
            if !walk.discovered.contains(m) {
                assert(walk.lies_above(top, m));
            }
        }
    }
}

/// A step over a graph that has not changed keeps order, and what it hands out has
/// only successors that have been handed out or that lead back to it.
pub proof fn lemma_orderly_step(walk: WalkState, f: Flow)
    requires
        f.wf(),
        walk.orderly(f),
    ensures
        walk.after(f).orderly(f),
        walk.step(f).node matches Some(n) ==> {
            &&& forall|m: u32| #[trigger]
                f.leads(n, m) ==> walk.finished.contains(m) || f.reaches(m, n)
            &&& forall|m: u32| #[trigger]
                walk.step(f).discovered.contains(m) && !walk.finished.contains(m) ==> f.reaches(
                    m,
                    n,
                )
        },
    decreases unseen(walk.discovered).len(), walk.stack.len(),
{
    let node = walk.stack.last();
    if walk.stack.len() == 0 {
        assert(walk.after(f) =~= walk);
    } else if !walk.discovered.contains(node) {
        lemma_unseen(walk.discovered, node);
        lemma_orderly_looked(walk, f);
        lemma_orderly_step(walk.looked(f), f);
        assert(walk.step(f) == walk.looked(f).step(f));
    } else if walk.finished.contains(node) {
        assert(walk.finished =~= walk.finished.insert(node));
        lemma_orderly_popped(walk, f, walk.finished);
        lemma_orderly_step(walk.popped(), f);
        assert(walk.step(f) == walk.popped().step(f));
    } else {
        let top = walk.stack.len() - 1;
        lemma_orderly_popped(walk, f, walk.finished.insert(node));
        assert(walk.open_at(top));
        assert forall|m: u32| #[trigger]
            walk.discovered.contains(m) && !walk.finished.contains(m) implies f.reaches(
            m,
            node,
        ) by {
            if m == node {
                lemma_reaches_self(f, node);
            } else {
                let i = lemma_topmost(walk.stack, m);
                assert(walk.open_at(i));
                assert(f.reaches(walk.stack[i], walk.stack[top]));
            }
        }
        assert forall|m: u32| #[trigger] f.leads(node, m) implies walk.finished.contains(m)
            || f.reaches(m, node) by {
            if !walk.discovered.contains(m) {
                assert(walk.lies_above(top, m));
            }
        }
    }
}

/// The state of a walk over a graph after so many steps.
pub open spec fn walked(f: Flow, start: u32, steps: nat) -> WalkState
    decreases steps,
{
    if steps == 0 {
        WalkState::starting(start)
    } else {
        walked(f, start, (steps - 1) as nat).after(f)
    }
}

proof fn lemma_walked_orderly(f: Flow, start: u32, steps: nat)
    requires
        f.wf(),
    ensures
        walked(f, start, steps).orderly(f),
    decreases steps,
{
    if steps == 0 {
        lemma_orderly_start(f, start);
    } else {
        lemma_walked_orderly(f, start, (steps - 1) as nat);
        lemma_orderly_step(walked(f, start, (steps - 1) as nat), f);
    }
}

/// Two nodes that can be reached from each other lie on a cycle.
proof fn lemma_mutual(f: Flow, a: u32, b: u32)
    requires
        f.reaches(a, b),
        f.reaches(b, a),
        a != b,
    ensures
        f.on_cycle(a),
{
    let path = choose|path: Seq<u32>| f.is_path(path, b, a);
    let front = path.drop_last();
    let last = front.last();
    assert(path.len() > 1);
    assert forall|i: int| 0 <= i < front.len() - 1 implies f.leads(
        #[trigger] front[i],
        front[i + 1],
    ) by {
        assert(f.leads(path[i], path[i + 1]));
    }
    assert(f.is_path(front, b, last));
    assert(f.leads(path[path.len() - 2], path[path.len() - 2 + 1]));
    lemma_reaches_join(f, a, b, last);
    assert(f.leads(last, a) && f.reaches(a, last));
}

/// A walk over a graph that does not change hands out each node after its
/// successors, but for those that lead back to it.
pub proof fn successors_are_handed_out_first(f: Flow, start: u32, steps: nat, n: u32, m: u32)
    requires
        f.wf(),
        walked(f, start, steps).step(f).node == Some(n),
        f.leads(n, m),
    ensures
        walked(f, start, steps).finished.contains(m) || f.reaches(m, n),
{
    let walk = walked(f, start, steps);
    lemma_walked_orderly(f, start, steps);
    lemma_orderly_step(walk, f);
    assert(f.leads(walk.step(f).node->0, m));
}

/// A walk over a graph that does not change hands out a node on no cycle after all
/// that can be reached from it.
pub proof fn what_is_reached_is_handed_out_first(f: Flow, start: u32, steps: nat, n: u32, m: u32)
    requires
        f.wf(),
        walked(f, start, steps).step(f).node == Some(n),
        !f.on_cycle(n),
        f.reaches(n, m),
        m != n,
    ensures
        walked(f, start, steps).finished.contains(m),
{
    lemma_walked_orderly(f, start, steps);
    lemma_orderly_step(walked(f, start, steps), f);
    lemma_goes_on(walked(f, start, steps), f);
    let path = choose|path: Seq<u32>| f.is_path(path, n, m);
    lemma_handed_out_along(f, walked(f, start, steps), n, path, path.len() - 1);
}

proof fn lemma_handed_out_along(f: Flow, walk: WalkState, n: u32, path: Seq<u32>, i: int)
    requires
        f.wf(),
        walk.orderly(f),
        walk.goes_on(f),
        walk.step(f).node == Some(n),
        forall|m: u32| #[trigger]
            f.leads(n, m) ==> walk.finished.contains(m) || f.reaches(m, n),
        forall|m: u32| #[trigger]
            walk.step(f).discovered.contains(m) && !walk.finished.contains(m) ==> f.reaches(m, n),
        !f.on_cycle(n),
        f.is_path(path, n, path.last()),
        0 <= i < path.len(),
    ensures
        path[i] == n || walk.finished.contains(path[i]),
        f.reaches(n, path[i]),
    decreases i,
{
    if i == 0 {
        lemma_reaches_self(f, n);
    } else {
        lemma_handed_out_along(f, walk, n, path, i - 1);
        assert(f.leads(path[i - 1], path[i - 1 + 1]));
        lemma_reaches_step(f, n, path[i - 1], path[i]);
        if path[i] != n && !walk.finished.contains(path[i]) {
            if path[i - 1] != n {
                assert(walk.discovered.contains(path[i]));
            }
            lemma_mutual(f, n, path[i]);
        }
    }
}

/// A walk over a graph that has not changed hands out what can be reached.
pub proof fn lemma_walk_covers(walk: WalkView, f: Flow, start: u32)
    requires
        walk.explores(f, start),
        walk.stack == Seq::<u32>::empty(),
        walk.discovered == walk.finished,
    ensures
        forall|n: u32| #[trigger] walk.finished.contains(n) <==> f.reaches(start, n),
{
    assert forall|n: u32| #[trigger] walk.finished.contains(n) <==> f.reaches(start, n) by {
        if f.reaches(start, n) {
            let path = choose|path: Seq<u32>| f.is_path(path, start, n);
            lemma_closed(f, walk.discovered, path, start, n);
        }
    }
}

impl Walk {
    /// Holds of every walk that has been started.
    pub closed spec fn wf(self) -> bool {
        &&& walk_capacity(self.order) == self.room
        &&& self.bound <= self.room <= u32::MAX
        &&& forall|n: u32| #[trigger] self@.stack.contains(n) ==> n < walk_capacity(self.order)
        &&& forall|n: u32| #[trigger]
            self@.discovered.contains(n) ==> self@.finished.contains(n) || self@.stack.contains(n)
        &&& self@.finished.subset_of(self@.discovered)
        &&& forall|n: u32| #[trigger] self@.discovered.contains(n) ==> n < self.bound
        &&& self@.finished.finite()
    }

    /// A walk hands out no more blocks than there are numbers for.
    pub proof fn lemma_bounded(&self)
        requires
            self.wf(),
        ensures
            self@.finished.finite(),
            self@.finished.len() <= self@.bound,
    {
        let all = Set::<u32>::range(0, self.bound as u32);
        vstd::set_lib::range_set_properties::<u32>(0, self.bound as u32);
        assert forall|n: u32| self@.finished.contains(n) implies all.contains(n) by {
            assert(self@.discovered.contains(n));
        }
        assert(self@.finished.subset_of(all));
        vstd::set_lib::lemma_len_subset(self@.finished, all);
    }

    /// Starts a walk.
    pub fn new(function: &Function, start: u32) -> (walk: Self)
        requires
            function@.flow.below_bound(start),
        ensures
            walk.wf(),
            forall|n: u32| n < walk@.bound <==> #[trigger] function@.flow.below_bound(n),
            walk@.state() == WalkState::starting(start),
            walk@.explores(function@.flow, start),
    {
        let ghost f = function@.flow;
        let bound = function.node_bound();
        let order = function.start_walk(start);
        let walk = Walk { order, bound, room: bound };
        proof {
            let capacity = walk_capacity(order);
            if capacity < bound {
                assert(!f.below_bound(capacity as u32));
                assert((capacity as u32) < bound);
            }
            if bound < capacity {
                assert(!f.below_bound(bound as u32));
                assert((bound as u32) < capacity);
            }
            assert(start < capacity);
            lemma_reaches_self(f, start);
            assert(walk@.stack[0] == start);
        }
        walk
    }

    /// The next block, or nothing at the end.  Fails where that takes a look at a
    /// block with a number that there was none of when the walk was started.
    pub fn next(&mut self, function: &Function) -> (result: Result<Option<u32>, Outgrown>)
        requires
            old(self).wf(),
        ensures
            result is Ok <==> old(self)@.state().stays_below(
                function@.flow,
                old(self)@.bound as int,
            ),
            final(self)@.bound == old(self)@.bound,
            final(self)@.state() == old(self)@.state().after(function@.flow),
            forall|start: u32| #[trigger]
                old(self)@.explores(function@.flow, start) ==> final(self)@.explores(
                    function@.flow,
                    start,
                ),
            result matches Ok(node) ==> {
                &&& final(self).wf()
                &&& node == old(self)@.state().step(function@.flow).node
                &&& match node {
                    Some(n) => {
                        &&& !old(self)@.finished.contains(n)
                        &&& n < old(self)@.bound
                        &&& final(self)@.finished == old(self)@.finished.insert(n)
                    },
                    None => {
                        &&& final(self)@.finished == old(self)@.finished
                        &&& final(self)@.stack == Seq::<u32>::empty()
                        &&& final(self)@.discovered == final(self)@.finished
                    },
                }
            },
    {
        let ghost f = function@.flow;
        let ghost before = self@;
        proof {
            use_type_invariant(function);
        }
        let room = function.node_bound();
        crate::flow::grow_walk(&mut self.order, room);
        if room > self.room {
            self.room = room;
        }
        proof {
            assert(self@ == before);
            assert forall|n: u32| #[trigger] f.arrives(n) implies n < walk_capacity(self.order) by {
                let e = choose|e: u32| #[trigger]
                    f.edges.contains_key(e) && f.edges[e].target == n;
                assert(f.has(n));
                assert(f.below_bound(n));
            }
            assert forall|n: u32| #[trigger] walk_stack(self.order).contains(n) implies n
                < walk_capacity(self.order) by {
                assert(before.stack.contains(n));
            }
            lemma_goes_on(before.state(), f);
        }
        let node = crate::flow::next_in_walk(function.graph(), &mut self.order);
        let ghost after = self@;
        proof {
            assert(after.state() == before.state().after(f));
            assert forall|start: u32| #[trigger] before.explores(f, start) implies after.explores(
                f,
                start,
            ) by {
                assert forall|n: u32| #[trigger] after.discovered.contains(n) implies f.reaches(
                    start,
                    n,
                ) by {
                    if !before.discovered.contains(n) {
                        let from = choose|from: u32| #[trigger]
                            before.stack.contains(from) && f.reaches(from, n);
                        lemma_reaches_join(f, start, from, n);
                    }
                }
                assert forall|n: u32| #[trigger] after.stack.contains(n) implies f.reaches(
                    start,
                    n,
                ) by {
                    if !before.stack.contains(n) {
                        let from = choose|from: u32| #[trigger]
                            after.discovered.contains(from) && !before.discovered.contains(from)
                                && f.leads(from, n);
                        lemma_reaches_step(f, start, from, n);
                    }
                }
            }
            assert forall|n: u32| #[trigger] after.stack.contains(n) implies n < walk_capacity(
                self.order,
            ) by {
                if !before.stack.contains(n) {
                    let from = choose|from: u32| #[trigger]
                        after.discovered.contains(from) && !before.discovered.contains(from)
                            && f.leads(from, n);
                    let e = choose|e: u32| #[trigger]
                        f.edges.contains_key(e) && f.edges[e].source == from && f.edges[e].target
                            == n;
                    assert(f.arrives(n));
                }
            }
            if node is None {
                assert(after.discovered =~= after.finished);
            }
            assert forall|n: u32| #[trigger] after.discovered.contains(n) implies n < self.room by {
                if !before.discovered.contains(n) {
                    let from = choose|from: u32| #[trigger]
                        before.stack.contains(from) && f.reaches(from, n);
                    let path = choose|path: Seq<u32>| f.is_path(path, from, n);
                    if path.len() > 1 {
                        let last = path.len() - 2;
                        assert(f.leads(path[last], path[last + 1]));
                        let e = choose|e: u32| #[trigger]
                            f.edges.contains_key(e) && f.edges[e].source == path[last]
                                && f.edges[e].target == path[last + 1];
                        assert(f.arrives(n));
                    }
                }
            }
        }
        let first = self.bound;
        for n in first..self.room
            invariant
                first == self.bound,
                self.room <= u32::MAX,
                self@ == after,
                after.state() == before.state().after(f),
                f == function@.flow,
                before == old(self)@,
                before.bound == self.bound,
                forall|start: u32| #[trigger]
                    before.explores(f, start) ==> after.explores(f, start),
                forall|m: u32| first <= m < n ==> !#[trigger] after.discovered.contains(m),
        {
            if crate::flow::is_discovered(&self.order, n as u32) {
                assert(before.state().step(f).discovered.contains(n as u32));
                return Err(Outgrown);
            }
        }
        Ok(node)
    }
}

/// A step of a walk hands out what it should, and the walk goes on from there.
pub proof fn walks_go_on_from_their_steps(walk: WalkState, f: Flow)
    ensures
        walk.step(f) == walk_step(
            walk.stack,
            walk.discovered,
            walk.finished,
            f.successor_lists(),
        ),
        walk.after(f).stack == walk.step(f).stack,
        walk.after(f).discovered == walk.step(f).discovered,
        walk.after(f).finished == walk.step(f).finished,
{
}

/// A walk outgrows its start where a step looks at a number from the bound on.
pub proof fn walks_stay_below_their_bound(walk: WalkState, f: Flow, bound: int)
    ensures
        walk.stays_below(f, bound) <==> forall|n: u32| #[trigger]
            walk_step(
                walk.stack,
                walk.discovered,
                walk.finished,
                f.successor_lists(),
            ).discovered.contains(n) ==> n < bound,
{
}

} // verus!
