//! What a depth-first search tells of a graph.

use vstd::prelude::*;

use crate::flow::{lemma_unseen, listed, unseen, Flow, SearchEvent};
use crate::lists::{lemma_appended, lemma_push_one};
use crate::walk::{lemma_closed, lemma_listed, lemma_reaches_self, lemma_reaches_step};

verus! {

/// A node that a search is on the way from.
pub struct Opened {
    pub node: u32,
    /// The successors that it has still to look at, the next one first.
    pub left: Seq<u32>,
}

/// How far a search has come.
pub struct SearchState {
    /// The nodes that it is on the way from, each behind the one that led to it.
    pub open: Seq<Opened>,
    pub discovered: Set<u32>,
    pub finished: Set<u32>,
    /// What it has told.
    pub events: Seq<SearchEvent>,
}

/// What a search has still to look at before it is through with the open nodes.
pub open spec fn to_do(open: Seq<Opened>) -> nat
    decreases open.len(),
{
    if open.len() == 0 {
        0
    } else {
        to_do(open.drop_last()) + 1 + open.last().left.len()
    }
}

impl SearchState {
    /// A search that has just come upon its start.
    pub open spec fn starting(successors: Map<u32, Seq<u32>>, start: u32) -> SearchState {
        SearchState {
            open: seq![Opened { node: start, left: listed(successors, start) }],
            discovered: set![start],
            finished: Set::empty(),
            events: seq![SearchEvent::Discover(start)],
        }
    }

    /// The last open node has no successor left: it is finished.
    pub open spec fn popped(self) -> SearchState {
        let node = self.open.last().node;
        SearchState {
            open: self.open.drop_last(),
            finished: self.finished.insert(node),
            events: self.events.push(SearchEvent::Finish(node)),
            ..self
        }
    }

    /// The next successor of the last open node is passed over with this event.
    pub open spec fn passed(self, event: SearchEvent) -> SearchState {
        let last = self.open.last();
        let rest = Opened { left: last.left.skip(1), ..last };
        SearchState {
            open: self.open.drop_last().push(rest),
            events: self.events.push(event),
            ..self
        }
    }

    /// The node is come upon for the first time.
    pub open spec fn entered(self, successors: Map<u32, Seq<u32>>, node: u32) -> SearchState {
        SearchState {
            open: self.open.push(Opened { node, left: listed(successors, node) }),
            discovered: self.discovered.insert(node),
            events: self.events.push(SearchEvent::Discover(node)),
            ..self
        }
    }

    /// One step: the last open node is finished, or its next successor looked at.
    pub open spec fn step(self, successors: Map<u32, Seq<u32>>) -> SearchState {
        let last = self.open.last();
        let next = last.left[0];
        if last.left.len() == 0 {
            self.popped()
        } else if !self.discovered.contains(next) {
            self.passed(SearchEvent::TreeEdge(last.node, next)).entered(successors, next)
        } else if !self.finished.contains(next) {
            self.passed(SearchEvent::BackEdge(last.node, next))
        } else {
            self.passed(SearchEvent::CrossForwardEdge(last.node, next))
        }
    }

    /// What is told in the end.
    pub open spec fn told(self, successors: Map<u32, Seq<u32>>) -> Seq<SearchEvent>
        decreases unseen(self.discovered).len(), to_do(self.open),
    {
        if self.open.len() == 0 {
            self.events
        } else {
            proof {
                lemma_less_to_do(self, successors);
            }
            self.step(successors).told(successors)
        }
    }
}

/// What a depth-first search tells which starts at `start` and takes the
/// successors of each node in the order listed.
pub open spec fn search_events(
    successors: Map<u32, Seq<u32>>,
    start: u32,
) -> Seq<SearchEvent> {
    SearchState::starting(successors, start).told(successors)
}

/// A step leaves fewer nodes to come upon, or less to look at.
pub proof fn lemma_less_to_do(state: SearchState, successors: Map<u32, Seq<u32>>)
    requires
        state.open.len() > 0,
    ensures
        unseen(state.step(successors).discovered).len() < unseen(state.discovered).len() || (
        state.step(successors).discovered == state.discovered && to_do(
            state.step(successors).open,
        ) < to_do(state.open)),
{
    let last = state.open.last();
    if last.left.len() > 0 {
        lemma_unseen(state.discovered, last.left[0]);
        let rest = Opened { left: last.left.skip(1), ..last };
        assert(state.open.drop_last().push(rest).drop_last() =~= state.open.drop_last());
    }
}

/// An edge from `a` to `b` is told, and not as a back edge.
pub open spec fn goes_down(events: Seq<SearchEvent>, a: u32, b: u32) -> bool {
    events.contains(SearchEvent::TreeEdge(a, b)) || events.contains(
        SearchEvent::CrossForwardEdge(a, b),
    )
}

/// An edge from `a` to `b` is told.
pub open spec fn is_told(events: Seq<SearchEvent>, a: u32, b: u32) -> bool {
    events.contains(SearchEvent::BackEdge(a, b)) || goes_down(events, a, b)
}

/// `a` is finished before `b`.
pub open spec fn finishes_before(events: Seq<SearchEvent>, a: u32, b: u32) -> bool {
    exists|i: int, j: int|
        0 <= i < j < events.len() && #[trigger] events[i] == SearchEvent::Finish(a)
            && #[trigger] events[j] == SearchEvent::Finish(b)
}

/// The path follows edges that are told, and not as back edges.
pub open spec fn is_way_down(events: Seq<SearchEvent>, path: Seq<u32>, a: u32, b: u32) -> bool {
    &&& path.len() > 0
    &&& path.first() == a
    &&& path.last() == b
    &&& forall|i: int|
        0 <= i < path.len() - 1 ==> goes_down(events, #[trigger] path[i], path[i + 1])
}

/// There is such a path.
pub open spec fn leads_down(events: Seq<SearchEvent>, a: u32, b: u32) -> bool {
    exists|path: Seq<u32>| is_way_down(events, path, a, b)
}

/// No node is finished twice.
pub open spec fn finishes_once(events: Seq<SearchEvent>) -> bool {
    forall|i: int, j: int|
        0 <= i < events.len() && 0 <= j < events.len() && (#[trigger] events[i]) is Finish
            && events[i] == #[trigger] events[j] ==> i == j
}

/// What a search from `start` tells of a graph: the nodes that can be reached are
/// finished, each once, and every edge out of one of them is told.  Each but `start`
/// has a tree edge to it.  The source of a back edge can be reached from its target
/// without back edges, and is finished no later.  The target of another edge is
/// finished before its source.
pub open spec fn searches(f: Flow, start: u32, events: Seq<SearchEvent>) -> bool {
    &&& forall|n: u32| #[trigger]
        events.contains(SearchEvent::Finish(n)) <==> f.reaches(start, n)
    &&& finishes_once(events)
    &&& forall|a: u32, b: u32| #[trigger]
        is_told(events, a, b) <==> f.leads(a, b) && f.reaches(start, a)
    &&& forall|n: u32| #[trigger]
        f.reaches(start, n) && n != start ==> exists|a: u32| #[trigger]
            events.contains(SearchEvent::TreeEdge(a, n))
    &&& forall|a: u32, b: u32| #[trigger]
        events.contains(SearchEvent::BackEdge(a, b)) ==> leads_down(events, b, a) && (a == b
            || finishes_before(events, a, b))
    &&& forall|a: u32, b: u32| #[trigger] goes_down(events, a, b) ==> finishes_before(events, b, a)
}

impl SearchState {
    spec fn is_open(self, n: u32) -> bool {
        exists|i: int| 0 <= i < self.open.len() && (#[trigger] self.open[i]).node == n
    }

    /// Both are open, and `b` has been come upon from `a`.
    spec fn above(self, a: u32, b: u32) -> bool {
        exists|i: int, j: int|
            0 <= i < j < self.open.len() && (#[trigger] self.open[i]).node == a && (
            #[trigger] self.open[j]).node == b
    }

    /// What has been come upon is open or finished.
    spec fn is_tidy(self) -> bool {
        &&& forall|n: u32| #[trigger]
            self.discovered.contains(n) <==> self.finished.contains(n) || self.is_open(n)
        &&& forall|n: u32| #[trigger] self.is_open(n) ==> !self.finished.contains(n)
        &&& forall|i: int, j: int|
            0 <= i < j < self.open.len() ==> (#[trigger] self.open[i]).node != (
            #[trigger] self.open[j]).node
    }

    /// What has been come upon can be reached, and tree edges tell how.
    spec fn is_rooted(self, f: Flow, start: u32) -> bool {
        &&& self.discovered.contains(start)
        &&& forall|n: u32| #[trigger] self.discovered.contains(n) ==> f.reaches(start, n)
        &&& forall|n: u32| #[trigger]
            self.discovered.contains(n) && n != start ==> exists|a: u32| #[trigger]
                self.events.contains(SearchEvent::TreeEdge(a, n))
        &&& forall|i: int, j: int|
            0 <= i < self.open.len() - 1 && j == i + 1 ==> self.events.contains(
                SearchEvent::TreeEdge(
                    (#[trigger] self.open[i]).node,
                    (#[trigger] self.open[j]).node,
                ),
            )
    }

    /// The edges told are those that have been looked at.
    spec fn is_thorough(self, f: Flow) -> bool {
        &&& forall|a: u32, b: u32| #[trigger]
            is_told(self.events, a, b) ==> f.leads(a, b) && self.discovered.contains(a)
                && self.discovered.contains(b)
        &&& forall|a: u32, b: u32| #[trigger]
            f.leads(a, b) && self.finished.contains(a) ==> is_told(self.events, a, b)
        &&& forall|i: int, b: u32|
            0 <= i < self.open.len() && #[trigger] f.leads((#[trigger] self.open[i]).node, b)
                ==> self.open[i].left.contains(b) || is_told(self.events, self.open[i].node, b)
        &&& forall|i: int, b: u32|
            0 <= i < self.open.len() && (#[trigger] self.open[i]).left.contains(b)
                ==> #[trigger] f.leads(self.open[i].node, b)
    }

    /// Nodes are finished in order.
    spec fn is_ordered(self) -> bool {
        &&& forall|n: u32| #[trigger]
            self.events.contains(SearchEvent::Finish(n)) <==> self.finished.contains(n)
        &&& finishes_once(self.events)
        &&& forall|a: u32, b: u32| #[trigger]
            goes_down(self.events, a, b) && self.finished.contains(a) ==> finishes_before(
                self.events,
                b,
                a,
            )
        &&& forall|a: u32, b: u32| #[trigger]
            goes_down(self.events, a, b) && self.is_open(a) ==> self.finished.contains(b)
                || self.above(a, b)
    }

    /// The targets of back edges are finished after the sources.
    spec fn is_backed(self) -> bool {
        &&& forall|a: u32, b: u32| #[trigger]
            self.events.contains(SearchEvent::BackEdge(a, b)) && self.finished.contains(b) ==> a
                == b || finishes_before(self.events, a, b)
        &&& forall|a: u32, b: u32| #[trigger]
            self.events.contains(SearchEvent::BackEdge(a, b)) && self.is_open(b)
                ==> self.finished.contains(a) || a == b || self.above(b, a)
        &&& forall|a: u32, b: u32| #[trigger]
            self.events.contains(SearchEvent::BackEdge(a, b)) ==> leads_down(self.events, b, a)
    }

    spec fn is_sound(self, f: Flow, start: u32) -> bool {
        &&& self.is_tidy()
        &&& self.is_rooted(f, start)
        &&& self.is_thorough(f)
        &&& self.is_ordered()
        &&& self.is_backed()
    }
}

/// What has been told stays told.
proof fn lemma_told_more(events: Seq<SearchEvent>, event: SearchEvent)
    ensures
        forall|e: SearchEvent| #[trigger]
            events.push(event).contains(e) <==> events.contains(e) || e == event,
        forall|a: u32, b: u32| #[trigger]
            finishes_before(events, a, b) ==> finishes_before(events.push(event), a, b),
        forall|a: u32, b: u32| #[trigger]
            leads_down(events, a, b) ==> leads_down(events.push(event), a, b),
        event is Finish && !events.contains(event) || !(event is Finish) ==> (finishes_once(events)
            ==> finishes_once(events.push(event))),
{
    let more = events.push(event);
    lemma_push_one(events, event);
    assert forall|a: u32, b: u32| #[trigger] finishes_before(events, a, b) implies finishes_before(
        more,
        a,
        b,
    ) by {
        let (i, j) = choose|i: int, j: int|
            0 <= i < j < events.len() && #[trigger] events[i] == SearchEvent::Finish(a)
                && #[trigger] events[j] == SearchEvent::Finish(b);
        assert(more[i] == SearchEvent::Finish(a) && more[j] == SearchEvent::Finish(b));
    }
    assert forall|a: u32, b: u32| #[trigger] leads_down(events, a, b) implies leads_down(
        more,
        a,
        b,
    ) by {
        let path = choose|path: Seq<u32>| is_way_down(events, path, a, b);
        assert forall|i: int| 0 <= i < path.len() - 1 implies goes_down(
            more,
            #[trigger] path[i],
            path[i + 1],
        ) by {
            assert(goes_down(events, path[i], path[i + 1]));
        }
        assert(is_way_down(more, path, a, b));
    }
    if (event is Finish && !events.contains(event) || !(event is Finish)) && finishes_once(
        events,
    ) {
        assert forall|i: int, j: int|
            0 <= i < more.len() && 0 <= j < more.len() && (#[trigger] more[i]) is Finish && more[i]
                == #[trigger] more[j] implies i == j by {
            if i < events.len() && j < events.len() {
                assert(events[i] == events[j]);
            } else if i < events.len() {
                assert(events.contains(events[i]));
            } else if j < events.len() {
                assert(events.contains(events[j]));
            }
        }
    }
}

/// What is finished is finished before what is finished next.
proof fn lemma_finished_next(events: Seq<SearchEvent>, a: u32, b: u32)
    requires
        events.contains(SearchEvent::Finish(a)),
    ensures
        finishes_before(events.push(SearchEvent::Finish(b)), a, b),
{
    let more = events.push(SearchEvent::Finish(b));
    let i = choose|i: int| 0 <= i < events.len() && events[i] == SearchEvent::Finish(a);
    assert(more[i] == SearchEvent::Finish(a));
    assert(more[events.len() as int] == SearchEvent::Finish(b));
}

/// Passing over a successor leaves the open nodes as they are.
proof fn lemma_passed_open(state: SearchState, event: SearchEvent)
    requires
        state.open.len() > 0,
    ensures
        state.passed(event).open.len() == state.open.len(),
        forall|i: int|
            0 <= i < state.open.len() ==> (#[trigger] state.passed(event).open[i]).node
                == state.open[i].node,
        forall|n: u32| #[trigger] state.passed(event).is_open(n) == state.is_open(n),
        forall|a: u32, b: u32| #[trigger] state.passed(event).above(a, b) == state.above(a, b),
{
    let next = state.passed(event);
    assert forall|i: int| 0 <= i < state.open.len() implies (#[trigger] next.open[i]).node
        == state.open[i].node by {}
    assert forall|n: u32| #[trigger] next.is_open(n) == state.is_open(n) by {
        if state.is_open(n) {
            let i = choose|i: int|
                0 <= i < state.open.len() && (#[trigger] state.open[i]).node == n;
            assert(next.open[i].node == n);
        }
        if next.is_open(n) {
            let i = choose|i: int| 0 <= i < next.open.len() && (#[trigger] next.open[i]).node == n;
            assert(state.open[i].node == n);
        }
    }
    assert forall|a: u32, b: u32| #[trigger] next.above(a, b) == state.above(a, b) by {
        if state.above(a, b) {
            let (i, j) = choose|i: int, j: int|
                0 <= i < j < state.open.len() && (#[trigger] state.open[i]).node == a && (
                #[trigger] state.open[j]).node == b;
            assert(next.open[i].node == a && next.open[j].node == b);
        }
        if next.above(a, b) {
            let (i, j) = choose|i: int, j: int|
                0 <= i < j < next.open.len() && (#[trigger] next.open[i]).node == a && (
                #[trigger] next.open[j]).node == b;
            assert(state.open[i].node == a && state.open[j].node == b);
        }
    }
}

/// One more open node.
proof fn lemma_entered_open(state: SearchState, successors: Map<u32, Seq<u32>>, node: u32)
    ensures
        forall|n: u32| #[trigger]
            state.entered(successors, node).is_open(n) <==> state.is_open(n) || n == node,
        forall|a: u32, b: u32| #[trigger]
            state.above(a, b) ==> state.entered(successors, node).above(a, b),
        forall|a: u32| #[trigger]
            state.is_open(a) ==> state.entered(successors, node).above(a, node),
{
    let next = state.entered(successors, node);
    let top = state.open.len() as int;
    assert(next.open[top].node == node);
    assert forall|n: u32| #[trigger] next.is_open(n) <==> state.is_open(n) || n == node by {
        if state.is_open(n) {
            let i = choose|i: int|
                0 <= i < state.open.len() && (#[trigger] state.open[i]).node == n;
            assert(next.open[i].node == n);
        }
        if next.is_open(n) {
            let i = choose|i: int| 0 <= i < next.open.len() && (#[trigger] next.open[i]).node == n;
            if i < top {
                assert(state.open[i].node == n);
            }
        }
    }
    assert forall|a: u32, b: u32| #[trigger] state.above(a, b) implies next.above(a, b) by {
        let (i, j) = choose|i: int, j: int|
            0 <= i < j < state.open.len() && (#[trigger] state.open[i]).node == a && (
            #[trigger] state.open[j]).node == b;
        assert(next.open[i].node == a && next.open[j].node == b);
    }
    assert forall|a: u32| #[trigger] state.is_open(a) implies next.above(a, node) by {
        let i = choose|i: int| 0 <= i < state.open.len() && (#[trigger] state.open[i]).node == a;
        assert(next.open[i].node == a);
    }
}

/// One open node less.
proof fn lemma_popped_open(state: SearchState)
    requires
        state.open.len() > 0,
        state.is_tidy(),
    ensures
        state.is_open(state.open.last().node),
        forall|n: u32| #[trigger]
            state.popped().is_open(n) <==> state.is_open(n) && n != state.open.last().node,
        forall|a: u32, b: u32| #[trigger]
            state.above(a, b) ==> a != state.open.last().node && (b == state.open.last().node
                || state.popped().above(a, b)),
{
    let next = state.popped();
    let top = state.open.len() - 1;
    let node = state.open[top].node;
    assert forall|n: u32| #[trigger] next.is_open(n) <==> state.is_open(n) && n != node by {
        if state.is_open(n) && n != node {
            let i = choose|i: int|
                0 <= i < state.open.len() && (#[trigger] state.open[i]).node == n;
            assert(next.open[i].node == n);
        }
        if next.is_open(n) {
            let i = choose|i: int| 0 <= i < next.open.len() && (#[trigger] next.open[i]).node == n;
            assert(state.open[i].node == n);
            assert(state.open[i].node != state.open[top].node);
        }
    }
    assert forall|a: u32, b: u32| #[trigger] state.above(a, b) implies a != node && (b == node
        || next.above(a, b)) by {
        let (i, j) = choose|i: int, j: int|
            0 <= i < j < state.open.len() && (#[trigger] state.open[i]).node == a && (
            #[trigger] state.open[j]).node == b;
        assert(state.open[i].node != state.open[top].node);
        if j < top {
            assert(next.open[i].node == a && next.open[j].node == b);
        }
    }
}

/// From an open node tree edges lead to those that have been come upon from it.
proof fn lemma_open_path(state: SearchState, f: Flow, start: u32, i: int, j: int)
    requires
        state.is_rooted(f, start),
        0 <= i <= j < state.open.len(),
    ensures
        leads_down(state.events, state.open[i].node, state.open[j].node),
    decreases j - i,
{
    let a = state.open[i].node;
    if i == j {
        assert(is_way_down(state.events, seq![a], a, a));
    } else {
        lemma_open_path(state, f, start, i, j - 1);
        let b = state.open[j - 1].node;
        let c = state.open[j].node;
        assert(goes_down(state.events, b, c));
        let path = choose|path: Seq<u32>| is_way_down(state.events, path, a, b);
        let long = path.push(c);
        assert forall|k: int| 0 <= k < long.len() - 1 implies goes_down(
            state.events,
            #[trigger] long[k],
            long[k + 1],
        ) by {
            if k < path.len() - 1 {
                assert(goes_down(state.events, path[k], path[k + 1]));
            }
        }
        assert(is_way_down(state.events, long, a, c));
    }
}

/// The roots stay where nothing new is come upon.
proof fn lemma_still_rooted(state: SearchState, next: SearchState, f: Flow, start: u32)
    requires
        state.is_rooted(f, start),
        next.discovered == state.discovered,
        forall|e: SearchEvent| #[trigger] state.events.contains(e) ==> next.events.contains(e),
        next.open.len() <= state.open.len(),
        forall|i: int|
            0 <= i < next.open.len() ==> (#[trigger] next.open[i]).node == state.open[i].node,
    ensures
        next.is_rooted(f, start),
{
    assert forall|n: u32| #[trigger]
        next.discovered.contains(n) && n != start implies exists|a: u32| #[trigger]
        next.events.contains(SearchEvent::TreeEdge(a, n)) by {
        let a = choose|a: u32| #[trigger] state.events.contains(SearchEvent::TreeEdge(a, n));
        assert(next.events.contains(SearchEvent::TreeEdge(a, n)));
    }
    assert forall|i: int, j: int| 0 <= i < next.open.len() - 1 && j == i + 1 implies
        next.events.contains(
        SearchEvent::TreeEdge((#[trigger] next.open[i]).node, (#[trigger] next.open[j]).node),
    ) by {
        assert(state.events.contains(
            SearchEvent::TreeEdge(state.open[i].node, state.open[j].node),
        ));
    }
}

proof fn lemma_popped(state: SearchState, f: Flow, start: u32)
    requires
        state.is_sound(f, start),
        state.open.len() > 0,
        state.open.last().left.len() == 0,
    ensures
        state.popped().is_sound(f, start),
{
    let next = state.popped();
    let top = state.open.len() - 1;
    let node = state.open[top].node;
    let event = SearchEvent::Finish(node);
    lemma_popped_open(state);
    lemma_told_more(state.events, event);
    assert forall|a: u32| #[trigger] state.finished.contains(a) implies finishes_before(
        next.events,
        a,
        node,
    ) by {
        lemma_finished_next(state.events, a, node);
    }
    assert(forall|a: u32, b: u32| #[trigger]
        goes_down(next.events, a, b) == goes_down(state.events, a, b));
    assert(forall|a: u32, b: u32| #[trigger]
        is_told(next.events, a, b) == is_told(state.events, a, b));
    assert(next.is_tidy());
    lemma_still_rooted(state, next, f, start);
    assert(next.is_thorough(f)) by {
        assert(state.open[top].left.len() == 0);
    }
    assert(next.is_ordered());
    assert(next.is_backed());
}

/// An edge to an open node, or to a finished one.
proof fn lemma_passed(state: SearchState, f: Flow, start: u32, event: SearchEvent)
    requires
        state.is_sound(f, start),
        state.open.len() > 0,
        state.open.last().left.len() > 0,
        state.discovered.contains(state.open.last().left[0]),
        event == if !state.finished.contains(state.open.last().left[0]) {
            SearchEvent::BackEdge(state.open.last().node, state.open.last().left[0])
        } else {
            SearchEvent::CrossForwardEdge(state.open.last().node, state.open.last().left[0])
        },
    ensures
        state.passed(event).is_sound(f, start),
{
    let next = state.passed(event);
    let top = state.open.len() - 1;
    let node = state.open[top].node;
    let target = state.open[top].left[0];
    assert(state.open[top].left.contains(target));
    assert(f.leads(node, target));
    assert(state.is_open(node));
    lemma_passed_open(state, event);
    lemma_told_more(state.events, event);
    assert(next.is_tidy());
    lemma_still_rooted(state, next, f, start);
    assert(next.is_thorough(f)) by {
        assert(state.discovered.contains(node));
        assert(is_told(next.events, node, target));
        assert(forall|a: u32, b: u32| #[trigger]
            is_told(next.events, a, b) <==> is_told(state.events, a, b) || (a == node && b
                == target));
        lemma_rest(state, f, event);
    }
    assert(next.is_ordered()) by {
        assert(!state.finished.contains(node));
        assert forall|a: u32, b: u32| #[trigger]
            goes_down(next.events, a, b) && !goes_down(state.events, a, b) implies a == node && b
            == target && state.finished.contains(target) by {}
    }
    assert(next.is_backed()) by {
        if event is BackEdge {
            assert(state.is_open(target));
            let i = choose|i: int|
                0 <= i < state.open.len() && (#[trigger] state.open[i]).node == target;
            lemma_open_path(state, f, start, i, top);
            if i < top {
                assert(state.above(target, node));
            }
        }
    }
}

/// Of the successors that are left to the last open node, the first is told.
proof fn lemma_rest(state: SearchState, f: Flow, event: SearchEvent)
    requires
        state.is_thorough(f),
        state.open.len() > 0,
        state.open.last().left.len() > 0,
        is_told(state.passed(event).events, state.open.last().node, state.open.last().left[0]),
    ensures
        forall|i: int, b: u32|
            0 <= i < state.open.len() && #[trigger] f.leads(
                (#[trigger] state.passed(event).open[i]).node,
                b,
            ) ==> state.passed(event).open[i].left.contains(b) || is_told(
                state.passed(event).events,
                state.passed(event).open[i].node,
                b,
            ),
        forall|i: int, b: u32|
            0 <= i < state.open.len() && (#[trigger] state.passed(event).open[i]).left.contains(b)
                ==> #[trigger] f.leads(state.passed(event).open[i].node, b),
{
    let next = state.passed(event);
    let top = state.open.len() - 1;
    let left = state.open[top].left;
    let rest = next.open[top].left;
    assert(left =~= seq![left[0]] + rest);
    lemma_appended(seq![left[0]], rest);
    assert(seq![left[0]][0] == left[0]);
    lemma_told_more(state.events, event);
    lemma_passed_open(state, event);
    assert forall|i: int, b: u32|
        0 <= i < state.open.len() && #[trigger] f.leads(
            (#[trigger] next.open[i]).node,
            b,
        ) implies next.open[i].left.contains(b) || is_told(
        next.events,
        next.open[i].node,
        b,
    ) by {
        assert(next.open[i].node == state.open[i].node);
        assert(state.open[i].left.contains(b) || is_told(state.events, state.open[i].node, b));
    }
    assert forall|i: int, b: u32|
        0 <= i < state.open.len() && (#[trigger] next.open[i]).left.contains(
            b,
        ) implies #[trigger] f.leads(next.open[i].node, b) by {
        assert(next.open[i].node == state.open[i].node);
        assert(state.open[i].left.contains(b));
    }
}

/// An edge to a node that has not been come upon.
proof fn lemma_entered(state: SearchState, f: Flow, start: u32)
    requires
        f.wf(),
        state.is_sound(f, start),
        state.open.len() > 0,
        state.open.last().left.len() > 0,
        !state.discovered.contains(state.open.last().left[0]),
    ensures
        state.step(f.successor_lists()).is_sound(f, start),
{
    let top = state.open.len() - 1;
    let node = state.open[top].node;
    let target = state.open[top].left[0];
    let event = SearchEvent::TreeEdge(node, target);
    let passed = state.passed(event);
    let next = passed.entered(f.successor_lists(), target);
    assert(state.step(f.successor_lists()) == next);
    assert(state.open[top].left.contains(target));
    assert(f.leads(node, target));
    assert(state.is_open(node));
    lemma_passed_open(state, event);
    lemma_told_more(state.events, event);
    lemma_entered_open(passed, f.successor_lists(), target);
    lemma_told_more(passed.events, SearchEvent::Discover(target));
    assert(next.is_tidy()) by {
        assert forall|i: int, j: int| 0 <= i < j < next.open.len() implies (
        #[trigger] next.open[i]).node != (#[trigger] next.open[j]).node by {
            assert(next.open[i].node == state.open[i].node);
            assert(state.is_open(state.open[i].node));
            if j <= top {
                assert(next.open[j].node == state.open[j].node);
            }
        }
    }
    assert(next.is_rooted(f, start)) by {
        assert(state.discovered.contains(node));
        lemma_reaches_step(f, start, node, target);
        assert(next.events.contains(event));
        assert forall|i: int, j: int| 0 <= i < next.open.len() - 1 && j == i + 1 implies
            next.events.contains(
            SearchEvent::TreeEdge(
                (#[trigger] next.open[i]).node,
                (#[trigger] next.open[j]).node,
            ),
        ) by {
            assert(next.open[i].node == state.open[i].node);
            if j <= top {
                assert(next.open[j].node == state.open[j].node);
                assert(state.events.contains(
                    SearchEvent::TreeEdge(state.open[i].node, state.open[j].node),
                ));
            }
        }
        assert forall|n: u32| #[trigger]
            next.discovered.contains(n) && n != start implies exists|a: u32| #[trigger]
            next.events.contains(SearchEvent::TreeEdge(a, n)) by {
            if n != target {
                assert(state.discovered.contains(n));
                let a = choose|a: u32| #[trigger]
                    state.events.contains(SearchEvent::TreeEdge(a, n));
                assert(next.events.contains(SearchEvent::TreeEdge(a, n)));
            }
        }
    }
    assert(next.is_thorough(f)) by {
        assert(state.discovered.contains(node));
        assert(is_told(passed.events, node, target));
        assert(forall|a: u32, b: u32| #[trigger]
            is_told(next.events, a, b) <==> is_told(state.events, a, b) || (a == node && b
                == target));
        assert(forall|a: u32, b: u32| #[trigger]
            is_told(next.events, a, b) <==> is_told(passed.events, a, b));
        lemma_rest(state, f, event);
        assert forall|i: int, b: u32|
            0 <= i < next.open.len() && #[trigger] f.leads(
                (#[trigger] next.open[i]).node,
                b,
            ) implies next.open[i].left.contains(b) || is_told(
            next.events,
            next.open[i].node,
            b,
        ) by {
            if i <= top {
                assert(next.open[i] == passed.open[i]);
                assert(passed.open[i].left.contains(b) || is_told(
                    passed.events,
                    passed.open[i].node,
                    b,
                ));
            } else {
                lemma_listed(f, target, b);
            }
        }
        assert forall|i: int, b: u32|
            0 <= i < next.open.len() && (#[trigger] next.open[i]).left.contains(
                b,
            ) implies #[trigger] f.leads(next.open[i].node, b) by {
            if i <= top {
                assert(next.open[i] == passed.open[i]);
                assert(f.leads(passed.open[i].node, b));
            } else {
                lemma_listed(f, target, b);
            }
        }
    }
    assert(next.is_ordered()) by {
        assert(!state.finished.contains(node));
        assert(forall|a: u32, b: u32| #[trigger]
            goes_down(next.events, a, b) <==> goes_down(state.events, a, b) || (a == node && b
                == target));
        assert(passed.is_open(node));
        assert(next.above(node, target));
        assert forall|a: u32, b: u32| #[trigger]
            goes_down(next.events, a, b) && next.is_open(a) implies next.finished.contains(b)
            || next.above(a, b) by {
            if !goes_down(state.events, a, b) {
                assert(a == node && b == target);
            } else {
                assert(is_told(state.events, a, b));
                assert(state.finished.contains(b) || state.above(a, b));
                assert(passed.above(a, b) == state.above(a, b));
            }
        }
    }
    assert(next.is_backed()) by {
        assert forall|a: u32, b: u32| #[trigger]
            next.events.contains(SearchEvent::BackEdge(a, b)) && next.is_open(b) implies
            next.finished.contains(a) || a == b || next.above(b, a) by {
            assert(state.events.contains(SearchEvent::BackEdge(a, b)));
            assert(is_told(state.events, a, b));
            assert(passed.above(b, a) == state.above(b, a));
        }
    }
}

/// A search that is sound tells what it should.
proof fn lemma_told(state: SearchState, f: Flow, start: u32)
    requires
        f.wf(),
        state.is_sound(f, start),
    ensures
        searches(f, start, state.told(f.successor_lists())),
    decreases unseen(state.discovered).len(), to_do(state.open),
{
    if state.open.len() == 0 {
        assert forall|n: u32| #[trigger]
            state.events.contains(SearchEvent::Finish(n)) <==> f.reaches(start, n) by {
            assert(!state.is_open(n));
            assert(state.discovered.contains(n) <==> state.finished.contains(n));
            if f.reaches(start, n) {
                let path = choose|path: Seq<u32>| f.is_path(path, start, n);
                lemma_closed_discovered(state, f);
                lemma_closed(f, state.discovered, path, start, n);
            }
        }
        assert(forall|n: u32| !#[trigger] state.is_open(n));
        assert(forall|n: u32| #[trigger]
            state.discovered.contains(n) <==> state.finished.contains(n));
        assert forall|a: u32, b: u32| #[trigger]
            is_told(state.events, a, b) <==> f.leads(a, b) && f.reaches(start, a) by {
            assert(state.events.contains(SearchEvent::Finish(a)) <==> f.reaches(start, a));
        }
        assert forall|n: u32| #[trigger]
            f.reaches(start, n) && n != start implies exists|a: u32| #[trigger]
            state.events.contains(SearchEvent::TreeEdge(a, n)) by {
            assert(state.events.contains(SearchEvent::Finish(n)));
            assert(state.discovered.contains(n));
        }
        assert forall|a: u32, b: u32| #[trigger]
            state.events.contains(SearchEvent::BackEdge(a, b)) implies a == b || finishes_before(
            state.events,
            a,
            b,
        ) by {
            assert(is_told(state.events, a, b));
            assert(state.discovered.contains(b));
        }
        assert forall|a: u32, b: u32| #[trigger] goes_down(state.events, a, b) implies
            finishes_before(state.events, b, a) by {
            assert(is_told(state.events, a, b));
            assert(state.discovered.contains(a));
        }
    } else {
        let successors = f.successor_lists();
        let last = state.open.last();
        lemma_less_to_do(state, successors);
        if last.left.len() == 0 {
            lemma_popped(state, f, start);
        } else if !state.discovered.contains(last.left[0]) {
            lemma_entered(state, f, start);
        } else if !state.finished.contains(last.left[0]) {
            lemma_passed(state, f, start, SearchEvent::BackEdge(last.node, last.left[0]));
        } else {
            lemma_passed(state, f, start, SearchEvent::CrossForwardEdge(last.node, last.left[0]));
        }
        lemma_told(state.step(successors), f, start);
    }
}

/// In the end, edges lead from what has been come upon only to what has.
proof fn lemma_closed_discovered(state: SearchState, f: Flow)
    requires
        state.is_tidy(),
        state.is_thorough(f),
        state.open.len() == 0,
    ensures
        forall|a: u32, b: u32| #[trigger]
            state.discovered.contains(a) && #[trigger] f.leads(a, b) ==> state.discovered.contains(
                b,
            ),
{
    assert forall|a: u32, b: u32| #[trigger]
        state.discovered.contains(a) && #[trigger] f.leads(a, b) implies state.discovered.contains(
        b,
    ) by {
        assert(!state.is_open(a));
        assert(is_told(state.events, a, b));
    }
}

/// What a search from any node tells of a graph.
pub proof fn searches_tell(f: Flow, start: u32)
    requires
        f.wf(),
    ensures
        searches(f, start, search_events(f.successor_lists(), start)),
{
    let successors = f.successor_lists();
    let state = SearchState::starting(successors, start);
    let events = state.events;
    assert(state.open[0].node == start);
    lemma_reaches_self(f, start);
    assert(forall|e: SearchEvent| #[trigger]
        events.contains(e) ==> e == SearchEvent::Discover(start));
    assert forall|b: u32|
        listed(successors, start).contains(b) <==> #[trigger] f.leads(start, b) by {
        lemma_listed(f, start, b);
    }
    assert(state.is_open(start));
    assert(state.is_tidy());
    assert(state.is_sound(f, start));
    lemma_told(state, f, start);
}

} // verus!
