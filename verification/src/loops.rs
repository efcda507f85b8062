//! Where loops start.

use vstd::prelude::*;

use crate::flow::{Flow, SearchEvent};
use crate::search::{
    finishes_before, finishes_once, goes_down, is_told, is_way_down, searches,
};
use crate::walk::lemma_reaches_step;

verus! {

/// The targets of back edges.
pub open spec fn back_edge_targets(events: Seq<SearchEvent>) -> Set<u32> {
    Set::new(|n: u32| exists|from: u32| #[trigger] events.contains(SearchEvent::BackEdge(from, n)))
}

impl Flow {
    /// The path comes back to where it started.
    pub open spec fn is_cycle(self, path: Seq<u32>) -> bool {
        path.len() > 1 && self.is_path(path, path[0], path[0])
    }

    /// An edge leads to the node `n` from one that can be reached and that `n`
    /// dominates.
    pub open spec fn leads_back(self, entry: u32, n: u32) -> bool {
        exists|a: u32| #[trigger]
            self.leads(a, n) && self.reaches(entry, a) && self.dominates(entry, n, a)
    }

    /// Every cycle that can be reached has an edge whose target dominates its source:
    /// the only way into it.
    pub open spec fn is_reducible(self, entry: u32) -> bool {
        forall|path: Seq<u32>| #[trigger]
            self.is_cycle(path) && self.reaches(entry, path[0]) ==> exists|i: int|
                0 <= i < path.len() - 1 && self.dominates(entry, path[i + 1], #[trigger] path[i])
    }

    /// Edges lead to the node `n` from two nodes that can be reached.
    pub open spec fn joins(self, entry: u32, n: u32) -> bool {
        exists|a: u32, b: u32| #[trigger]
            self.leads(a, n) && #[trigger] self.leads(b, n) && a != b && self.reaches(entry, a)
                && self.reaches(entry, b)
    }

    /// These are headers of the loops that can be reached from `entry`: each can be
    /// reached and lies on a cycle, each cycle that can be reached holds one, and a
    /// node that an edge leads to from a node that it dominates is one.  There are no
    /// others where every cycle has only one way into it.  In any case each but
    /// `entry` has two nodes that lead to it.
    pub open spec fn has_headers(self, entry: u32, headers: Set<u32>) -> bool {
        &&& forall|n: u32| #[trigger]
            headers.contains(n) ==> self.reaches(entry, n) && self.on_cycle(n)
        &&& forall|path: Seq<u32>| #[trigger]
            self.is_cycle(path) && self.reaches(entry, path[0]) ==> exists|i: int|
                0 <= i < path.len() && headers.contains(#[trigger] path[i])
        &&& forall|a: u32, n: u32| #[trigger]
            self.leads(a, n) && self.reaches(entry, a) && self.dominates(entry, n, a)
                ==> headers.contains(n)
        &&& self.is_reducible(entry) ==> forall|n: u32| #[trigger]
            headers.contains(n) ==> self.leads_back(entry, n)
        &&& forall|n: u32| #[trigger] headers.contains(n) && n != entry ==> self.joins(entry, n)
    }
}

/// When a node is finished.
spec fn finish(events: Seq<SearchEvent>, n: u32) -> int {
    choose|i: int| 0 <= i < events.len() && #[trigger] events[i] == SearchEvent::Finish(n)
}

proof fn lemma_finish(f: Flow, start: u32, events: Seq<SearchEvent>, n: u32)
    requires
        searches(f, start, events),
        f.reaches(start, n),
    ensures
        0 <= finish(events, n) < events.len(),
        events[finish(events, n)] == SearchEvent::Finish(n),
{
    assert(events.contains(SearchEvent::Finish(n)));
    let i = choose|i: int| 0 <= i < events.len() && events[i] == SearchEvent::Finish(n);
    assert(events[i] == SearchEvent::Finish(n));
}

/// What is finished before.
proof fn lemma_before(events: Seq<SearchEvent>, a: u32, b: u32)
    requires
        finishes_once(events),
        finishes_before(events, a, b),
    ensures
        finish(events, a) < finish(events, b),
{
    let (i, j) = choose|i: int, j: int|
        0 <= i < j < events.len() && #[trigger] events[i] == SearchEvent::Finish(a)
            && #[trigger] events[j] == SearchEvent::Finish(b);
    assert(events[finish(events, a)] == events[i]);
    assert(events[finish(events, b)] == events[j]);
}

/// An edge is a back edge, or its target is finished first.
proof fn lemma_edge(f: Flow, start: u32, events: Seq<SearchEvent>, a: u32, b: u32)
    requires
        searches(f, start, events),
        f.reaches(start, a),
        f.leads(a, b),
    ensures
        f.reaches(start, b),
        back_edge_targets(events).contains(b) || finish(events, b) < finish(events, a),
{
    lemma_reaches_step(f, start, a, b);
    lemma_finish(f, start, events, a);
    lemma_finish(f, start, events, b);
    assert(is_told(events, a, b));
    if goes_down(events, a, b) {
        lemma_before(events, b, a);
    }
}

/// Along a path without headers behind its start, nodes are finished ever earlier.
proof fn lemma_along(f: Flow, start: u32, events: Seq<SearchEvent>, path: Seq<u32>, i: int)
    requires
        searches(f, start, events),
        f.is_path(path, path[0], path.last()),
        f.reaches(start, path[0]),
        forall|k: int| 0 <= k < path.len() ==> !back_edge_targets(events).contains(
            #[trigger] path[k],
        ),
        0 <= i < path.len(),
    ensures
        f.reaches(start, path[i]),
        finish(events, path[i]) <= finish(events, path[0]) - i,
    decreases i,
{
    if i > 0 {
        lemma_along(f, start, events, path, i - 1);
        assert(f.leads(path[i - 1], path[i - 1 + 1]));
        lemma_edge(f, start, events, path[i - 1], path[i]);
        assert(!back_edge_targets(events).contains(path[i]));
    }
}

/// A path of tree edges to a node, on which nothing is finished before it.
proof fn lemma_tree_path(f: Flow, start: u32, events: Seq<SearchEvent>, n: u32) -> (path: Seq<u32>)
    requires
        searches(f, start, events),
        f.reaches(start, n),
    ensures
        f.is_path(path, start, n),
        forall|i: int|
            0 <= i < path.len() ==> finish(events, n) <= finish(events, #[trigger] path[i]),
    decreases events.len() - finish(events, n),
{
    lemma_finish(f, start, events, n);
    if n == start {
        let path = seq![n];
        assert(f.is_path(path, start, n));
        path
    } else {
        let a = choose|a: u32| #[trigger] events.contains(SearchEvent::TreeEdge(a, n));
        assert(goes_down(events, a, n));
        assert(is_told(events, a, n));
        lemma_finish(f, start, events, a);
        lemma_before(events, n, a);
        let front = lemma_tree_path(f, start, events, a);
        let path = front.push(n);
        assert forall|i: int| 0 <= i < path.len() - 1 implies f.leads(
            #[trigger] path[i],
            path[i + 1],
        ) by {
            if i < front.len() - 1 {
                assert(f.leads(front[i], front[i + 1]));
            }
        }
        assert(f.is_path(path, start, n));
        assert forall|i: int| 0 <= i < path.len() implies finish(events, n) <= finish(
            events,
            #[trigger] path[i],
        ) by {
            if i < front.len() {
                assert(path[i] == front[i]);
            }
        }
        path
    }
}

/// The target of an edge that is no back edge does not dominate its source.
proof fn lemma_down(f: Flow, start: u32, events: Seq<SearchEvent>, a: u32, b: u32)
    requires
        searches(f, start, events),
        goes_down(events, a, b),
    ensures
        f.leads(a, b),
        f.reaches(start, a),
        !f.dominates(start, b, a),
{
    assert(is_told(events, a, b));
    lemma_before(events, b, a);
    let path = lemma_tree_path(f, start, events, a);
    if path.contains(b) {
        let i = choose|i: int| 0 <= i < path.len() && path[i] == b;
        assert(finish(events, a) <= finish(events, path[i]));
    }
    assert(f.is_path(path, start, a));
}

/// Where every cycle has only one way into it, back edges lead to nodes that
/// dominate their sources.
proof fn lemma_back(f: Flow, start: u32, events: Seq<SearchEvent>, a: u32, n: u32)
    requires
        searches(f, start, events),
        f.is_reducible(start),
        events.contains(SearchEvent::BackEdge(a, n)),
    ensures
        f.leads(a, n),
        f.reaches(start, a),
        f.dominates(start, n, a),
{
    assert(is_told(events, a, n));
    let path = choose|path: Seq<u32>| is_way_down(events, path, n, a);
    let cycle = path.push(n);
    assert forall|i: int| 0 <= i < cycle.len() - 1 implies f.leads(
        #[trigger] cycle[i],
        cycle[i + 1],
    ) by {
        if i < path.len() - 1 {
            assert(goes_down(events, path[i], path[i + 1]));
            lemma_down(f, start, events, path[i], path[i + 1]);
        }
    }
    assert(f.is_cycle(cycle));
    lemma_reaches_step(f, start, a, n);
    let i = choose|i: int|
        0 <= i < cycle.len() - 1 && f.dominates(start, cycle[i + 1], #[trigger] cycle[i]);
    if i < path.len() - 1 {
        assert(goes_down(events, path[i], path[i + 1]));
        lemma_down(f, start, events, path[i], path[i + 1]);
    }
}

/// What can be reached without back edges can be reached.
proof fn lemma_way_down(f: Flow, start: u32, events: Seq<SearchEvent>, path: Seq<u32>)
    requires
        searches(f, start, events),
        path.len() > 0,
        is_way_down(events, path, path[0], path.last()),
    ensures
        f.reaches(path[0], path.last()),
{
    assert forall|i: int| 0 <= i < path.len() - 1 implies f.leads(
        #[trigger] path[i],
        path[i + 1],
    ) by {
        assert(goes_down(events, path[i], path[i + 1]));
        assert(is_told(events, path[i], path[i + 1]));
    }
    assert(f.is_path(path, path[0], path.last()));
}

/// The targets of the back edges of a search are headers of loops.
pub proof fn lemma_headers(f: Flow, start: u32, events: Seq<SearchEvent>)
    requires
        searches(f, start, events),
    ensures
        f.has_headers(start, back_edge_targets(events)),
{
    let headers = back_edge_targets(events);
    assert forall|n: u32| #[trigger] headers.contains(n) implies f.reaches(start, n) && f.on_cycle(
        n,
    ) by {
        let from = choose|from: u32| #[trigger] events.contains(SearchEvent::BackEdge(from, n));
        assert(is_told(events, from, n));
        lemma_reaches_step(f, start, from, n);
        let path = choose|path: Seq<u32>| is_way_down(events, path, n, from);
        lemma_way_down(f, start, events, path);
        assert(f.leads(from, n) && f.reaches(n, from));
    }
    if f.is_reducible(start) {
        assert forall|n: u32| #[trigger] headers.contains(n) implies f.leads_back(start, n) by {
            let from = choose|from: u32| #[trigger]
                events.contains(SearchEvent::BackEdge(from, n));
            lemma_back(f, start, events, from, n);
        }
    }
    assert forall|n: u32| #[trigger] headers.contains(n) && n != start implies f.joins(
        start,
        n,
    ) by {
        let from = choose|from: u32| #[trigger] events.contains(SearchEvent::BackEdge(from, n));
        assert(is_told(events, from, n));
        lemma_reaches_step(f, start, from, n);
        let a = choose|a: u32| #[trigger] events.contains(SearchEvent::TreeEdge(a, n));
        assert(goes_down(events, a, n));
        assert(is_told(events, a, n));
        lemma_before(events, n, a);
        if a == from && from != n {
            lemma_before(events, from, n);
        }
        assert(f.leads(a, n) && f.leads(from, n));
    }
    assert forall|path: Seq<u32>| #[trigger]
        f.is_cycle(path) && f.reaches(start, path[0]) implies exists|i: int|
        0 <= i < path.len() && headers.contains(#[trigger] path[i]) by {
        if forall|i: int| 0 <= i < path.len() ==> !headers.contains(#[trigger] path[i]) {
            lemma_along(f, start, events, path, path.len() - 1);
        }
    }
    assert forall|a: u32, n: u32| #[trigger]
        f.leads(a, n) && f.reaches(start, a) && f.dominates(start, n, a) implies headers.contains(
        n,
    ) by {
        let path = lemma_tree_path(f, start, events, a);
        assert(path.contains(n));
        let i = choose|i: int| 0 <= i < path.len() && path[i] == n;
        assert(finish(events, a) <= finish(events, path[i]));
        lemma_edge(f, start, events, a, n);
    }
}

/// There are headers where, and only where, a cycle can be reached.
pub proof fn headers_tell_of_cycles(f: Flow, entry: u32, headers: Set<u32>)
    requires
        f.has_headers(entry, headers),
    ensures
        headers == Set::<u32>::empty() <==> (forall|n: u32| #[trigger]
            f.reaches(entry, n) ==> !f.on_cycle(n)),
{
    if headers == Set::<u32>::empty() {
        assert forall|n: u32| #[trigger] f.reaches(entry, n) implies !f.on_cycle(n) by {
            if f.on_cycle(n) {
                let last = choose|last: u32| #[trigger] f.leads(last, n) && f.reaches(n, last);
                let path = choose|path: Seq<u32>| f.is_path(path, n, last);
                let cycle = path.push(n);
                assert forall|i: int| 0 <= i < cycle.len() - 1 implies f.leads(
                    #[trigger] cycle[i],
                    cycle[i + 1],
                ) by {
                    if i < path.len() - 1 {
                        assert(f.leads(path[i], path[i + 1]));
                    }
                }
                assert(f.is_cycle(cycle));
                let i = choose|i: int|
                    0 <= i < cycle.len() && headers.contains(#[trigger] cycle[i]);
                assert(headers.contains(cycle[i]));
            }
        }
    }
    if forall|n: u32| #[trigger] f.reaches(entry, n) ==> !f.on_cycle(n) {
        assert(headers =~= Set::<u32>::empty());
    }
}

/// Where every cycle has only one way into it, the headers are the nodes that an edge
/// leads to from a node that they dominate.
pub proof fn headers_of_reducible_graphs(f: Flow, entry: u32, headers: Set<u32>)
    requires
        f.has_headers(entry, headers),
        f.is_reducible(entry),
    ensures
        forall|n: u32| #[trigger] headers.contains(n) <==> f.leads_back(entry, n),
{
}

} // verus!
