//! The state that control flow is structured in.

use vstd::prelude::*;

use crate::ast::{Block, Label};
use crate::cfg::{Function, FunctionView};
use crate::flow::SearchEvent;
use crate::inspect::{labels_in, names};
use crate::lists::lemma_take_one;
use crate::loops::{back_edge_targets, lemma_headers};
use crate::search::search_events;
use crate::tables::{label_nodes, node_set, LabelTable, NodeSet};

verus! {

/// A function that is being structured.
pub struct GraphStructurer {
    pub function: Function,
    pub(crate) loop_headers: NodeSet,
    pub(crate) label_to_node: LabelTable,
}

/// What is known while a function is being structured.
#[verifier::ext_equal]
pub struct StructurerView {
    pub function: FunctionView,
    /// The blocks that loops start at.
    pub loop_headers: Set<u32>,
    /// The blocks that labels stand in.
    pub labels: Map<Seq<char>, u32>,
}

impl View for GraphStructurer {
    type V = StructurerView;

    closed spec fn view(&self) -> StructurerView {
        StructurerView {
            function: self.function@,
            loop_headers: node_set(self.loop_headers),
            labels: label_nodes(self.label_to_node),
        }
    }
}

/// The targets of the back edges of a depth-first search from the entry.
pub open spec fn loop_heads(function: FunctionView) -> Set<u32> {
    back_edge_targets(search_events(function.flow.successor_lists(), function.entry->0))
}

/// Every listed label mapped to `node`.
pub open spec fn remapped(
    labels: Map<Seq<char>, u32>,
    list: Seq<Seq<char>>,
    node: u32,
) -> Map<Seq<char>, u32> {
    Map::new(
        |label: Seq<char>| labels.contains_key(label) || list.contains(label),
        |label: Seq<char>|
            if list.contains(label) {
                node
            } else {
                labels[label]
            },
    )
}

proof fn lemma_one_more_event(events: Seq<SearchEvent>, i: int)
    requires
        0 <= i < events.len(),
    ensures
        back_edge_targets(events.take(i + 1)) == match events[i] {
            SearchEvent::BackEdge(_, n) => back_edge_targets(events.take(i)).insert(n),
            _ => back_edge_targets(events.take(i)),
        },
{
    let short = events.take(i);
    let long = events.take(i + 1);
    lemma_take_one(events, i);
    assert forall|n: u32| #[trigger] back_edge_targets(long).contains(n) <==> (
    back_edge_targets(short).contains(n) || (events[i] is BackEdge && events[i]->BackEdge_1
        == n)) by {
        if back_edge_targets(short).contains(n) {
            let from = choose|from: u32| #[trigger]
                short.contains(SearchEvent::BackEdge(from, n));
            assert(long.contains(SearchEvent::BackEdge(from, n)));
        }
        if events[i] is BackEdge && events[i]->BackEdge_1 == n {
            assert(long.contains(SearchEvent::BackEdge(events[i]->BackEdge_0, n)));
        }
    }
    assert(back_edge_targets(long) =~= match events[i] {
        SearchEvent::BackEdge(_, n) => back_edge_targets(short).insert(n),
        _ => back_edge_targets(short),
    });
}

impl StructurerView {
    /// What is known of a function in the beginning.
    pub open spec fn starting(function: FunctionView) -> StructurerView {
        StructurerView { function, loop_headers: loop_heads(function), labels: Map::empty() }
    }

    pub open spec fn with_function(self, function: FunctionView) -> StructurerView {
        StructurerView { function, ..self }
    }

    pub open spec fn with_labels(self, labels: Map<Seq<char>, u32>) -> StructurerView {
        StructurerView { labels, ..self }
    }

    /// With the loop headers that the graph has now.
    pub open spec fn with_loop_heads(self) -> StructurerView {
        StructurerView { loop_headers: loop_heads(self.function), ..self }
    }
}

impl GraphStructurer {
    /// What the view is made of.
    pub(crate) proof fn lemma_view(&self)
        ensures
            self@.function == self.function@,
            self@.loop_headers == node_set(self.loop_headers),
            self@.labels == label_nodes(self.label_to_node),
    {
    }

    /// Looks for the loop headers of the graph as it is now.
    pub fn find_loop_headers(&mut self)
        requires
            old(self)@.function.has_start(),
        ensures
            final(self)@ == old(self)@.with_loop_heads(),
            final(self)@.function.flow.has_headers(
                final(self)@.function.entry->0,
                final(self)@.loop_headers,
            ),
    {
        let entry = self.function.entry().unwrap();
        let events = self.function.search(entry);
        let mut headers = crate::tables::empty_node_set();
        assert(back_edge_targets(events@.take(0)) =~= Set::<u32>::empty());
        for i in 0..events.len()
            invariant
                node_set(headers) == back_edge_targets(events@.take(i as int)),
        {
            proof {
                lemma_one_more_event(events@, i as int);
            }
            if let SearchEvent::BackEdge(_, header) = events[i] {
                let new = crate::tables::insert_node(&mut headers, header);
            }
        }
        assert(events@.take(events@.len() as int) =~= events@);
        self.loop_headers = headers;
        proof {
            lemma_headers(self@.function.flow, entry, events@);
        }
    }

    /// Starts to structure a function.
    pub fn new(function: Function) -> (this: Self)
        requires
            function@.has_start(),
        ensures
            this@ == StructurerView::starting(function@),
            this@.function.flow.has_headers(this@.function.entry->0, this@.loop_headers),
    {
        let mut this = GraphStructurer {
            function,
            loop_headers: crate::tables::empty_node_set(),
            label_to_node: crate::tables::empty_label_table(),
        };
        assert(this@.labels =~= Map::empty());
        this.find_loop_headers();
        this
    }

    pub fn is_loop_header(&self, node: u32) -> (found: bool)
        ensures
            found == self@.loop_headers.contains(node),
    {
        crate::tables::has_node(&self.loop_headers, node)
    }

    /// The block that a label stands in.
    pub fn node_of_label(&self, label: &Label) -> (node: Option<u32>)
        ensures
            node == if self@.labels.contains_key(label.0@) {
                Some(self@.labels[label.0@])
            } else {
                None
            },
    {
        crate::tables::find_label(&self.label_to_node, label.0.as_str())
    }

    /// Notes that the labels of `block` now stand in `node`.
    pub fn remap_labels(&mut self, block: &Block, node: u32)
        ensures
            final(self)@ == old(self)@.with_labels(
                remapped(old(self)@.labels, labels_in(block@), node),
            ),
    {
        let mut labels: Vec<Label> = Vec::new();
        Self::collect_labels(block, &mut labels);
        let ghost list = names(labels@);
        assert(list =~= labels_in(block@));
        assert(remapped(self@.labels, list.take(0), node) =~= self@.labels);
        for i in 0..labels.len()
            invariant
                list == names(labels@),
                self@ == old(self)@.with_labels(
                    remapped(old(self)@.labels, list.take(i as int), node),
                ),
        {
            let ghost before = self@;
            crate::tables::insert_label(&mut self.label_to_node, labels[i].0.clone(), node);
            proof {
                let long = list.take(i + 1);
                assert(list[i as int] == labels@[i as int].0@);
                lemma_take_one(list, i as int);
                assert(self@.labels =~= remapped(old(self)@.labels, long, node));
            }
        }
        assert(list.take(list.len() as int) =~= list);
    }
}

/// The labels of a list are known for the new block, and all others for the one that
/// they were known for.
pub proof fn only_listed_labels_move(
    labels: Map<Seq<char>, u32>,
    list: Seq<Seq<char>>,
    node: u32,
    label: Seq<char>,
)
    ensures
        list.contains(label) ==> remapped(labels, list, node).contains_key(label) && remapped(
            labels,
            list,
            node,
        )[label] == node,
        !list.contains(label) ==> (remapped(labels, list, node).contains_key(label)
            <==> labels.contains_key(label)),
        !list.contains(label) && labels.contains_key(label) ==> remapped(labels, list, node)[label]
            == labels[label],
{
}

/// The loop headers are the nodes that the search from the entry tells a back edge
/// to; looking for them changes nothing else.
pub proof fn headers_are_told_by_the_search(state: StructurerView, n: u32)
    ensures
        state.with_loop_heads().loop_headers.contains(n) <==> exists|from: u32| #[trigger]
            search_events(
                state.function.flow.successor_lists(),
                state.function.entry->0,
            ).contains(SearchEvent::BackEdge(from, n)),
        state.with_loop_heads().function == state.function,
        state.with_loop_heads().labels == state.labels,
        StructurerView::starting(state.function).function == state.function,
        StructurerView::starting(state.function).loop_headers
            == state.with_loop_heads().loop_headers,
        StructurerView::starting(state.function).labels == Map::<Seq<char>, u32>::empty(),
{
}

} // verus!
