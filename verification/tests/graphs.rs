use petgraph::stable_graph::NodeIndex;
use restructure::ast::{Block, Handle, Statement};
use restructure::cfg::Function;
use restructure::dominance::post_dominators;
use restructure::flow::{BlockEdge, BranchType, FlowGraph, SearchEvent};
use restructure::structurer::GraphStructurer;
use restructure::walk::Walk;

fn edge(branch_type: BranchType) -> BlockEdge {
    BlockEdge::new(branch_type)
}

fn always() -> BlockEdge {
    edge(BranchType::Unconditional)
}

/// Blocks 0 to `count - 1`, with an edge for every pair.
fn function(count: usize, edges: &[(u32, u32)]) -> Function {
    let mut function = Function::new(7);
    for _ in 0..count {
        function.new_block();
    }
    for &(source, target) in edges {
        function.add_edge(source, target, always());
    }
    function.set_entry(0);
    function
}

fn sorted(mut nodes: Vec<u32>) -> Vec<u32> {
    nodes.sort();
    nodes
}

#[test]
fn a_new_function_is_empty() {
    let function = Function::new(3);
    assert_eq!(function.id(), 3);
    assert_eq!(function.entry(), None);
    assert_eq!(function.node_count(), 0);
    assert_eq!(function.edge_count(), 0);
    assert!(function.block(0).is_none());
    assert!(!function.has_start());
}

#[test]
fn blocks_are_numbered_and_numbers_used_again() {
    let mut function = function(3, &[(0, 1), (1, 2), (0, 2)]);
    assert_eq!(function.node_indices(), vec![0, 1, 2]);
    assert_eq!(function.edge_indices(), vec![0, 1, 2]);
    assert!(function.remove_block(1).is_some());
    assert!(function.remove_block(1).is_none());
    assert_eq!(function.node_indices(), vec![0, 2]);
    assert_eq!(function.edge_indices(), vec![2]);
    assert_eq!(function.node_count(), 2);
    assert_eq!(function.edge_count(), 1);
    assert_eq!(function.new_block(), 1);
    assert_eq!(function.block(1).unwrap().0.len(), 0);
}

#[test]
fn numbers_come_back_last_first() {
    let mut function = function(4, &[(0, 1), (1, 2), (3, 1), (0, 2)]);
    function.remove_block(3);
    function.remove_block(1);
    assert_eq!(function.new_block(), 1);
    assert_eq!(function.new_block(), 3);
    assert_eq!(function.new_block(), 4);
    // With block 3 went edge 2, and with block 1 edge 1, which left it, and then
    // edge 0.
    assert_eq!(function.add_edge(1, 3, always()), 0);
    assert_eq!(function.add_edge(3, 4, always()), 1);
    assert_eq!(function.add_edge(4, 0, always()), 2);
    assert_eq!(function.add_edge(4, 1, always()), 4);
    assert_eq!(function.edge_endpoints(3), Some((0, 2)));
}

#[test]
fn edges_carry_what_they_were_given() {
    let mut function = function(3, &[]);
    let first = function.add_edge(0, 1, edge(BranchType::Then));
    let second = function.add_edge(0, 2, edge(BranchType::Else));
    assert_eq!(function.edge_endpoints(first), Some((0, 1)));
    assert_eq!(function.edge_weight(second), Some(edge(BranchType::Else)));
    assert_eq!(function.edge_endpoints(9), None);
    assert_eq!(function.edge_weight(9), None);
    assert_eq!(function.conditional_edges(0), Some((first, second)));
    assert_eq!(function.successor_blocks(0), vec![2, 1]);
    assert_eq!(function.predecessor_count(1), 1);
    assert_eq!(function.predecessor_count(0), 0);
    assert_eq!(function.remove_edge(first), Some(edge(BranchType::Then)));
    assert_eq!(function.remove_edge(first), None);
    assert_eq!(function.conditional_edges(0), None);
    assert_eq!(function.edges(0), vec![(2, edge(BranchType::Else))]);
}

#[test]
fn two_edges_of_one_kind_are_no_branch() {
    let mut function = function(3, &[]);
    function.add_edge(0, 1, edge(BranchType::Then));
    function.add_edge(0, 2, edge(BranchType::Then));
    assert_eq!(function.conditional_edges(0), None);
}

#[test]
fn setting_edges_replaces_those_there_were() {
    let mut function = function(4, &[(0, 1), (1, 2), (1, 3)]);
    let list = function.remove_edges(1);
    assert_eq!(list, vec![(3, always()), (2, always())]);
    assert_eq!(function.edge_count(), 1);
    function.set_edges(0, list);
    assert_eq!(function.successor_blocks(0), vec![2, 3]);
    assert_eq!(function.edge_count(), 2);
}

#[test]
fn statements_are_put_in_front_and_behind() {
    let mut function = function(1, &[]);
    function.push(0, Statement::Call(Handle(2)));
    function.push_front(0, Statement::Call(Handle(1)));
    function.extend(0, Block(vec![Statement::Call(Handle(3)), Statement::Empty]));
    let block = function.block(0).unwrap();
    assert_eq!(block.0.len(), 4);
    assert!(matches!(block.0[0], Statement::Call(Handle(1))));
    assert!(matches!(block.0[1], Statement::Call(Handle(2))));
    assert!(matches!(block.0[2], Statement::Call(Handle(3))));
    assert!(matches!(block.0[3], Statement::Empty));
}

#[test]
fn copies_are_independent() {
    let mut function = function(2, &[(0, 1)]);
    function.push(1, Statement::Call(Handle(5)));
    let copy = function.clone();
    function.remove_block(1);
    assert_eq!(copy.node_indices(), vec![0, 1]);
    assert_eq!(copy.edge_endpoints(0), Some((0, 1)));
    assert!(matches!(copy.block(1).unwrap().0[0], Statement::Call(Handle(5))));
    assert_eq!(copy.entry(), Some(0));
    assert_eq!(copy.id(), 7);
}

#[test]
fn what_can_be_reached_is_found() {
    let function = function(5, &[(0, 1), (1, 2), (3, 4), (2, 0)]);
    assert_eq!(sorted(function.reachable(0)), vec![0, 1, 2]);
    assert_eq!(sorted(function.reachable(3)), vec![3, 4]);
    assert_eq!(function.reachable(4), vec![4]);
}

#[test]
fn back_edges_lead_to_loop_headers() {
    let looped = function(4, &[(0, 1), (1, 2), (2, 1), (2, 3)]);
    let straight = function(3, &[(0, 1), (1, 2), (0, 2)]);
    assert!(!straight.search(0).iter().any(|event| matches!(event, SearchEvent::BackEdge(_, _))));
    let structurer = GraphStructurer::new(looped);
    assert!(structurer.is_loop_header(1));
    assert!(!structurer.is_loop_header(0));
    assert!(!structurer.is_loop_header(2));
}

#[test]
fn every_cycle_holds_a_loop_header() {
    let headers = |count: usize, edges: &[(u32, u32)]| -> Vec<u32> {
        let structurer = GraphStructurer::new(function(count, edges));
        (0..count as u32).filter(|&n| structurer.is_loop_header(n)).collect()
    };
    assert_eq!(headers(4, &[(0, 1), (0, 2), (1, 3), (2, 3)]), Vec::<u32>::new());
    assert_eq!(headers(2, &[(0, 1), (1, 1)]), vec![1]);
    // The other end of the back edge is none.
    assert_eq!(headers(3, &[(0, 1), (1, 2), (2, 1)]), vec![1]);
    assert_eq!(headers(4, &[(0, 1), (1, 2), (2, 1), (2, 3), (3, 0)]), vec![0, 1]);
    // A cycle that can be entered at two places holds one all the same.
    assert_eq!(headers(3, &[(0, 1), (0, 2), (1, 2), (2, 1)]).len(), 1);
    // A cycle that the entry does not lead to is not looked at.
    assert_eq!(headers(3, &[(1, 2), (2, 1)]), Vec::<u32>::new());
}

#[test]
fn a_search_tells_what_it_comes_upon() {
    let function = function(3, &[(0, 1), (1, 0), (0, 2), (1, 2)]);
    assert_eq!(
        function.search(0),
        vec![
            SearchEvent::Discover(0),
            SearchEvent::TreeEdge(0, 2),
            SearchEvent::Discover(2),
            SearchEvent::Finish(2),
            SearchEvent::TreeEdge(0, 1),
            SearchEvent::Discover(1),
            SearchEvent::CrossForwardEdge(1, 2),
            SearchEvent::BackEdge(1, 0),
            SearchEvent::Finish(1),
            SearchEvent::Finish(0),
        ]
    );
}

#[test]
fn a_search_tells_every_edge() {
    let function = function(2, &[(0, 1), (0, 1), (1, 1)]);
    assert_eq!(
        function.search(0),
        vec![
            SearchEvent::Discover(0),
            SearchEvent::TreeEdge(0, 1),
            SearchEvent::Discover(1),
            SearchEvent::BackEdge(1, 1),
            SearchEvent::Finish(1),
            SearchEvent::CrossForwardEdge(0, 1),
            SearchEvent::Finish(0),
        ]
    );
    assert_eq!(
        function.search(1),
        vec![
            SearchEvent::Discover(1),
            SearchEvent::BackEdge(1, 1),
            SearchEvent::Finish(1),
        ]
    );
}

#[test]
fn dominators_are_on_every_path() {
    let function = function(6, &[(0, 1), (1, 2), (1, 3), (2, 4), (3, 4)]);
    let dominators = function.dominators(0);
    let of = |n: u32| -> Option<Vec<usize>> {
        dominators.dominators(NodeIndex::from(n)).map(|list| list.map(|m| m.index()).collect())
    };
    assert_eq!(of(4), Some(vec![4, 1, 0]));
    assert_eq!(of(0), Some(vec![0]));
    assert_eq!(of(5), None);
}

#[test]
fn post_dominators_are_on_every_way_out() {
    let mut graph = FlowGraph::default();
    let nodes: Vec<_> = (0..4).map(|_| graph.add_node(())).collect();
    for (a, b) in [(0, 1), (0, 2), (1, 3), (2, 3)] {
        graph.add_edge(nodes[a], nodes[b], always());
    }
    let dominance = post_dominators(&mut graph);
    let of = |n: usize| -> Vec<usize> {
        dominance.dominators(nodes[n]).unwrap().map(|m| m.index()).collect()
    };
    assert_eq!(&of(0)[..2], &[0, 3]);
    assert_eq!(&of(1)[..2], &[1, 3]);
    assert_eq!(of(3)[0], 3);
    assert_eq!(of(0).len(), 3);
}

#[test]
fn looking_for_post_dominators_changes_nothing() {
    let mut looped = function(5, &[(0, 1), (1, 2), (2, 1), (1, 3), (0, 4)]);
    let dominance = looped.post_dominators();
    assert_eq!(looped.node_indices(), vec![0, 1, 2, 3, 4]);
    assert_eq!(looped.edge_indices(), vec![0, 1, 2, 3, 4]);
    assert_eq!(looped.successor_blocks(1), vec![3, 2]);
    assert_eq!(looped.predecessor_count(1), 2);
    let of: Vec<usize> =
        dominance.dominators(NodeIndex::new(2)).unwrap().map(|m| m.index()).collect();
    assert_eq!(&of[..3], &[2, 1, 3]);
}

#[test]
fn a_loop_without_a_way_out_has_no_post_dominators() {
    let mut endless = function(2, &[(0, 1), (1, 0)]);
    let dominance = endless.post_dominators();
    assert!(dominance.dominators(NodeIndex::new(0)).is_none());
    assert!(dominance.dominators(NodeIndex::new(1)).is_none());
}

#[test]
fn walks_go_in_postorder_while_the_function_changes() {
    let mut function = function(4, &[(0, 1), (0, 2), (1, 3)]);
    let mut walk = Walk::new(&function, 0);
    assert!(matches!(walk.next(&function), Ok(Some(3))));
    assert!(matches!(walk.next(&function), Ok(Some(1))));
    function.remove_block(3);
    function.add_edge(2, 1, always());
    assert!(matches!(walk.next(&function), Ok(Some(2))));
    assert!(matches!(walk.next(&function), Ok(Some(0))));
    assert!(matches!(walk.next(&function), Ok(None)));
}

#[test]
fn what_is_reached_comes_first_where_nothing_changes() {
    let edges = [(0, 1), (0, 2), (1, 3), (2, 3), (3, 4), (1, 4), (5, 0)];
    let function = function(6, &edges);
    let mut walk = Walk::new(&function, 0);
    let mut order = vec![];
    while let Ok(Some(node)) = walk.next(&function) {
        order.push(node);
    }
    let place = |n: u32| order.iter().position(|&m| m == n);
    for (source, target) in edges {
        if source != 5 {
            assert!(place(target) < place(source));
        }
    }
    assert_eq!(order.len(), 5);
    assert_eq!(place(5), None);
}

#[test]
fn a_walk_can_outgrow_its_start() {
    let mut function = function(3, &[(0, 1), (0, 2)]);
    let mut walk = Walk::new(&function, 0);
    assert!(matches!(walk.next(&function), Ok(Some(1))));
    let new = function.new_block();
    function.add_edge(2, new, always());
    assert!(walk.next(&function).is_err());
}

#[test]
fn a_start_must_be_at_a_number_in_use() {
    let mut function = function(2, &[(0, 1)]);
    assert!(function.has_start());
    assert!(function.has_room());
    assert_eq!(function.node_bound(), 2);
    assert_eq!(function.exit_count(), 1);
    function.set_entry(2);
    assert!(!function.has_start());
}
