use restructure::ast::{
    Assign, Block, Goto, Handle, If, LValue, Label, Literal, RValue, RcLocal, Return, Statement,
};
use restructure::cfg::Function;
use restructure::emit::lift;
use restructure::flow::{BlockEdge, BranchType, Dominance};
use restructure::patterns::{NoPatterns, Patterns, StructureError};
use restructure::structurer::GraphStructurer;

fn always() -> BlockEdge {
    BlockEdge::new(BranchType::Unconditional)
}

fn call(n: u64) -> Statement {
    Statement::Call(Handle(n))
}

fn label(name: &str) -> Statement {
    Statement::Label(Label(name.to_string()))
}

fn goto(name: &str) -> Statement {
    Statement::Goto(Goto(Label(name.to_string())))
}

/// The text of a block, one word per statement.
fn text(block: &Block) -> Vec<String> {
    block
        .0
        .iter()
        .map(|s| match s {
            Statement::Call(h) => format!("call {}", h.0),
            Statement::Assign(_) => "assign".to_string(),
            Statement::Return(_) => "return".to_string(),
            Statement::Comment(c) => format!("-- {}", c.text),
            Statement::Label(l) => format!("::{}::", l.0),
            Statement::Goto(g) => format!("goto {}", g.0 .0),
            Statement::If(i) => {
                let then_text = text(&i.then_block).join(" ");
                format!("if [{}] [{}]", then_text, text(&i.else_block).join(" "))
            }
            _ => "other".to_string(),
        })
        .collect()
}

/// Blocks that call their own number, with an unconditional edge for every pair.
fn function(count: u64, edges: &[(u32, u32)]) -> Function {
    let mut function = Function::new(0);
    for n in 0..count {
        let node = function.new_block();
        function.push(node, call(n));
    }
    for &(source, target) in edges {
        function.add_edge(source, target, always());
    }
    function.set_entry(0);
    function
}

/// Looks for steps to blocks that nothing else leads to, and for conditions whose
/// two sides end.
struct Joining {
    conditions: bool,
}

impl Patterns for Joining {
    fn try_collapse_loop(
        &self,
        _: &mut GraphStructurer,
        _: u32,
        _: &Dominance,
        _: &Dominance,
    ) -> bool {
        false
    }

    fn try_remove_unnecessary_condition(&self, _: &mut GraphStructurer, _: u32) -> bool {
        false
    }

    fn match_jump(&self, structurer: &mut GraphStructurer, node: u32, target: u32) -> bool {
        if structurer.function.predecessor_count(target) != 1 || node == target {
            return false;
        }
        for edge in structurer.function.edge_indices() {
            if structurer.function.edge_endpoints(edge) == Some((node, target)) {
                structurer.insert_goto_for_edge(edge, false);
                return true;
            }
        }
        false
    }

    fn match_conditional(
        &self,
        structurer: &mut GraphStructurer,
        node: u32,
        then_target: u32,
        else_target: u32,
    ) -> bool {
        let function = &mut structurer.function;
        if !self.conditions
            || function.successor_blocks(then_target).len() > 0
            || function.successor_blocks(else_target).len() > 0
            || function.predecessor_count(then_target) != 1
            || function.predecessor_count(else_target) != 1
        {
            return false;
        }
        let then_block = function.remove_block(then_target).unwrap();
        let else_block = function.remove_block(else_target).unwrap();
        let condition = RValue::Literal(Literal::Boolean(true));
        function.push(node, Statement::If(If { condition, then_block, else_block }));
        true
    }

    fn is_for_next(&self, _: &GraphStructurer, _: u32) -> bool {
        false
    }
}

/// Finds loops, and forgets the entry or grows the function by a block when it does.
struct Careless {
    forgets: bool,
    from: u32,
}

impl Patterns for Careless {
    fn try_collapse_loop(
        &self,
        structurer: &mut GraphStructurer,
        node: u32,
        _: &Dominance,
        _: &Dominance,
    ) -> bool {
        if self.forgets {
            structurer.function.set_entry(100);
            return true;
        }
        if node == 1 {
            let new = structurer.function.new_block();
            structurer.function.add_edge(self.from, new, always());
            return true;
        }
        false
    }

    fn try_remove_unnecessary_condition(&self, _: &mut GraphStructurer, node: u32) -> bool {
        node == 0
    }

    fn match_jump(&self, _: &mut GraphStructurer, _: u32, _: u32) -> bool {
        false
    }

    fn match_conditional(&self, _: &mut GraphStructurer, _: u32, _: u32, _: u32) -> bool {
        false
    }

    fn is_for_next(&self, _: &GraphStructurer, _: u32) -> bool {
        true
    }
}

#[test]
fn a_loop_that_takes_the_entry_with_it_is_an_error() {
    let mut structurer = GraphStructurer::new(function(2, &[(0, 1)]));
    assert_eq!(
        structurer.match_blocks(&Careless { forgets: true, from: 0 }),
        Err(StructureError::MissingEntry)
    );
}

#[test]
fn a_new_block_on_the_way_is_an_error() {
    // 1 is looked at before 2, which then goes on at the new block.
    let mut structurer = GraphStructurer::new(function(3, &[(0, 1), (0, 2)]));
    assert_eq!(
        structurer.match_blocks(&Careless { forgets: false, from: 2 }),
        Err(StructureError::OutgrownWalk)
    );
}

#[test]
fn a_new_block_off_the_way_is_left_alone() {
    let mut structurer = GraphStructurer::new(function(2, &[(0, 1)]));
    assert_eq!(structurer.match_blocks(&Careless { forgets: false, from: 0 }), Ok(true));
    assert_eq!(structurer.function.node_indices(), vec![0, 1, 2]);
    assert_eq!(structurer.function.successor_blocks(0), vec![2, 1]);
}

#[test]
fn a_needless_condition_is_found_before_anything_else() {
    let mut structurer = GraphStructurer::new(function(3, &[(0, 2), (0, 2)]));
    let patterns = Careless { forgets: false, from: 0 };
    let dominators = structurer.function.dominators(0);
    let post_dominators = structurer.function.post_dominators();
    assert_eq!(
        structurer.try_match_pattern(&patterns, 0, &dominators, &post_dominators),
        Ok(true)
    );
    assert_eq!(
        structurer.try_match_pattern(&NoPatterns, 0, &dominators, &post_dominators),
        Err(StructureError::NotABranch(0))
    );
}

fn joining() -> Joining {
    Joining { conditions: true }
}

#[test]
fn a_block_with_one_way_to_it_is_joined() {
    let mut structurer = GraphStructurer::new(function(4, &[(0, 1), (1, 2), (1, 3)]));
    structurer.function.push_front(1, label("l1"));
    structurer.insert_goto_for_edge(0, false);
    assert!(!structurer.function.has_block(1));
    assert_eq!(text(structurer.function.block(0).unwrap()), ["call 0", "::l1::", "call 1"]);
    assert_eq!(structurer.function.successor_blocks(0), vec![2, 3]);
    assert_eq!(structurer.node_of_label(&Label("l1".to_string())), Some(0));
}

#[test]
fn a_simple_target_with_two_ways_to_it_is_repeated() {
    let mut function = Function::new(0);
    let source = function.new_block();
    let target = function.new_block();
    let other_pred = function.new_block();

    function.set_entry(source);
    function.push(
        target,
        Statement::Assign(Assign {
            left: vec![LValue::Local(RcLocal::default())],
            right: vec![RValue::Literal(Literal::Boolean(true))],
        }),
    );
    function.push(target, Statement::Return(Return { values: vec![] }));
    function.set_edges(source, vec![(target, always())]);
    function.set_edges(other_pred, vec![(target, always())]);

    let mut structurer = GraphStructurer::new(function);
    let edge = structurer.function.edge_indices()[0];
    assert_eq!(structurer.function.edge_endpoints(edge), Some((source, target)));
    assert!(structurer.can_give_up(edge, false));
    structurer.insert_goto_for_edge(edge, false);

    let source_block = structurer.function.block(source).unwrap();
    assert_eq!(text(source_block), ["assign", "return"]);
    assert!(structurer.function.has_block(target));
    assert_eq!(structurer.function.successor_blocks(source).len(), 0);
    assert_eq!(structurer.function.predecessor_count(target), 1);
}

#[test]
fn the_head_of_a_counting_loop_is_jumped_to() {
    let mut structurer = GraphStructurer::new(function(3, &[(0, 1), (2, 1)]));
    structurer.insert_goto_for_edge(0, true);
    assert_eq!(text(structurer.function.block(1).unwrap()), ["::l1::", "call 1"]);
    assert_eq!(structurer.function.successor_blocks(0), vec![3]);
    assert_eq!(text(structurer.function.block(3).unwrap()), ["goto l1"]);
    assert_eq!(structurer.node_of_label(&Label("l1".to_string())), Some(1));
    assert_eq!(structurer.function.predecessor_count(1), 1);
}

#[test]
fn a_loop_header_is_jumped_to() {
    let mut structurer = GraphStructurer::new(function(3, &[(0, 1), (1, 2), (2, 1)]));
    structurer.insert_goto_for_edge(2, false);
    assert_eq!(text(structurer.function.block(1).unwrap()), ["::l1::", "call 1"]);
    assert_eq!(text(structurer.function.block(3).unwrap()), ["goto l1"]);
    assert_eq!(structurer.function.successor_blocks(2), vec![3]);
    // The edge to the jump has the number of the one that was given up.
    assert_eq!(structurer.function.edge_endpoints(2), Some((2, 3)));
    assert_eq!(structurer.function.edge_count(), 3);
}

#[test]
fn a_jump_gets_the_number_of_a_block_that_has_gone() {
    let mut structurer = GraphStructurer::new(function(4, &[(0, 1), (2, 1), (0, 3)]));
    structurer.function.remove_block(3);
    structurer.insert_goto_for_edge(0, true);
    assert_eq!(structurer.function.node_indices(), vec![0, 1, 2, 3]);
    assert_eq!(text(structurer.function.block(3).unwrap()), ["goto l1"]);
    assert_eq!(structurer.function.edge_endpoints(0), Some((0, 3)));
}

#[test]
fn the_entry_is_jumped_to() {
    let mut structurer = GraphStructurer::new(function(3, &[(1, 0), (2, 0)]));
    structurer.insert_goto_for_edge(1, false);
    assert_eq!(text(structurer.function.block(0).unwrap()), ["::l0::", "call 0"]);
    assert_eq!(text(structurer.function.block(3).unwrap()), ["goto l0"]);
}

#[test]
fn a_target_with_another_label_keeps_it() {
    let mut structurer = GraphStructurer::new(function(3, &[(1, 0), (2, 0)]));
    structurer.function.push_front(0, label("mine"));
    structurer.insert_goto_for_edge(0, false);
    assert_eq!(text(structurer.function.block(0).unwrap()), ["::mine::", "call 0"]);
    assert_eq!(text(structurer.function.block(3).unwrap()), ["goto l0"]);
    assert_eq!(structurer.node_of_label(&Label("l0".to_string())), None);
}

#[test]
fn a_side_of_a_branch_stays_a_side() {
    let mut function = function(4, &[(3, 2)]);
    let first = function.add_edge(0, 1, BlockEdge::new(BranchType::Then));
    let second = function.add_edge(0, 2, BlockEdge::new(BranchType::Else));
    function.add_edge(2, 0, always());
    let mut structurer = GraphStructurer::new(function);
    assert_eq!(structurer.function.conditional_edges(0), Some((first, second)));
    structurer.insert_goto_for_edge(second, true);
    let (then_edge, else_edge) = structurer.function.conditional_edges(0).unwrap();
    assert_eq!(then_edge, first);
    assert_eq!(structurer.function.edge_endpoints(else_edge), Some((0, 4)));
}

#[test]
fn a_block_cannot_be_joined_to_itself() {
    let structurer = GraphStructurer::new(function(2, &[(1, 1)]));
    assert!(!structurer.can_give_up(0, false));
    assert!(!structurer.can_give_up(5, false));
    let two_ways = GraphStructurer::new(function(3, &[(0, 1), (0, 2)]));
    assert!(!two_ways.can_give_up(0, false));
}

#[test]
fn edges_that_cannot_be_given_up_are_errors() {
    let mut structurer = GraphStructurer::new(function(2, &[(1, 1)]));
    assert_eq!(
        structurer.try_refine_with_edge(&NoPatterns, 0),
        Err(StructureError::CannotGiveUp(0))
    );
    assert_eq!(
        structurer.try_refine_with_edge(&NoPatterns, 9),
        Err(StructureError::CannotGiveUp(9))
    );
    assert_eq!(structurer.collapse(&NoPatterns), Err(StructureError::CannotGiveUp(0)));
}

#[test]
fn a_look_goes_by_the_number_of_successors() {
    let function = function(3, &[(0, 1), (1, 2)]);
    let mut structurer = GraphStructurer::new(function);
    let dominators = structurer.function.dominators(0);
    let post_dominators = structurer.function.post_dominators();
    let patterns = joining();
    assert_eq!(
        structurer.try_match_pattern(&patterns, 2, &dominators, &post_dominators),
        Ok(false)
    );
    assert_eq!(
        structurer.try_match_pattern(&patterns, 1, &dominators, &post_dominators),
        Ok(true)
    );
    assert_eq!(text(structurer.function.block(1).unwrap()), ["call 1", "call 2"]);
}

#[test]
fn more_than_two_successors_are_an_error() {
    let mut structurer = GraphStructurer::new(function(4, &[(0, 1), (0, 2), (0, 3)]));
    assert_eq!(
        structurer.match_blocks(&NoPatterns),
        Err(StructureError::TooManySuccessors(0))
    );
}

#[test]
fn two_successors_must_be_a_branch() {
    let mut structurer = GraphStructurer::new(function(3, &[(0, 1), (0, 2)]));
    assert_eq!(structurer.match_blocks(&NoPatterns), Err(StructureError::NotABranch(0)));
}

#[test]
fn a_lost_entry_is_an_error() {
    let mut structurer = GraphStructurer::new(function(2, &[(0, 1)]));
    structurer.function.set_entry(8);
    assert_eq!(structurer.match_blocks(&NoPatterns), Err(StructureError::MissingEntry));
    assert_eq!(structurer.refine(&NoPatterns), Err(StructureError::MissingEntry));
    assert_eq!(structurer.collapse(&NoPatterns), Err(StructureError::MissingEntry));
    assert_eq!(structurer.write().unwrap_err(), StructureError::MissingEntry);
}

#[test]
fn a_lost_entry_is_found_before_anything_else() {
    // Block 1 would be an error too.
    let mut structurer = GraphStructurer::new(function(4, &[(1, 0), (1, 2), (1, 3)]));
    structurer.function.set_entry(8);
    assert_eq!(structurer.match_blocks(&NoPatterns), Err(StructureError::MissingEntry));
    structurer.function.set_entry(1);
    assert_eq!(structurer.match_blocks(&NoPatterns), Err(StructureError::TooManySuccessors(1)));
}

#[test]
fn without_edges_the_entry_and_labelled_blocks_stay() {
    let mut function = function(5, &[]);
    function.push_front(1, label("a"));
    function.push_front(4, label("b"));
    function.set_entry(2);
    let mut structurer = GraphStructurer::new(function);
    for _ in 0..2 {
        assert_eq!(structurer.match_blocks(&NoPatterns), Ok(false));
        assert_eq!(structurer.function.node_indices(), vec![1, 2, 4]);
        assert_eq!(text(structurer.function.block(2).unwrap()), ["call 2"]);
        assert_eq!(text(structurer.function.block(4).unwrap()), ["::b::", "call 4"]);
    }
}

#[test]
fn without_edges_labelled_blocks_are_written_in_ascending_order() {
    let mut function = function(5, &[]);
    function.push_front(4, label("b"));
    function.push_front(1, label("a"));
    function.push(2, Statement::Return(Return { values: vec![] }));
    function.set_entry(2);
    let block = lift(function, &NoPatterns).unwrap();
    assert_eq!(
        text(&block),
        ["-- block 2", "call 2", "return", "::a::", "call 1", "::b::", "call 4"]
    );
}

#[test]
fn without_edges_and_labels_only_the_entry_is_written() {
    let mut function = function(3, &[]);
    function.push(2, Statement::Return(Return { values: vec![] }));
    function.set_entry(2);
    let block = lift(function, &NoPatterns).unwrap();
    assert_eq!(text(&block), ["call 2"]);
}

#[test]
fn dead_blocks_go_unless_a_label_names_them() {
    let mut structurer = GraphStructurer::new(function(5, &[(0, 1), (2, 3)]));
    structurer.function.push_front(4, label("l4"));
    assert_eq!(structurer.match_blocks(&NoPatterns), Ok(false));
    // 3 has no way to it any more once 2 is gone.
    assert_eq!(structurer.function.node_indices(), vec![0, 1, 4]);
    assert_eq!(text(structurer.function.block(0).unwrap()), ["call 0"]);
}

#[test]
fn a_dead_block_that_something_leads_to_stays() {
    let mut structurer = GraphStructurer::new(function(4, &[(0, 1), (3, 2)]));
    assert_eq!(structurer.match_blocks(&NoPatterns), Ok(false));
    // 2 is looked at before 3 is gone.
    assert_eq!(structurer.function.node_indices(), vec![0, 1, 2]);
}

#[test]
fn a_chain_of_blocks_becomes_one() {
    let block = lift(function(4, &[(0, 1), (1, 2), (2, 3)]), &joining()).unwrap();
    assert_eq!(text(&block), ["call 0", "call 1", "call 2", "call 3"]);
}

#[test]
fn a_single_block_loses_its_last_return() {
    let mut function = function(2, &[(0, 1)]);
    function.push(1, Statement::Return(Return { values: vec![] }));
    let block = lift(function, &joining()).unwrap();
    assert_eq!(text(&block), ["call 0", "call 1"]);
}

#[test]
fn a_branch_becomes_a_condition() {
    let mut function = function(4, &[(0, 1)]);
    function.add_edge(1, 2, BlockEdge::new(BranchType::Then));
    function.add_edge(1, 3, BlockEdge::new(BranchType::Else));
    let block = lift(function, &joining()).unwrap();
    assert_eq!(text(&block), ["call 0", "call 1", "if [call 2] [call 3]"]);
}

#[test]
fn an_edge_is_given_up_where_that_helps() {
    // 0 branches to 1 and 2, and 1 goes on at 2, so 2 has two ways to it.
    let mut function = function(3, &[]);
    function.add_edge(0, 1, BlockEdge::new(BranchType::Then));
    function.add_edge(0, 2, BlockEdge::new(BranchType::Else));
    let crossing = function.add_edge(1, 2, always());
    let mut structurer = GraphStructurer::new(function);
    let patterns = joining();
    assert_eq!(structurer.match_blocks(&patterns), Ok(false));
    assert_eq!(structurer.try_refine_with_edge(&patterns, crossing), Ok(true));
    assert_eq!(
        text(structurer.function.block(0).unwrap()),
        ["call 0", "if [call 1 call 2] [call 2]"]
    );
    assert_eq!(structurer.function.node_count(), 1);
}

#[test]
fn an_edge_given_up_in_vain_is_taken_back() {
    let mut function = function(3, &[]);
    function.add_edge(0, 1, BlockEdge::new(BranchType::Then));
    function.add_edge(0, 2, BlockEdge::new(BranchType::Else));
    let back = function.add_edge(1, 0, always());
    let mut structurer = GraphStructurer::new(function);
    let patterns = Joining { conditions: false };
    assert_eq!(structurer.try_refine_with_edge(&patterns, back), Ok(false));
    assert_eq!(structurer.function.node_indices(), vec![0, 1, 2]);
    assert_eq!(structurer.function.edge_indices(), vec![0, 1, 2]);
    assert_eq!(structurer.function.edge_endpoints(back), Some((1, 0)));
    assert_eq!(text(structurer.function.block(0).unwrap()), ["call 0"]);
    assert!(structurer.is_loop_header(0));
    assert_eq!(structurer.node_of_label(&Label("l0".to_string())), None);
}

#[test]
fn loose_edges_are_given_up_first() {
    // The back edge comes first by its number, the edge across is preferred.
    let mut function = function(4, &[]);
    function.add_edge(3, 0, always());
    function.add_edge(0, 1, BlockEdge::new(BranchType::Then));
    function.add_edge(0, 2, BlockEdge::new(BranchType::Else));
    function.add_edge(1, 2, BlockEdge::new(BranchType::Then));
    function.add_edge(1, 3, BlockEdge::new(BranchType::Else));
    let mut structurer = GraphStructurer::new(function);
    let patterns = joining();
    assert_eq!(structurer.refine(&patterns), Ok(true));
    // 2 was repeated in 1, which does not go on at 3 any more.
    assert_eq!(structurer.function.node_indices(), vec![0]);
    assert_eq!(
        text(structurer.function.block(0).unwrap()),
        ["call 0", "if [call 1 call 2] [call 2]"]
    );
}

#[test]
fn without_patterns_blocks_are_written_one_after_another() {
    let block = lift(function(3, &[(0, 1), (1, 2)]), &NoPatterns).unwrap();
    assert_eq!(
        text(&block),
        ["-- block 0", "call 0", "-- block 1", "call 1", "-- block 2", "call 2"]
    );
}

#[test]
fn blocks_follow_the_jumps_to_them() {
    let mut function = function(4, &[]);
    function.push(0, goto("l3"));
    function.push(3, goto("l1"));
    function.push_front(3, label("l3"));
    function.push_front(1, label("l1"));
    let mut structurer = GraphStructurer::new(function);
    for node in [1, 3] {
        let block = structurer.function.block(node).unwrap().clone();
        structurer.remap_labels(&block, node);
    }
    let block = structurer.write().unwrap();
    // The gotos to what comes next are dropped.
    assert_eq!(
        text(&block),
        [
            "-- block 0", "call 0", "::l3::", "call 3", "::l1::", "call 1", "-- block 2",
            "call 2"
        ]
    );
}

#[test]
fn gotos_to_elsewhere_stay_and_the_last_is_followed_first() {
    let mut function = function(3, &[]);
    function.push(0, goto("l2"));
    function.push(0, goto("l1"));
    function.push(0, goto("l2"));
    function.push_front(1, label("l1"));
    function.push_front(2, label("l2"));
    let mut structurer = GraphStructurer::new(function);
    for node in [1, 2] {
        let block = structurer.function.block(node).unwrap().clone();
        structurer.remap_labels(&block, node);
    }
    let block = structurer.write().unwrap();
    assert_eq!(
        text(&block),
        [
            "-- block 0", "call 0", "goto l2", "goto l1", "goto l2", "::l1::", "call 1",
            "::l2::", "call 2"
        ]
    );
}

#[test]
fn a_goto_goes_by_the_number_in_its_label() {
    let mut function = function(3, &[]);
    function.push(0, goto("l2"));
    function.push(0, goto("x"));
    function.push(0, goto("l2"));
    function.push_front(1, label("l2"));
    function.push_front(2, label("x"));
    let mut structurer = GraphStructurer::new(function);
    for node in [1, 2] {
        let block = structurer.function.block(node).unwrap().clone();
        structurer.remap_labels(&block, node);
    }
    let block = structurer.write().unwrap();
    // Block 2 comes next, though the label stands in block 1.
    assert_eq!(
        text(&block),
        ["-- block 0", "call 0", "goto l2", "goto x", "::x::", "call 2", "::l2::", "call 1"]
    );
}

#[test]
fn a_goto_without_a_label_is_an_error() {
    let mut function = function(2, &[]);
    function.push(0, goto("nowhere"));
    let structurer = GraphStructurer::new(function);
    assert_eq!(structurer.write().unwrap_err(), StructureError::UnknownLabel);
}

#[test]
fn a_goto_without_a_plain_first_letter_is_an_error() {
    for name in ["", "ß1"] {
        let mut function = function(3, &[]);
        function.push(0, goto(name));
        function.push_front(1, label(name));
        let mut structurer = GraphStructurer::new(function);
        let block = structurer.function.block(1).unwrap().clone();
        structurer.remap_labels(&block, 1);
        assert_eq!(structurer.write().unwrap_err(), StructureError::MalformedLabel);
    }
}

#[test]
fn a_jump_back_is_written() {
    let mut function = function(3, &[(0, 1)]);
    function.add_edge(1, 2, BlockEdge::new(BranchType::Then));
    function.add_edge(1, 0, BlockEdge::new(BranchType::Else));
    let block = lift(function, &joining()).unwrap();
    assert_eq!(
        text(&block),
        ["::l0::", "call 0", "call 1", "if [call 2] [goto l0]"]
    );
}
