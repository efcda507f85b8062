use restructure::ast::{
    Assign, Block, Comment, GenericFor, Goto, Handle, If, LValue, Label, Literal, NumericFor,
    RValue, RcLocal, Repeat, Return, Statement, While,
};
use restructure::cfg::Function;
use restructure::structurer::GraphStructurer;

fn label(name: &str) -> Statement {
    Statement::Label(Label(name.to_string()))
}

fn goto(name: &str) -> Statement {
    Statement::Goto(Goto(Label(name.to_string())))
}

fn comment(text: &str) -> Statement {
    Statement::Comment(Comment { text: text.to_string() })
}

fn truth() -> RValue {
    RValue::Literal(Literal::Boolean(true))
}

fn assign() -> Statement {
    Statement::Assign(Assign {
        left: vec![LValue::Local(RcLocal::default())],
        right: vec![truth()],
    })
}

fn condition(then_block: Vec<Statement>, else_block: Vec<Statement>) -> Statement {
    Statement::If(If {
        condition: truth(),
        then_block: Block(then_block),
        else_block: Block(else_block),
    })
}

fn names(labels: &[Label]) -> Vec<String> {
    labels.iter().map(|l| l.0.clone()).collect()
}

#[test]
fn remap_labels_recurses_into_nested_blocks() {
    let mut function = Function::new(0);
    let node = function.new_block();
    function.set_entry(node);

    let inner_block = Block(vec![label("inner")]);
    let outer_block = Block(vec![Statement::If(If {
        condition: RValue::Literal(Literal::Boolean(true)),
        then_block: inner_block,
        else_block: Block(vec![]),
    })]);

    let mut structurer = GraphStructurer::new(function);
    structurer.remap_labels(&outer_block, node);

    assert_eq!(structurer.node_of_label(&Label("inner".to_string())), Some(node));
}

#[test]
fn inlineable_block_strips_leading_label() {
    let block = Block(vec![
        label("target"),
        Statement::Assign(Assign {
            left: vec![LValue::Local(RcLocal::default())],
            right: vec![RValue::Literal(Literal::Boolean(true))],
        }),
    ]);

    let inlineable = GraphStructurer::inlineable_block(&block).unwrap();
    assert!(!matches!(inlineable.0.first(), Some(Statement::Label(_))));
    assert!(matches!(inlineable.0.last(), Some(Statement::Assign(_))));
}

#[test]
fn a_label_behind_the_first_statement_is_not_inlined() {
    let block = Block(vec![assign(), label("late")]);
    assert!(GraphStructurer::inlineable_block(&block).is_none());
    let twice = Block(vec![label("a"), label("b")]);
    assert!(GraphStructurer::inlineable_block(&twice).is_none());
}

#[test]
fn an_empty_block_is_inlined_as_nothing() {
    assert_eq!(GraphStructurer::inlineable_block(&Block(vec![])).unwrap().0.len(), 0);
    assert_eq!(GraphStructurer::inlineable_block(&Block(vec![label("a")])).unwrap().0.len(), 0);
}

#[test]
fn only_plain_statements_are_inlined() {
    let plain = vec![
        Statement::Empty,
        Statement::Call(Handle(1)),
        Statement::MethodCall(Handle(2)),
        assign(),
        Statement::Return(Return { values: vec![truth()] }),
        Statement::Close(Handle(3)),
        Statement::SetList(Handle(4)),
        comment("x"),
    ];
    for statement in &plain {
        assert!(GraphStructurer::statement_is_inlineable(statement));
    }
    let other = vec![
        label("l"),
        goto("l"),
        condition(vec![], vec![]),
        Statement::While(While { condition: truth(), block: Block(vec![]) }),
        Statement::Repeat(Repeat { condition: truth(), block: Block(vec![]) }),
        Statement::NumericFor(NumericFor { header: Handle(5), block: Block(vec![]) }),
        Statement::GenericFor(GenericFor { header: Handle(6), block: Block(vec![]) }),
        Statement::Other(Handle(7)),
    ];
    for statement in &other {
        assert!(!GraphStructurer::statement_is_inlineable(statement));
    }
}

#[test]
fn inlining_copies_the_statements() {
    let block = Block(vec![
        label("l"),
        Statement::Call(Handle(9)),
        comment("kept"),
        Statement::Return(Return { values: vec![RValue::Local(RcLocal(4))] }),
    ]);
    let copy = GraphStructurer::inlineable_block(&block).unwrap();
    assert_eq!(copy.0.len(), 3);
    assert!(matches!(copy.0[0], Statement::Call(Handle(9))));
    assert!(matches!(&copy.0[1], Statement::Comment(c) if c.text == "kept"));
    assert!(
        matches!(&copy.0[2], Statement::Return(r) if r.values == vec![RValue::Local(RcLocal(4))])
    );
    assert_eq!(block.0.len(), 4);
}

#[test]
fn comments_alone_are_a_no_op() {
    assert!(GraphStructurer::block_is_no_op(&Block(vec![])));
    assert!(GraphStructurer::block_is_no_op(&Block(vec![comment("a"), comment("b")])));
    assert!(!GraphStructurer::block_is_no_op(&Block(vec![comment("a"), Statement::Empty])));
    assert!(!GraphStructurer::block_is_no_op(&Block(vec![label("a")])));
}

#[test]
fn only_a_label_in_front_names_a_block() {
    assert!(GraphStructurer::starts_with_label(&Block(vec![label("a"), assign()])));
    assert!(!GraphStructurer::starts_with_label(&Block(vec![assign(), label("a")])));
    assert!(!GraphStructurer::starts_with_label(&Block(vec![])));
}

#[test]
fn labels_are_collected_from_every_kind_of_block() {
    let block = Block(vec![
        label("a"),
        condition(vec![label("b")], vec![label("c")]),
        Statement::While(While { condition: truth(), block: Block(vec![label("d")]) }),
        Statement::Repeat(Repeat { condition: truth(), block: Block(vec![label("e")]) }),
        Statement::NumericFor(NumericFor { header: Handle(0), block: Block(vec![label("f")]) }),
        Statement::GenericFor(GenericFor {
            header: Handle(0),
            block: Block(vec![condition(vec![], vec![label("g")])]),
        }),
        goto("not a label"),
    ]);
    let mut labels = vec![Label("first".to_string())];
    GraphStructurer::collect_labels(&block, &mut labels);
    assert_eq!(names(&labels), vec!["first", "a", "b", "c", "d", "e", "f", "g"]);
}

#[test]
fn gotos_are_collected_from_every_kind_of_block() {
    let block = Block(vec![
        goto("a"),
        condition(vec![goto("b")], vec![goto("c")]),
        Statement::While(While { condition: truth(), block: Block(vec![goto("d")]) }),
        Statement::Repeat(Repeat { condition: truth(), block: Block(vec![goto("e")]) }),
        Statement::NumericFor(NumericFor { header: Handle(0), block: Block(vec![goto("f")]) }),
        Statement::GenericFor(GenericFor {
            header: Handle(0),
            block: Block(vec![condition(vec![goto("a")], vec![])]),
        }),
        label("not a goto"),
    ]);
    let mut gotos = Vec::new();
    GraphStructurer::collect_gotos(&block, &mut gotos);
    assert_eq!(names(&gotos), vec!["a", "b", "c", "d", "e", "f", "a"]);
}

#[test]
fn a_last_return_of_nothing_goes() {
    let rest = GraphStructurer::remove_last_return(Block(vec![
        assign(),
        Statement::Return(Return { values: vec![] }),
    ]));
    assert_eq!(rest.0.len(), 1);
    assert!(matches!(rest.0[0], Statement::Assign(_)));
}

#[test]
fn other_returns_stay() {
    let full = GraphStructurer::remove_last_return(Block(vec![Statement::Return(Return {
        values: vec![truth()],
    })]));
    assert_eq!(full.0.len(), 1);
    let early = GraphStructurer::remove_last_return(Block(vec![
        Statement::Return(Return { values: vec![] }),
        assign(),
    ]));
    assert_eq!(early.0.len(), 2);
    let twice = GraphStructurer::remove_last_return(Block(vec![
        Statement::Return(Return { values: vec![] }),
        Statement::Return(Return { values: vec![] }),
    ]));
    assert_eq!(twice.0.len(), 1);
    assert_eq!(GraphStructurer::remove_last_return(Block(vec![])).0.len(), 0);
}

#[test]
fn remapping_overrides_and_leaves_the_rest() {
    let mut function = Function::new(0);
    let first = function.new_block();
    let second = function.new_block();
    function.set_entry(first);
    let mut structurer = GraphStructurer::new(function);
    structurer.remap_labels(&Block(vec![label("a"), label("b")]), first);
    structurer.remap_labels(&Block(vec![label("b")]), second);
    assert_eq!(structurer.node_of_label(&Label("a".to_string())), Some(first));
    assert_eq!(structurer.node_of_label(&Label("b".to_string())), Some(second));
    assert_eq!(structurer.node_of_label(&Label("c".to_string())), None);
}
