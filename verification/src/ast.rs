//! The syntax that control flow is structured into.
//!
//! Only what structuring looks at is spelled out.  Everything else (calls,
//! expressions, loop bounds) is carried through untouched as a [`Handle`] into
//! whatever table the caller keeps its syntax in.

use vstd::prelude::*;

verus! {

/// A piece of syntax that is kept by the caller.
#[derive(Clone, Copy, Debug, PartialEq, Eq, Structural)]
pub struct Handle(pub u64);

/// A local variable.
#[derive(Clone, Copy, Debug, PartialEq, Eq, Structural)]
pub struct RcLocal(pub u64);

impl Default for RcLocal {
    fn default() -> (local: Self)
        ensures
            local == RcLocal(0),
    {
        RcLocal(0)
    }
}

/// A constant.
#[derive(Clone, Copy, Debug, PartialEq, Eq, Structural)]
pub enum Literal {
    Nil,
    Boolean(bool),
    Number(Handle),
    String(Handle),
}

/// An expression.
#[derive(Clone, Copy, Debug, PartialEq, Eq, Structural)]
pub enum RValue {
    Local(RcLocal),
    Literal(Literal),
    Expression(Handle),
}

/// The target of an assignment.
#[derive(Clone, Copy, Debug, PartialEq, Eq, Structural)]
pub enum LValue {
    Local(RcLocal),
    Expression(Handle),
}

/// The name of a place that can be jumped to.
#[derive(Debug)]
pub struct Label(pub String);

/// A jump to a label.
#[derive(Debug)]
pub struct Goto(pub Label);

/// A remark in the output.
#[derive(Debug)]
pub struct Comment {
    pub text: String,
}

/// `left = right`, pairwise.
#[derive(Debug)]
pub struct Assign {
    pub left: Vec<LValue>,
    pub right: Vec<RValue>,
}

/// `return values`.
#[derive(Debug)]
pub struct Return {
    pub values: Vec<RValue>,
}

/// `if condition then then_block else else_block end`.
#[derive(Debug)]
pub struct If {
    pub condition: RValue,
    pub then_block: Block,
    pub else_block: Block,
}

/// `while condition do block end`.
#[derive(Debug)]
pub struct While {
    pub condition: RValue,
    pub block: Block,
}

/// `repeat block until condition`.
#[derive(Debug)]
pub struct Repeat {
    pub condition: RValue,
    pub block: Block,
}

/// `for header do block end`, counting.
#[derive(Debug)]
pub struct NumericFor {
    pub header: Handle,
    pub block: Block,
}

/// `for header do block end`, over an iterator.
#[derive(Debug)]
pub struct GenericFor {
    pub header: Handle,
    pub block: Block,
}

/// One statement.
#[derive(Debug)]
pub enum Statement {
    Empty,
    Call(Handle),
    MethodCall(Handle),
    Assign(Assign),
    Return(Return),
    Close(Handle),
    SetList(Handle),
    Comment(Comment),
    Label(Label),
    Goto(Goto),
    If(If),
    While(While),
    Repeat(Repeat),
    NumericFor(NumericFor),
    GenericFor(GenericFor),
    /// Any statement that structuring neither opens nor moves.
    Other(Handle),
}

/// A list of statements.
#[derive(Debug)]
pub struct Block(pub Vec<Statement>);

/// What a [`Statement`] says, as a mathematical value.
#[verifier::ext_equal]
pub enum Stmt {
    Empty,
    Call(Handle),
    MethodCall(Handle),
    Assign { left: Seq<LValue>, right: Seq<RValue> },
    Return { values: Seq<RValue> },
    Close(Handle),
    SetList(Handle),
    Comment { text: Seq<char> },
    Label { name: Seq<char> },
    Goto { label: Seq<char> },
    If { condition: RValue, then_block: Seq<Stmt>, else_block: Seq<Stmt> },
    While { condition: RValue, body: Seq<Stmt> },
    Repeat { condition: RValue, body: Seq<Stmt> },
    NumericFor { header: Handle, body: Seq<Stmt> },
    GenericFor { header: Handle, body: Seq<Stmt> },
    Other(Handle),
}

/// The value of one statement.
pub open spec fn statement_view(statement: Statement) -> Stmt
    decreases statement,
{
    match statement {
        Statement::Empty => Stmt::Empty,
        Statement::Call(handle) => Stmt::Call(handle),
        Statement::MethodCall(handle) => Stmt::MethodCall(handle),
        Statement::Assign(assign) => Stmt::Assign { left: assign.left@, right: assign.right@ },
        Statement::Return(ret) => Stmt::Return { values: ret.values@ },
        Statement::Close(handle) => Stmt::Close(handle),
        Statement::SetList(handle) => Stmt::SetList(handle),
        Statement::Comment(comment) => Stmt::Comment { text: comment.text@ },
        Statement::Label(label) => Stmt::Label { name: label.0@ },
        Statement::Goto(goto) => Stmt::Goto { label: goto.0.0@ },
        Statement::If(branch) => Stmt::If {
            condition: branch.condition,
            then_block: statements_view(branch.then_block.0@),
            else_block: statements_view(branch.else_block.0@),
        },
        Statement::While(lp) => Stmt::While {
            condition: lp.condition,
            body: statements_view(lp.block.0@),
        },
        Statement::Repeat(lp) => Stmt::Repeat {
            condition: lp.condition,
            body: statements_view(lp.block.0@),
        },
        Statement::NumericFor(lp) => Stmt::NumericFor {
            header: lp.header,
            body: statements_view(lp.block.0@),
        },
        Statement::GenericFor(lp) => Stmt::GenericFor {
            header: lp.header,
            body: statements_view(lp.block.0@),
        },
        Statement::Other(handle) => Stmt::Other(handle),
    }
}

/// The values of a list of statements, in order.
pub open spec fn statements_view(statements: Seq<Statement>) -> Seq<Stmt>
    decreases statements,
{
    if statements.len() == 0 {
        Seq::empty()
    } else {
        statements_view(statements.drop_last()).push(statement_view(statements.last()))
    }
}

impl View for Statement {
    type V = Stmt;

    open spec fn view(&self) -> Stmt {
        statement_view(*self)
    }
}

impl View for Block {
    type V = Seq<Stmt>;

    open spec fn view(&self) -> Seq<Stmt> {
        statements_view(self.0@)
    }
}

/// A block has one value for each of its statements.
pub proof fn lemma_statements_view(statements: Seq<Statement>)
    ensures
        statements_view(statements).len() == statements.len(),
        forall|i: int|
            0 <= i < statements.len() ==> #[trigger] statements_view(statements)[i]
                == statement_view(statements[i]),
    decreases statements.len(),
{
    if statements.len() > 0 {
        lemma_statements_view(statements.drop_last());
    }
}

/// Joining two lists of statements joins their values.
pub proof fn lemma_statements_view_add(a: Seq<Statement>, b: Seq<Statement>)
    ensures
        statements_view(a + b) == statements_view(a) + statements_view(b),
{
    lemma_statements_view(a);
    lemma_statements_view(b);
    lemma_statements_view(a + b);
    assert(statements_view(a + b) =~= statements_view(a) + statements_view(b));
}

fn copy_lvalues(values: &Vec<LValue>) -> (copy: Vec<LValue>)
    ensures
        copy@ == values@,
{
    let mut copy: Vec<LValue> = Vec::new();
    for i in 0..values.len()
        invariant
            copy@ == values@.take(i as int),
    {
        copy.push(values[i]);
    }
    copy
}

fn copy_rvalues(values: &Vec<RValue>) -> (copy: Vec<RValue>)
    ensures
        copy@ == values@,
{
    let mut copy: Vec<RValue> = Vec::new();
    for i in 0..values.len()
        invariant
            copy@ == values@.take(i as int),
    {
        copy.push(values[i]);
    }
    copy
}

impl Clone for Label {
    fn clone(&self) -> (copy: Self)
        ensures
            copy.0@ == self.0@,
    {
        Label(self.0.clone())
    }
}

impl Clone for Statement {
    fn clone(&self) -> (copy: Self)
        ensures
            copy@ == self@,
        decreases self,
    {
        match self {
            Statement::Empty => Statement::Empty,
            Statement::Call(handle) => Statement::Call(*handle),
            Statement::MethodCall(handle) => Statement::MethodCall(*handle),
            Statement::Assign(assign) => Statement::Assign(
                Assign { left: copy_lvalues(&assign.left), right: copy_rvalues(&assign.right) },
            ),
            Statement::Return(ret) => Statement::Return(
                Return { values: copy_rvalues(&ret.values) },
            ),
            Statement::Close(handle) => Statement::Close(*handle),
            Statement::SetList(handle) => Statement::SetList(*handle),
            Statement::Comment(comment) => Statement::Comment(
                Comment { text: comment.text.clone() },
            ),
            Statement::Label(label) => Statement::Label(label.clone()),
            Statement::Goto(goto) => Statement::Goto(Goto(goto.0.clone())),
            Statement::If(branch) => Statement::If(
                If {
                    condition: branch.condition,
                    then_block: branch.then_block.clone(),
                    else_block: branch.else_block.clone(),
                },
            ),
            Statement::While(lp) => Statement::While(
                While { condition: lp.condition, block: lp.block.clone() },
            ),
            Statement::Repeat(lp) => Statement::Repeat(
                Repeat { condition: lp.condition, block: lp.block.clone() },
            ),
            Statement::NumericFor(lp) => Statement::NumericFor(
                NumericFor { header: lp.header, block: lp.block.clone() },
            ),
            Statement::GenericFor(lp) => Statement::GenericFor(
                GenericFor { header: lp.header, block: lp.block.clone() },
            ),
            Statement::Other(handle) => Statement::Other(*handle),
        }
    }
}

impl Clone for Block {
    fn clone(&self) -> (copy: Self)
        ensures
            copy@ == self@,
        decreases self,
    {
        let mut statements: Vec<Statement> = Vec::new();
        for i in 0..self.0.len()
            invariant
                statements_view(statements@) == statements_view(self.0@.take(i as int)),
        {
            let statement = self.0[i].clone();
            proof {
                let so_far = self.0@.take(i as int);
                assert(self.0@.take(i + 1) =~= so_far.push(self.0@[i as int]));
                assert(so_far.push(self.0@[i as int]).drop_last() =~= so_far);
                assert(statements@.push(statement).drop_last() =~= statements@);
            }
            statements.push(statement);
        }
        assert(self.0@.take(self.0@.len() as int) =~= self.0@);
        Block(statements)
    }
}

/// The value of a statement tells everything that the statement does.
pub proof fn values_tell_everything(statement: Statement, block: Seq<Statement>)
    ensures
        statement@ == match statement {
            Statement::Empty => Stmt::Empty,
            Statement::Call(handle) => Stmt::Call(handle),
            Statement::MethodCall(handle) => Stmt::MethodCall(handle),
            Statement::Assign(assign) => Stmt::Assign { left: assign.left@, right: assign.right@ },
            Statement::Return(ret) => Stmt::Return { values: ret.values@ },
            Statement::Close(handle) => Stmt::Close(handle),
            Statement::SetList(handle) => Stmt::SetList(handle),
            Statement::Comment(comment) => Stmt::Comment { text: comment.text@ },
            Statement::Label(label) => Stmt::Label { name: label.0@ },
            Statement::Goto(goto) => Stmt::Goto { label: goto.0.0@ },
            Statement::If(branch) => Stmt::If {
                condition: branch.condition,
                then_block: branch.then_block@,
                else_block: branch.else_block@,
            },
            Statement::While(lp) => Stmt::While { condition: lp.condition, body: lp.block@ },
            Statement::Repeat(lp) => Stmt::Repeat { condition: lp.condition, body: lp.block@ },
            Statement::NumericFor(lp) => Stmt::NumericFor { header: lp.header, body: lp.block@ },
            Statement::GenericFor(lp) => Stmt::GenericFor { header: lp.header, body: lp.block@ },
            Statement::Other(handle) => Stmt::Other(handle),
        },
        statements_view(block.push(statement)) == statements_view(block).push(statement@),
        statements_view(Seq::<Statement>::empty()) == Seq::<Stmt>::empty(),
{
    assert(block.push(statement).drop_last() =~= block);
}

} // verus!
