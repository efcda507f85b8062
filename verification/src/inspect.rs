//! Questions about statements and blocks that structuring asks.

use vstd::prelude::*;

use crate::ast::{
    lemma_statements_view, statement_view, statements_view, Block, Label, Statement, Stmt,
};
use crate::structurer::GraphStructurer;

verus! {

impl Stmt {
    /// May be repeated at another place: neither a place to jump to, nor a jump,
    /// nor made of blocks.
    pub open spec fn inlineable(self) -> bool {
        self is Empty || self is Call || self is MethodCall || self is Assign || self is Return
            || self is Close || self is SetList || self is Comment
    }
}

/// The block starts with a label.
pub open spec fn labelled(block: Seq<Stmt>) -> bool {
    block.len() > 0 && block[0] is Label
}

/// The block without a label in front.
pub open spec fn without_label(block: Seq<Stmt>) -> Seq<Stmt> {
    if labelled(block) {
        block.skip(1)
    } else {
        block
    }
}

/// Every statement may be repeated at another place.
pub open spec fn all_inlineable(block: Seq<Stmt>) -> bool {
    forall|i: int| 0 <= i < block.len() ==> (#[trigger] block[i]).inlineable()
}

/// What of a block can stand at the place of a jump to it: all but a label in
/// front, where all of that can be repeated.
pub open spec fn inlineable(block: Seq<Stmt>) -> Option<Seq<Stmt>> {
    if all_inlineable(without_label(block)) {
        Some(without_label(block))
    } else {
        None
    }
}

/// Nothing but comments.
pub open spec fn no_op(block: Seq<Stmt>) -> bool {
    forall|i: int| 0 <= i < block.len() ==> #[trigger] block[i] is Comment
}

/// The labels that a statement sets, also those in blocks inside it, in the
/// order of the text.
pub open spec fn statement_labels(statement: Stmt) -> Seq<Seq<char>>
    decreases statement,
{
    match statement {
        Stmt::Label { name } => seq![name],
        Stmt::If { condition, then_block, else_block } => labels_in(then_block) + labels_in(
            else_block,
        ),
        Stmt::While { condition, body } => labels_in(body),
        Stmt::Repeat { condition, body } => labels_in(body),
        Stmt::NumericFor { header, body } => labels_in(body),
        Stmt::GenericFor { header, body } => labels_in(body),
        _ => Seq::empty(),
    }
}

/// The labels that a block sets, also those in blocks inside it, in the order of
/// the text.
pub open spec fn labels_in(block: Seq<Stmt>) -> Seq<Seq<char>>
    decreases block,
{
    if block.len() == 0 {
        Seq::empty()
    } else {
        labels_in(block.drop_last()) + statement_labels(block.last())
    }
}

/// The labels that a statement jumps to, also from blocks inside it, in the
/// order of the text.
pub open spec fn statement_gotos(statement: Stmt) -> Seq<Seq<char>>
    decreases statement,
{
    match statement {
        Stmt::Goto { label } => seq![label],
        Stmt::If { condition, then_block, else_block } => gotos_in(then_block) + gotos_in(
            else_block,
        ),
        Stmt::While { condition, body } => gotos_in(body),
        Stmt::Repeat { condition, body } => gotos_in(body),
        Stmt::NumericFor { header, body } => gotos_in(body),
        Stmt::GenericFor { header, body } => gotos_in(body),
        _ => Seq::empty(),
    }
}

/// The labels that a block jumps to, also from blocks inside it, in the order of
/// the text.
pub open spec fn gotos_in(block: Seq<Stmt>) -> Seq<Seq<char>>
    decreases block,
{
    if block.len() == 0 {
        Seq::empty()
    } else {
        gotos_in(block.drop_last()) + statement_gotos(block.last())
    }
}

/// The block without a `return` of nothing at its end.
pub open spec fn without_last_return(block: Seq<Stmt>) -> Seq<Stmt> {
    if block.len() > 0 && block.last() is Return && block.last()->values.len() == 0 {
        block.drop_last()
    } else {
        block
    }
}

/// The names of a list of labels.
pub open spec fn names(labels: Seq<Label>) -> Seq<Seq<char>> {
    labels.map_values(|label: Label| label.0@)
}

impl GraphStructurer {
    pub fn block_is_no_op(block: &Block) -> (found: bool)
        ensures
            found == no_op(block@),
    {
        proof {
            lemma_statements_view(block.0@);
        }
        for i in 0..block.0.len()
            invariant
                block@.len() == block.0@.len(),
                forall|j: int|
                    0 <= j < block.0@.len() ==> #[trigger] block@[j] == statement_view(block.0@[j]),
                forall|j: int| 0 <= j < i ==> #[trigger] block@[j] is Comment,
        {
            match &block.0[i] {
                Statement::Comment(_) => {},
                _ => {
                    assert(!(block@[i as int] is Comment));
                    return false;
                },
            }
        }
        true
    }

    pub fn statement_is_inlineable(statement: &Statement) -> (found: bool)
        ensures
            found == statement@.inlineable(),
    {
        match statement {
            Statement::Empty => true,
            Statement::Call(_) => true,
            Statement::MethodCall(_) => true,
            Statement::Assign(_) => true,
            Statement::Return(_) => true,
            Statement::Close(_) => true,
            Statement::SetList(_) => true,
            Statement::Comment(_) => true,
            _ => false,
        }
    }

    /// Whether a block starts with a label.
    pub fn starts_with_label(block: &Block) -> (found: bool)
        ensures
            found == labelled(block@),
    {
        proof {
            lemma_statements_view(block.0@);
        }
        if block.0.len() == 0 {
            return false;
        }
        assert(block@[0] == statement_view(block.0@[0]));
        match &block.0[0] {
            Statement::Label(_) => true,
            _ => false,
        }
    }

    /// What of a block can stand at the place of a jump to it.
    pub fn inlineable_block(block: &Block) -> (copy: Option<Block>)
        ensures
            copy is Some <==> inlineable(block@) is Some,
            copy is Some ==> copy->0@ == inlineable(block@)->0,
    {
        let skip: usize = if Self::starts_with_label(block) {
            1
        } else {
            0
        };
        let mut copy: Vec<Statement> = Vec::new();
        let ghost body = without_label(block@);
        proof {
            lemma_statements_view(block.0@);
            assert(block@.skip(0) =~= block@);
        }
        for i in skip..block.0.len()
            invariant
                block@.len() == block.0@.len(),
                forall|j: int|
                    0 <= j < block.0@.len() ==> #[trigger] block@[j] == statement_view(block.0@[j]),
                skip <= block.0@.len(),
                body == block@.skip(skip as int),
                body == without_label(block@),
                forall|j: int| 0 <= j < i - skip ==> (#[trigger] body[j]).inlineable(),
                statements_view(copy@) == body.take(i - skip),
        {
            assert(body[i - skip] == statement_view(block.0@[i as int]));
            if !Self::statement_is_inlineable(&block.0[i]) {
                return None;
            }
            let ghost before = copy@;
            copy.push(block.0[i].clone());
            proof {
                assert(copy@.drop_last() =~= before);
                assert(body.take(i + 1 - skip) =~= body.take(i - skip).push(body[i - skip]));
            }
        }
        assert(body.take(body.len() as int) =~= body);
        Some(Block(copy))
    }

    /// Adds the labels that a block sets to a list.
    pub fn collect_labels(block: &Block, labels: &mut Vec<Label>)
        ensures
            names(final(labels)@) == names(old(labels)@) + labels_in(block@),
        decreases block,
    {
        assert(block.0@.take(0) =~= Seq::empty());
        assert(names(labels@) =~= names(labels@) + Seq::empty());
        for i in 0..block.0.len()
            invariant
                names(labels@) == names(old(labels)@) + labels_in(
                    statements_view(block.0@.take(i as int)),
                ),
        {
            let ghost so_far = labels@;
            match &block.0[i] {
                Statement::Label(label) => {
                    labels.push(label.clone());
                    assert(names(labels@) =~= names(so_far) + seq![label.0@]);
                },
                Statement::If(branch) => {
                    Self::collect_labels(&branch.then_block, labels);
                    Self::collect_labels(&branch.else_block, labels);
                    assert(names(labels@) =~= names(so_far) + (labels_in(branch.then_block@)
                        + labels_in(branch.else_block@)));
                },
                Statement::While(lp) => Self::collect_labels(&lp.block, labels),
                Statement::Repeat(lp) => Self::collect_labels(&lp.block, labels),
                Statement::NumericFor(lp) => Self::collect_labels(&lp.block, labels),
                Statement::GenericFor(lp) => Self::collect_labels(&lp.block, labels),
                _ => {
                    assert(names(labels@) =~= names(so_far) + Seq::empty());
                },
            }
            proof {
                let before = block.0@.take(i as int);
                let after = block.0@.take(i + 1);
                assert(names(labels@) == names(so_far) + statement_labels(
                    statement_view(block.0@[i as int]),
                ));
                assert(after.drop_last() =~= before);
                lemma_statements_view(after);
                lemma_statements_view(before);
                assert(statements_view(after).drop_last() =~= statements_view(before));
                assert(names(labels@) =~= names(old(labels)@) + labels_in(statements_view(after)));
            }
        }
        assert(block.0@.take(block.0@.len() as int) =~= block.0@);
    }

    /// Adds the labels that a block jumps to to a list.
    pub fn collect_gotos(block: &Block, gotos: &mut Vec<Label>)
        ensures
            names(final(gotos)@) == names(old(gotos)@) + gotos_in(block@),
        decreases block,
    {
        assert(block.0@.take(0) =~= Seq::empty());
        assert(names(gotos@) =~= names(gotos@) + Seq::empty());
        for i in 0..block.0.len()
            invariant
                names(gotos@) == names(old(gotos)@) + gotos_in(
                    statements_view(block.0@.take(i as int)),
                ),
        {
            let ghost so_far = gotos@;
            match &block.0[i] {
                Statement::Goto(goto) => {
                    gotos.push(goto.0.clone());
                    assert(names(gotos@) =~= names(so_far) + seq![goto.0.0@]);
                },
                Statement::If(branch) => {
                    Self::collect_gotos(&branch.then_block, gotos);
                    Self::collect_gotos(&branch.else_block, gotos);
                    assert(names(gotos@) =~= names(so_far) + (gotos_in(branch.then_block@)
                        + gotos_in(branch.else_block@)));
                },
                Statement::While(lp) => Self::collect_gotos(&lp.block, gotos),
                Statement::Repeat(lp) => Self::collect_gotos(&lp.block, gotos),
                Statement::NumericFor(lp) => Self::collect_gotos(&lp.block, gotos),
                Statement::GenericFor(lp) => Self::collect_gotos(&lp.block, gotos),
                _ => {
                    assert(names(gotos@) =~= names(so_far) + Seq::empty());
                },
            }
            proof {
                let before = block.0@.take(i as int);
                let after = block.0@.take(i + 1);
                assert(names(gotos@) == names(so_far) + statement_gotos(
                    statement_view(block.0@[i as int]),
                ));
                assert(after.drop_last() =~= before);
                lemma_statements_view(after);
                lemma_statements_view(before);
                assert(statements_view(after).drop_last() =~= statements_view(before));
                assert(names(gotos@) =~= names(old(gotos)@) + gotos_in(statements_view(after)));
            }
        }
        assert(block.0@.take(block.0@.len() as int) =~= block.0@);
    }

    /// Drops a `return` of nothing at the end of a block.
    pub fn remove_last_return(block: Block) -> (rest: Block)
        ensures
            rest@ == without_last_return(block@),
            block@.len() > 0 && block@.last() == (Stmt::Return { values: Seq::empty() }) ==> rest@
                == block@.drop_last(),
            !(block@.len() > 0 && block@.last() == (Stmt::Return { values: Seq::empty() }))
                ==> rest@ == block@,
    {
        proof {
            if block@.len() > 0 {
                assert(block@ =~= block@.drop_last().push(block@.last()));
                only_a_last_return_of_nothing_goes(block@.drop_last(), block@.last());
            } else {
                assert(block@ =~= Seq::<Stmt>::empty());
                only_a_last_return_of_nothing_goes(Seq::empty(), Stmt::Empty);
            }
        }
        let mut statements = block.0;
        proof {
            lemma_statements_view(statements@);
        }
        if statements.len() > 0 {
            let last = statements.len() - 1;
            let ends_in_return = match &statements[last] {
                Statement::Return(ret) => ret.values.len() == 0,
                _ => false,
            };
            assert(block@.last() == statement_view(statements@[last as int]));
            if ends_in_return {
                let ghost before = statements@;
                let gone = statements.pop();
                proof {
                    assert(statements@ =~= before.drop_last());
                }
            }
        }
        Block(statements)
    }
}

/// What is repeated at the place of a jump sets no label, holds no jump and no
/// block, so no label is ever set twice by it.
pub proof fn inlined_statements_are_plain(block: Seq<Stmt>)
    requires
        inlineable(block) is Some,
    ensures
        labels_in(inlineable(block)->0) == Seq::<Seq<char>>::empty(),
        gotos_in(inlineable(block)->0) == Seq::<Seq<char>>::empty(),
        !labelled(inlineable(block)->0),
        inlineable(inlineable(block)->0) == inlineable(block),
{
    let body = inlineable(block)->0;
    lemma_inlineable_plain(body);
    if body.len() > 0 {
        assert(body[0].inlineable());
    }
}

proof fn lemma_inlineable_plain(body: Seq<Stmt>)
    requires
        all_inlineable(body),
    ensures
        labels_in(body) == Seq::<Seq<char>>::empty(),
        gotos_in(body) == Seq::<Seq<char>>::empty(),
    decreases body.len(),
{
    if body.len() > 0 {
        let front = body.drop_last();
        assert(all_inlineable(front)) by {
            assert forall|i: int| 0 <= i < front.len() implies (
            #[trigger] front[i]).inlineable() by {
                assert(front[i] == body[i]);
            }
        }
        lemma_inlineable_plain(front);
        assert(body[body.len() - 1].inlineable());
        assert(statement_labels(body.last()) == Seq::<Seq<char>>::empty());
        assert(statement_gotos(body.last()) == Seq::<Seq<char>>::empty());
        assert(labels_in(body) =~= Seq::empty());
        assert(gotos_in(body) =~= Seq::empty());
    }
}

/// Joining blocks joins the labels they set and the jumps they hold.
pub proof fn lemma_joined(a: Seq<Stmt>, b: Seq<Stmt>)
    ensures
        labels_in(a + b) == labels_in(a) + labels_in(b),
        gotos_in(a + b) == gotos_in(a) + gotos_in(b),
    decreases b.len(),
{
    if b.len() == 0 {
        assert(a + b =~= a);
        assert(labels_in(a) + labels_in(b) =~= labels_in(a));
        assert(gotos_in(a) + gotos_in(b) =~= gotos_in(a));
    } else {
        lemma_joined(a, b.drop_last());
        assert((a + b).drop_last() =~= a + b.drop_last());
        assert((a + b).last() == b.last());
        assert(labels_in(a + b) =~= labels_in(a) + labels_in(b));
        assert(gotos_in(a + b) =~= gotos_in(a) + gotos_in(b));
    }
}

/// What may be repeated at another place is whatever is no label, no goto, and neither
/// holds a block nor is unknown.
pub proof fn most_statements_may_be_repeated(statement: Stmt)
    ensures
        !statement.inlineable() <==> match statement {
            Stmt::Label { .. } => true,
            Stmt::Goto { .. } => true,
            Stmt::If { .. } => true,
            Stmt::While { .. } => true,
            Stmt::Repeat { .. } => true,
            Stmt::NumericFor { .. } => true,
            Stmt::GenericFor { .. } => true,
            Stmt::Other(_) => true,
            _ => false,
        },
{
}

/// A label names a block if and only if it comes first.
pub proof fn only_the_first_statement_names_a_block(first: Stmt, rest: Seq<Stmt>)
    ensures
        labelled(seq![first] + rest) <==> first is Label,
        !labelled(Seq::<Stmt>::empty()),
{
    assert((seq![first] + rest)[0] == first);
}

/// A block can be repeated if and only if all of it can, but for a label in front,
/// which is left out of the copy.
pub proof fn copies_leave_out_the_label(name: Seq<char>, body: Seq<Stmt>)
    ensures
        inlineable(seq![Stmt::Label { name }] + body) is Some <==> forall|i: int|
            0 <= i < body.len() ==> (#[trigger] body[i]).inlineable(),
        inlineable(seq![Stmt::Label { name }] + body) is Some ==> inlineable(
            seq![Stmt::Label { name }] + body,
        )->0 == body,
        !(body.len() > 0 && body[0] is Label) ==> (inlineable(body) is Some <==> forall|i: int|
            0 <= i < body.len() ==> (#[trigger] body[i]).inlineable()),
        !(body.len() > 0 && body[0] is Label) && inlineable(body) is Some ==> inlineable(body)->0
            == body,
{
    let block = seq![Stmt::Label { name }] + body;
    assert(block[0] == Stmt::Label { name });
    assert(block.skip(1) =~= body);
}

/// A block does nothing if and only if each of its statements is a comment.
pub proof fn only_comments_do_nothing(a: Seq<Stmt>, b: Seq<Stmt>, statement: Stmt)
    ensures
        no_op(Seq::<Stmt>::empty()),
        no_op(seq![statement]) <==> statement is Comment,
        no_op(a + b) <==> no_op(a) && no_op(b),
{
    assert(seq![statement][0] == statement);
    if no_op(a + b) {
        assert forall|i: int| 0 <= i < a.len() implies #[trigger] a[i] is Comment by {
            assert((a + b)[i] == a[i]);
        }
        assert forall|i: int| 0 <= i < b.len() implies #[trigger] b[i] is Comment by {
            assert((a + b)[a.len() + i] == b[i]);
        }
    }
}

/// A last return goes if and only if it returns nothing; everything else stays.
pub proof fn only_a_last_return_of_nothing_goes(block: Seq<Stmt>, last: Stmt)
    ensures
        without_last_return(Seq::<Stmt>::empty()) == Seq::<Stmt>::empty(),
        last == (Stmt::Return { values: Seq::empty() }) ==> without_last_return(block.push(last))
            == block,
        last != (Stmt::Return { values: Seq::empty() }) ==> without_last_return(block.push(last))
            == block.push(last),
        (last matches Stmt::Return { values } && values.len() > 0) ==> without_last_return(
            block.push(last),
        ).last() == last,
{
    let whole = block.push(last);
    assert(whole.last() == last);
    assert(whole.drop_last() =~= block);
    if last is Return && last->values.len() == 0 {
        assert(last->values =~= Seq::empty());
    }
}

proof fn lemma_only(statement: Stmt)
    ensures
        labels_in(seq![statement]) == statement_labels(statement),
        gotos_in(seq![statement]) == statement_gotos(statement),
{
    let block = seq![statement];
    assert(block.drop_last() =~= Seq::<Stmt>::empty());
    assert(block.last() == statement);
    assert(labels_in(Seq::<Stmt>::empty()) =~= Seq::<Seq<char>>::empty());
    assert(gotos_in(Seq::<Stmt>::empty()) =~= Seq::<Seq<char>>::empty());
    assert(labels_in(block) =~= statement_labels(statement));
    assert(gotos_in(block) =~= statement_gotos(statement));
}

/// The labels of a block are those of its statements in order, and the labels of a
/// statement those of the blocks inside it; only a label is one itself.
pub proof fn labels_are_found_at_every_depth(statement: Stmt, a: Seq<Stmt>, b: Seq<Stmt>)
    ensures
        labels_in(a + b) == labels_in(a) + labels_in(b),
        labels_in(seq![statement]) == match statement {
            Stmt::Label { name } => seq![name],
            Stmt::If { then_block, else_block, .. } => labels_in(then_block) + labels_in(
                else_block,
            ),
            Stmt::While { body, .. } => labels_in(body),
            Stmt::Repeat { body, .. } => labels_in(body),
            Stmt::NumericFor { body, .. } => labels_in(body),
            Stmt::GenericFor { body, .. } => labels_in(body),
            _ => Seq::<Seq<char>>::empty(),
        },
{
    lemma_joined(a, b);
    lemma_only(statement);
}

/// The same of the labels that a block jumps to; only a goto is a jump itself.
pub proof fn gotos_are_found_at_every_depth(statement: Stmt, a: Seq<Stmt>, b: Seq<Stmt>)
    ensures
        gotos_in(a + b) == gotos_in(a) + gotos_in(b),
        gotos_in(seq![statement]) == match statement {
            Stmt::Goto { label } => seq![label],
            Stmt::If { then_block, else_block, .. } => gotos_in(then_block) + gotos_in(
                else_block,
            ),
            Stmt::While { body, .. } => gotos_in(body),
            Stmt::Repeat { body, .. } => gotos_in(body),
            Stmt::NumericFor { body, .. } => gotos_in(body),
            Stmt::GenericFor { body, .. } => gotos_in(body),
            _ => Seq::<Seq<char>>::empty(),
        },
{
    lemma_joined(a, b);
    lemma_only(statement);
}

/// A list of labels has one name for each.
pub proof fn names_are_those_of_the_labels(labels: Seq<Label>, i: int)
    ensures
        names(labels).len() == labels.len(),
        0 <= i < labels.len() ==> names(labels)[i] == labels[i].0@,
{
}

} // verus!
