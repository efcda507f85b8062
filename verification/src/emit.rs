//! Writing a structured function down.

use vstd::prelude::*;

use crate::ast::{
    lemma_statements_view, lemma_statements_view_add, statements_view, Block, Comment, Label,
    Statement, Stmt,
};
use crate::cfg::{Function, FunctionView};
use crate::flow::ascending;
use crate::idle::{
    edgeless_functions_keep_entry_and_labelled_blocks, is_edgeless, kept, only_dead_blocks_gone,
    rests_without_edges,
};
use crate::inspect::{
    gotos_in, labelled, names, only_a_last_return_of_nothing_goes, statement_gotos,
    without_last_return,
};
use crate::lists::{lemma_appended, lemma_ascending_unique, lemma_push_one, lemma_take_one};
use crate::patterns::{NoPatterns, Patterns, StructureError};
use crate::refine::{
    collapse_fails, collapses, edgeless_functions_collapse, edgeless_functions_collapse_at_once,
    nothing_is_refined_without_patterns,
};
use crate::structurer::{GraphStructurer, StructurerView};
use crate::tables::label_nodes;
use crate::text::{block_heading, decimal, decimals_differ, jump_label};

verus! {

/// Every label of the list stands somewhere.
pub open spec fn all_known(labels: Map<Seq<char>, u32>, list: Seq<Seq<char>>) -> bool {
    forall|i: int| 0 <= i < list.len() ==> labels.contains_key(#[trigger] list[i])
}

/// The first character of the label takes one byte.
pub open spec fn is_plain(label: Seq<char>) -> bool {
    label.len() > 0 && (label[0] as u32) < 128
}

/// The first character of every label of the list takes one byte.
pub open spec fn all_plain(list: Seq<Seq<char>>) -> bool {
    forall|i: int| 0 <= i < list.len() ==> is_plain(#[trigger] list[i])
}

/// The blocks that the labels of the list stand in, each label once, as far as
/// they are still to be written.
pub open spec fn targets(
    labels: Map<Seq<char>, u32>,
    blocks: Map<u32, Seq<Stmt>>,
    list: Seq<Seq<char>>,
) -> Seq<u32>
    decreases list.len(),
{
    if list.len() == 0 {
        Seq::empty()
    } else {
        let earlier = targets(labels, blocks, list.drop_last());
        let target = labels[list.last()];
        if list.drop_last().contains(list.last()) || !blocks.contains_key(target) {
            earlier
        } else {
            earlier.push(target)
        }
    }
}

/// The text without a last goto whose label is a letter and the number of `node`,
/// the block that comes next.  Where that label stands makes no difference.
pub open spec fn without_goto(out: Seq<Stmt>, node: u32) -> Result<Seq<Stmt>, StructureError> {
    match out.last() {
        Stmt::Goto { label } if out.len() > 0 => {
            if !is_plain(label) {
                Err(StructureError::MalformedLabel)
            } else if label.skip(1) == decimal(node as nat) {
                Ok(out.drop_last())
            } else {
                Ok(out)
            }
        },
        _ => Ok(out),
    }
}

/// A block with a comment that names it, where no label does.
pub open spec fn headed(node: u32, block: Seq<Stmt>) -> Seq<Stmt> {
    if labelled(block) {
        block
    } else {
        seq![Stmt::Comment { text: block_heading(node) }] + block
    }
}

/// The blocks of the list one after another.
pub open spec fn written(blocks: Map<u32, Seq<Stmt>>, nodes: Seq<u32>) -> Seq<Stmt>
    decreases nodes.len(),
{
    if nodes.len() == 0 {
        Seq::empty()
    } else {
        written(blocks, nodes.drop_last()) + headed(nodes.last(), blocks[nodes.last()])
    }
}

/// What has been written, and what is still to be written.
#[verifier::ext_equal]
pub struct Writing {
    pub blocks: Map<u32, Seq<Stmt>>,
    pub out: Seq<Stmt>,
}

impl Writing {
    /// The text with the blocks that are still to be written, ascending.
    pub open spec fn completes(self, text: Seq<Stmt>) -> bool {
        exists|nodes: Seq<u32>| #[trigger]
            ascending(nodes, self.blocks.dom()) && text == self.out + written(self.blocks, nodes)
    }
}

/// Writes the blocks on the stack, the last first, and after each of them those
/// that it jumps to.
pub open spec fn writes_on(
    labels: Map<Seq<char>, u32>,
    blocks: Map<u32, Seq<Stmt>>,
    stack: Seq<u32>,
    out: Seq<Stmt>,
) -> Result<Writing, StructureError>
    decreases blocks.dom().len(), stack.len(),
    when blocks.dom().finite()
{
    if stack.len() == 0 {
        Ok(Writing { blocks, out })
    } else if !blocks.contains_key(stack.last()) {
        writes_on(labels, blocks, stack.drop_last(), out)
    } else {
        let node = stack.last();
        let left = blocks.remove(node);
        let gotos = gotos_in(blocks[node]);
        if !all_known(labels, gotos) {
            Err(StructureError::UnknownLabel)
        } else {
            match without_goto(out, node) {
                Err(error) => Err(error),
                Ok(text) => writes_on(
                    labels,
                    left,
                    stack.drop_last() + targets(labels, left, gotos),
                    text + headed(node, blocks[node]),
                ),
            }
        }
    }
}

/// What is written of a function that has been collapsed: its only block, without
/// a last return of nothing; or else, from the entry on, the blocks that jumps
/// lead to, and then all the others.
pub open spec fn writes(
    state: StructurerView,
    result: Result<Seq<Stmt>, StructureError>,
) -> bool {
    let f = state.function;
    if f.entry is None || !f.blocks.contains_key(f.entry->0) {
        result == Err::<Seq<Stmt>, StructureError>(StructureError::MissingEntry)
    } else if state.is_single() {
        result == Ok::<Seq<Stmt>, StructureError>(without_last_return(f.blocks[f.entry->0]))
    } else {
        match writes_on(state.labels, f.blocks, seq![f.entry->0], Seq::empty()) {
            Err(error) => result == Err::<Seq<Stmt>, StructureError>(error),
            Ok(writing) => result is Ok && writing.completes(result->Ok_0),
        }
    }
}

/// What structuring `before` gives.
pub open spec fn structures<P: Patterns>(
    patterns: P,
    before: StructurerView,
    result: Result<Seq<Stmt>, StructureError>,
) -> bool {
    ||| exists|collapsed: StructurerView| #[trigger]
        collapses(patterns, before, collapsed) && writes(collapsed, result)
    ||| result is Err && collapse_fails(patterns, before, result->Err_0)
}

/// The statements of a block, where there is one.
pub open spec fn text_of(result: Result<Block, StructureError>) -> Result<
    Seq<Stmt>,
    StructureError,
> {
    match result {
        Ok(block) => Ok(block@),
        Err(error) => Err(error),
    }
}

proof fn lemma_pushed(statements: Seq<Statement>, statement: Statement)
    ensures
        statements_view(statements.push(statement)) == statements_view(statements).push(
            statement@,
        ),
{
    assert(statements.push(statement).drop_last() =~= statements);
}

/// Drops a last goto to the block that comes next.
fn drop_goto(out: &mut Vec<Statement>, node: u32) -> (result: Result<(), StructureError>)
    ensures
        match result {
            Ok(_) => without_goto(statements_view(old(out)@), node) == Ok::<
                Seq<Stmt>,
                StructureError,
            >(statements_view(final(out)@)),
            Err(error) => without_goto(statements_view(old(out)@), node) == Err::<
                Seq<Stmt>,
                StructureError,
            >(error) && *final(out) == *old(out),
        },
{
    proof {
        lemma_statements_view(out@);
    }
    if out.len() == 0 {
        return Ok(());
    }
    let last: usize = out.len() - 1;
    let needless = match &out[last] {
        Statement::Goto(goto) => {
            let label = goto.0.0.as_str();
            let length = label.unicode_len();
            if length == 0 || label.get_char(0) as u32 >= 128 {
                return Err(StructureError::MalformedLabel);
            }
            let rest = String::from_str(label.substring_char(1, length));
            assert(rest@ =~= label@.skip(1));
            rest == crate::text::to_decimal(node)
        },
        _ => false,
    };
    if needless {
        let ghost before = out@;
        let goto = out.pop();
        proof {
            assert(out@ =~= before.drop_last());
            assert(statements_view(before).drop_last() =~= statements_view(out@));
        }
    }
    Ok(())
}

/// Writes one block.
fn write_block(out: &mut Vec<Statement>, node: u32, block: Block)
    ensures
        statements_view(final(out)@) == statements_view(old(out)@) + headed(node, block@),
{
    let ghost before = statements_view(out@);
    if !GraphStructurer::starts_with_label(&block) {
        let comment = Statement::Comment(Comment { text: crate::text::to_block_heading(node) });
        proof {
            lemma_pushed(out@, comment);
        }
        out.push(comment);
    }
    let mut statements = block.0;
    proof {
        lemma_statements_view_add(out@, statements@);
        assert(statements_view(out@) + block@ =~= before + headed(node, block@));
    }
    out.append(&mut statements);
}

proof fn lemma_targets(
    labels: Map<Seq<char>, u32>,
    blocks: Map<u32, Seq<Stmt>>,
    list: Seq<Seq<char>>,
    i: int,
)
    requires
        0 <= i < list.len(),
    ensures
        targets(labels, blocks, list.take(i + 1)) == if list.take(i).contains(list[i])
            || !blocks.contains_key(labels[list[i]]) {
            targets(labels, blocks, list.take(i))
        } else {
            targets(labels, blocks, list.take(i)).push(labels[list[i]])
        },
        forall|label: Seq<char>| #[trigger]
            list.take(i + 1).contains(label) <==> list.take(i).contains(label) || label == list[i],
{
    lemma_take_one(list, i);
}

impl GraphStructurer {
    /// The blocks to write next, by the gotos of the one just written.
    fn find_targets(&self, gotos: &Vec<Label>) -> (found: Option<Vec<u32>>)
        ensures
            match found {
                Some(list) => all_known(self@.labels, names(gotos@)) && list@ == targets(
                    self@.labels,
                    self@.function.blocks,
                    names(gotos@),
                ),
                None => !all_known(self@.labels, names(gotos@)),
            },
    {
        proof {
            self.lemma_view();
            use_type_invariant(&self.function);
        }
        let ghost list = names(gotos@);
        let mut seen = crate::tables::empty_label_table();
        let mut found: Vec<u32> = Vec::new();
        for i in 0..gotos.len()
            invariant
                list == names(gotos@),
                self@.function == self.function@,
                self@.function.wf(),
                forall|j: int| 0 <= j < i ==> self@.labels.contains_key(#[trigger] list[j]),
                forall|label: Seq<char>| #[trigger]
                    label_nodes(seen).contains_key(label) <==> list.take(i as int).contains(label),
                found@ == targets(self@.labels, self@.function.blocks, list.take(i as int)),
        {
            let label = gotos[i].0.as_str();
            proof {
                assert(list[i as int] == label@);
                lemma_targets(self@.labels, self@.function.blocks, list, i as int);
            }
            match crate::tables::find_label(&seen, label) {
                Some(_) => {
                    proof {
                        let short = list.take(i as int);
                        let k = choose|k: int| 0 <= k < short.len() && short[k] == label@;
                        assert(list[k] == label@);
                    }
                },
                None => {
                    let target = match self.node_of_label(&gotos[i]) {
                        None => {
                            assert(!self@.labels.contains_key(list[i as int]));
                            return None;
                        },
                        Some(target) => target,
                    };
                    crate::tables::insert_label(&mut seen, gotos[i].0.clone(), target);
                    if self.function.has_block(target) {
                        found.push(target);
                    }
                },
            }
        }
        assert(list.take(list.len() as int) =~= list);
        Some(found)
    }

    /// Writes the function as it is now.
    pub fn write(self) -> (result: Result<Block, StructureError>)
        ensures
            writes(self@, text_of(result)),
    {
        let mut this = self;
        let ghost start = this@;
        proof {
            this.lemma_view();
            use_type_invariant(&this.function);
        }
        let entry = match this.function.entry() {
            None => {
                return Err(StructureError::MissingEntry);
            },
            Some(entry) => entry,
        };
        if !this.function.has_block(entry) {
            return Err(StructureError::MissingEntry);
        }
        if this.function.node_count() == 1 {
            let block = this.function.remove_block(entry).unwrap();
            return Ok(Self::remove_last_return(block));
        }
        let mut out: Vec<Statement> = Vec::new();
        let mut stack: Vec<u32> = vec![entry];
        proof {
            assert(stack@ =~= seq![entry]);
            assert(statements_view(out@) =~= Seq::empty());
        }
        while stack.len() > 0
            invariant
                start == self@,
                start.function.entry == Some(entry),
                start.function.blocks.contains_key(entry),
                !start.is_single(),
                this@.labels == start.labels,
                writes_on(start.labels, start.function.blocks, seq![entry], Seq::empty())
                    == writes_on(
                    start.labels,
                    this@.function.blocks,
                    stack@,
                    statements_view(out@),
                ),
            decreases this@.function.blocks.dom().len(), stack@.len(),
        {
            proof {
                this.lemma_view();
                use_type_invariant(&this.function);
            }
            let ghost before = this@.function.blocks;
            let ghost old_stack = stack@;
            let node = stack.pop().unwrap();
            assert(stack@ =~= old_stack.drop_last());
            if this.function.has_block(node) {
                let block = this.function.remove_block(node).unwrap();
                proof {
                    this.lemma_view();
                    assert(this@.function.blocks == before.remove(node));
                    assert(this@.labels == start.labels);
                }
                let mut gotos: Vec<Label> = Vec::new();
                Self::collect_gotos(&block, &mut gotos);
                assert(names(gotos@) =~= gotos_in(block@));
                let mut more = match this.find_targets(&gotos) {
                    None => {
                        return Err(StructureError::UnknownLabel);
                    },
                    Some(more) => more,
                };
                match drop_goto(&mut out, node) {
                    Err(error) => {
                        return Err(error);
                    },
                    Ok(_) => {},
                }
                write_block(&mut out, node, block);
                stack.append(&mut more);
            }
        }
        let ghost writing = Writing { blocks: this@.function.blocks, out: statements_view(out@) };
        proof {
            this.lemma_view();
            use_type_invariant(&this.function);
        }
        let nodes = this.function.node_indices();
        let ghost left = this@.function.blocks;
        let ghost text = statements_view(out@);
        assert(written(left, nodes@.take(0)) =~= Seq::empty());
        assert(text =~= text + Seq::empty());
        for i in 0..nodes.len()
            invariant
                ascending(nodes@, left.dom()),
                this@.function == this.function@,
                forall|n: u32| #[trigger]
                    this@.function.blocks.contains_key(n) <==> left.contains_key(n)
                        && !nodes@.take(i as int).contains(n),
                forall|n: u32| #[trigger]
                    this@.function.blocks.contains_key(n) ==> this@.function.blocks[n] == left[n],
                statements_view(out@) == text + written(left, nodes@.take(i as int)),
        {
            let node = nodes[i];
            proof {
                this.lemma_view();
                use_type_invariant(&this.function);
                assert(nodes@.contains(node));
                lemma_take_one(nodes@, i as int);
            }
            let block = this.function.remove_block(node).unwrap();
            proof {
                this.lemma_view();
            }
            write_block(&mut out, node, block);
            assert(statements_view(out@) =~= text + written(left, nodes@.take(i + 1)));
        }
        assert(nodes@.take(nodes@.len() as int) =~= nodes@);
        proof {
            assert(writes_on(start.labels, start.function.blocks, seq![entry], Seq::empty())
                == Ok::<Writing, StructureError>(writing));
            assert(ascending(nodes@, writing.blocks.dom()));
        }
        let block = Block(out);
        assert(writing.completes(block@));
        Ok(block)
    }

    /// Structures the function and writes it down.
    pub fn structure<P: Patterns>(self, patterns: &P) -> (result: Result<Block, StructureError>)
        ensures
            structures(*patterns, self@, text_of(result)),
    {
        let mut this = self;
        match this.collapse(patterns) {
            Err(error) => Err(error),
            Ok(_) => {
                assert(collapses(*patterns, self@, this@));
                this.write()
            },
        }
    }
}

/// Structures a function and writes it down.
pub fn lift<P: Patterns>(function: Function, patterns: &P) -> (result: Result<
    Block,
    StructureError,
>)
    requires
        function@.has_start(),
    ensures
        structures(*patterns, StructurerView::starting(function@), text_of(result)),
{
    GraphStructurer::new(function).structure(patterns)
}

/// The statements that are not gotos.
pub open spec fn lasting(text: Seq<Stmt>) -> Seq<Stmt> {
    text.filter(|s: Stmt| !(s is Goto))
}

proof fn lemma_lasting_add(a: Seq<Stmt>, b: Seq<Stmt>)
    ensures
        lasting(a + b) == lasting(a) + lasting(b),
{
    Seq::filter_distributes_over_add(a, b, |s: Stmt| !(s is Goto));
}

proof fn lemma_written_add(blocks: Map<u32, Seq<Stmt>>, a: Seq<u32>, b: Seq<u32>)
    ensures
        written(blocks, a + b) == written(blocks, a) + written(blocks, b),
    decreases b.len(),
{
    if b.len() == 0 {
        assert(a + b =~= a);
        assert(written(blocks, a) + Seq::empty() =~= written(blocks, a));
    } else {
        lemma_written_add(blocks, a, b.drop_last());
        assert((a + b).drop_last() =~= a + b.drop_last());
        assert(written(blocks, a + b) =~= written(blocks, a) + written(blocks, b));
    }
}

proof fn lemma_written_same(a: Map<u32, Seq<Stmt>>, b: Map<u32, Seq<Stmt>>, nodes: Seq<u32>)
    requires
        forall|i: int| 0 <= i < nodes.len() ==> a[#[trigger] nodes[i]] == b[nodes[i]],
    ensures
        written(a, nodes) == written(b, nodes),
    decreases nodes.len(),
{
    if nodes.len() > 0 {
        assert forall|i: int| 0 <= i < nodes.drop_last().len() implies a[
            #[trigger] nodes.drop_last()[i]
        ] == b[nodes.drop_last()[i]] by {
            assert(nodes.drop_last()[i] == nodes[i]);
        }
        lemma_written_same(a, b, nodes.drop_last());
        assert(a[nodes[nodes.len() - 1]] == b[nodes[nodes.len() - 1]]);
    }
}

proof fn lemma_written_one(blocks: Map<u32, Seq<Stmt>>, node: u32)
    ensures
        written(blocks, seq![node]) == headed(node, blocks[node]),
{
    assert(seq![node].drop_last() =~= Seq::<u32>::empty());
    assert(written(blocks, Seq::<u32>::empty()) =~= Seq::<Stmt>::empty());
    assert(seq![node].last() == node);
    assert(written(blocks, seq![node]) =~= headed(node, blocks[node]));
}

proof fn lemma_without_goto(out: Seq<Stmt>, node: u32)
    ensures
        without_goto(out, node) is Ok ==> lasting(without_goto(out, node)->Ok_0) == lasting(out),
{
    if without_goto(out, node) is Ok && without_goto(out, node)->Ok_0 != out {
        reveal(Seq::filter);
        assert(without_goto(out, node)->Ok_0 == out.drop_last());
        assert(out.last() is Goto);
    }
}

/// The order in which the blocks are written from the stack on.
proof fn lemma_writing_order(
    labels: Map<Seq<char>, u32>,
    blocks: Map<u32, Seq<Stmt>>,
    stack: Seq<u32>,
    out: Seq<Stmt>,
) -> (order: Seq<u32>)
    requires
        blocks.dom().finite(),
        writes_on(labels, blocks, stack, out) is Ok,
    ensures
        order.no_duplicates(),
        forall|n: u32| #[trigger]
            order.contains(n) <==> blocks.contains_key(n) && !writes_on(
                labels,
                blocks,
                stack,
                out,
            )->Ok_0.blocks.contains_key(n),
        forall|n: u32| #[trigger]
            writes_on(labels, blocks, stack, out)->Ok_0.blocks.contains_key(n)
                ==> blocks.contains_key(n) && writes_on(labels, blocks, stack, out)->Ok_0.blocks[n]
                == blocks[n],
        lasting(writes_on(labels, blocks, stack, out)->Ok_0.out) == lasting(out) + lasting(
            written(blocks, order),
        ),
        stack.len() > 0 && blocks.contains_key(stack.last()) ==> order.len() > 0 && order[0]
            == stack.last(),
    decreases blocks.dom().len(), stack.len(),
{
    let node = stack.last();
    let writing = writes_on(labels, blocks, stack, out)->Ok_0;
    if stack.len() == 0 {
        let order = Seq::<u32>::empty();
        reveal(Seq::filter);
        assert(lasting(written(blocks, order)) =~= Seq::empty());
        assert(lasting(out) =~= lasting(out) + Seq::empty());
        order
    } else if !blocks.contains_key(node) {
        lemma_writing_order(labels, blocks, stack.drop_last(), out)
    } else {
        let left = blocks.remove(node);
        let text = without_goto(out, node)->Ok_0;
        let block = headed(node, blocks[node]);
        let more = stack.drop_last() + targets(labels, left, gotos_in(blocks[node]));
        let rest = lemma_writing_order(labels, left, more, text + block);
        let order = seq![node] + rest;
        lemma_appended(seq![node], rest);
        assert(seq![node][0] == node);
        assert(!left.contains_key(node));
        assert forall|n: u32| #[trigger] order.contains(n) <==> blocks.contains_key(n)
            && !writing.blocks.contains_key(n) by {
            assert(rest.contains(n) <==> left.contains_key(n) && !writing.blocks.contains_key(n));
        }
        assert(order.no_duplicates());
        lemma_written_add(blocks, seq![node], rest);
        lemma_written_one(blocks, node);
        assert forall|i: int| 0 <= i < rest.len() implies left[#[trigger] rest[i]]
            == blocks[rest[i]] by {
            assert(rest.contains(rest[i]));
        }
        lemma_written_same(left, blocks, rest);
        lemma_lasting_add(text, block);
        lemma_lasting_add(block, written(blocks, rest));
        lemma_without_goto(out, node);
        assert(lasting(writing.out) =~= lasting(out) + lasting(written(blocks, order)));
        order
    }
}

/// The blocks of the order stand in the text one after another, apart from gotos.
pub open spec fn is_written_in(
    text: Seq<Stmt>,
    blocks: Map<u32, Seq<Stmt>>,
    order: Seq<u32>,
) -> bool {
    lasting(text) == lasting(written(blocks, order))
}

/// A function of several blocks is written block by block, each exactly once and
/// the entry first.  Nothing is lost but gotos to what comes next.
pub proof fn every_block_is_written_once(state: StructurerView, text: Seq<Stmt>)
    requires
        state.function.wf(),
        !state.is_single(),
        writes(state, Ok(text)),
    ensures
        exists|order: Seq<u32>| #[trigger]
            is_written_in(text, state.function.blocks, order) && order.no_duplicates()
                && order.to_set() == state.function.blocks.dom() && order.len() > 0 && order[0]
                == state.function.entry->0,
{
    let blocks = state.function.blocks;
    let entry = state.function.entry->0;
    let writing = writes_on(state.labels, blocks, seq![entry], Seq::empty())->Ok_0;
    let jumped = lemma_writing_order(state.labels, blocks, seq![entry], Seq::empty());
    let nodes = choose|nodes: Seq<u32>| #[trigger]
        ascending(nodes, writing.blocks.dom()) && text == writing.out + written(
            writing.blocks,
            nodes,
        );
    let order = jumped + nodes;
    lemma_appended(jumped, nodes);
    assert forall|n: u32| order.contains(n) <==> blocks.contains_key(n) by {
        assert(nodes.contains(n) <==> writing.blocks.dom().contains(n));
    }
    assert(order.to_set() =~= blocks.dom());
    assert(nodes.no_duplicates());
    assert(order.no_duplicates()) by {
        assert forall|n: u32| #[trigger] jumped.contains(n) implies !nodes.contains(n) by {
            assert(!writing.blocks.dom().contains(n));
        }
    }
    lemma_written_add(blocks, jumped, nodes);
    assert forall|i: int| 0 <= i < nodes.len() implies writing.blocks[#[trigger] nodes[i]]
        == blocks[nodes[i]] by {
        assert(nodes.contains(nodes[i]));
    }
    lemma_written_same(writing.blocks, blocks, nodes);
    lemma_lasting_add(writing.out, written(blocks, nodes));
    lemma_lasting_add(written(blocks, jumped), written(blocks, nodes));
    assert(lasting(Seq::<Stmt>::empty()) =~= Seq::empty()) by {
        reveal(Seq::filter);
    }
    assert(lasting(text) =~= lasting(written(blocks, order)));
    assert(is_written_in(text, blocks, order));
}

/// A goto that is a statement of a block is among the jumps of the block.
proof fn lemma_own_goto(block: Seq<Stmt>, i: int)
    requires
        0 <= i < block.len(),
        block[i] is Goto,
    ensures
        gotos_in(block).contains(block[i]->label),
    decreases block.len(),
{
    let front = gotos_in(block.drop_last());
    let last = statement_gotos(block.last());
    if i == block.len() - 1 {
        assert(last == seq![block[i]->label]);
        assert((front + last)[front.len() as int] == block[i]->label);
    } else {
        lemma_own_goto(block.drop_last(), i);
        let k = choose|k: int| 0 <= k < front.len() && front[k] == block[i]->label;
        assert((front + last)[k] == block[i]->label);
    }
}

proof fn lemma_known_written(
    labels: Map<Seq<char>, u32>,
    blocks: Map<u32, Seq<Stmt>>,
    stack: Seq<u32>,
    out: Seq<Stmt>,
)
    requires
        blocks.dom().finite(),
        forall|n: u32| #[trigger]
            blocks.contains_key(n) ==> all_known(labels, gotos_in(blocks[n])) && all_plain(
                gotos_in(blocks[n]),
            ),
        forall|i: int|
            0 <= i < out.len() && (#[trigger] out[i]) is Goto ==> is_plain(out[i]->label),
    ensures
        writes_on(labels, blocks, stack, out) is Ok,
    decreases blocks.dom().len(), stack.len(),
{
    if stack.len() > 0 {
        let node = stack.last();
        if !blocks.contains_key(node) {
            lemma_known_written(labels, blocks, stack.drop_last(), out);
        } else {
            if out.len() > 0 {
                assert(out[out.len() - 1] == out.last());
            }
            let left = blocks.remove(node);
            let text = without_goto(out, node)->Ok_0;
            let block = headed(node, blocks[node]);
            let more = stack.drop_last() + targets(labels, left, gotos_in(blocks[node]));
            assert forall|i: int|
                0 <= i < (text + block).len() && (#[trigger] (text + block)[i]) is Goto implies
                is_plain((text + block)[i]->label) by {
                if i < text.len() {
                    assert((text + block)[i] == out[i]);
                } else {
                    let own = blocks[node];
                    let j = i - text.len() - (block.len() - own.len());
                    if j >= 0 {
                        assert((text + block)[i] == own[j]);
                        lemma_own_goto(own, j);
                        let gotos = gotos_in(own);
                        let k = choose|k: int| 0 <= k < gotos.len() && gotos[k] == own[j]->label;
                        assert(is_plain(gotos[k]));
                    }
                }
            }
            assert forall|n: u32| #[trigger] left.contains_key(n) implies all_known(
                labels,
                gotos_in(left[n]),
            ) && all_plain(gotos_in(left[n])) by {
                assert(blocks.contains_key(n));
            }
            lemma_known_written(labels, left, more, text + block);
        }
    }
}

/// A function whose entry has a block and whose gotos name labels that are known
/// is written, whatever is left of it.
pub proof fn known_jumps_are_written(
    state: StructurerView,
    result: Result<Seq<Stmt>, StructureError>,
)
    requires
        state.function.wf(),
        state.function.entry is Some,
        state.function.blocks.contains_key(state.function.entry->0),
        state.gotos_known(),
        writes(state, result),
    ensures
        result is Ok,
{
    let f = state.function;
    lemma_known_written(state.labels, f.blocks, seq![f.entry->0], Seq::empty());
}

/// Without patterns every block that can be reached or that a label names is
/// written, each exactly once and the entry first; where only one is left, that is
/// all there is.
pub proof fn live_blocks_are_written_once(function: FunctionView, text: Seq<Stmt>)
    requires
        function.wf(),
        structures(NoPatterns, StructurerView::starting(function), Ok(text)),
    ensures
        exists|after: StructurerView|
            {
                &&& #[trigger] only_dead_blocks_gone(StructurerView::starting(function), after)
                &&& after.is_single() ==> text == without_last_return(
                    function.blocks[function.entry->0],
                )
                &&& !after.is_single() ==> exists|order: Seq<u32>| #[trigger]
                    is_written_in(text, function.blocks, order) && order.no_duplicates()
                        && order.to_set() == after.function.blocks.dom() && order.len() > 0
                        && order[0] == function.entry->0
            },
{
    let before = StructurerView::starting(function);
    let after = choose|after: StructurerView| #[trigger]
        collapses(NoPatterns, before, after) && writes(after, Ok(text));
    nothing_is_refined_without_patterns(before, after);
    if !after.is_single() {
        every_block_is_written_once(after, text);
        let order = choose|order: Seq<u32>| #[trigger]
            is_written_in(text, after.function.blocks, order) && order.no_duplicates()
                && order.to_set() == after.function.blocks.dom() && order.len() > 0 && order[0]
                == after.function.entry->0;
        assert forall|i: int| 0 <= i < order.len() implies after.function.blocks[
            #[trigger] order[i]
        ] == function.blocks[order[i]] by {
            assert(order.to_set().contains(order[i]));
            assert(after.function.blocks.contains_key(order[i]));
        }
        lemma_written_same(after.function.blocks, function.blocks, order);
        assert(is_written_in(text, function.blocks, order));
    }
    assert(only_dead_blocks_gone(before, after));
}

/// Of gotos with the labels that jumps use, exactly those are dropped whose label has
/// the number of the block that comes next.
pub proof fn gotos_with_the_next_number_are_dropped(out: Seq<Stmt>, target: u32, node: u32)
    ensures
        without_goto(out.push(Stmt::Goto { label: jump_label(target) }), node) == Ok::<
            Seq<Stmt>,
            StructureError,
        >(
            if target == node {
                out
            } else {
                out.push(Stmt::Goto { label: jump_label(target) })
            },
        ),
{
    let text = out.push(Stmt::Goto { label: jump_label(target) });
    assert(text.last() == Stmt::Goto { label: jump_label(target) });
    assert(text.drop_last() =~= out);
    assert(jump_label(target).skip(1) =~= decimal(target as nat));
    if decimal(target as nat) == decimal(node as nat) {
        decimals_differ(target as nat, node as nat);
    }
}

/// Where the label of a jump stands in the block whose number it has, the goto is
/// dropped if and only if it leads to the block that comes next.
pub proof fn gotos_to_the_next_block_are_dropped(
    labels: Map<Seq<char>, u32>,
    out: Seq<Stmt>,
    target: u32,
    node: u32,
)
    requires
        labels.contains_key(jump_label(target)),
        labels[jump_label(target)] == target,
    ensures
        without_goto(out.push(Stmt::Goto { label: jump_label(target) }), node) == Ok::<
            Seq<Stmt>,
            StructureError,
        >(
            if labels[jump_label(target)] == node {
                out
            } else {
                out.push(Stmt::Goto { label: jump_label(target) })
            },
        ),
{
    gotos_with_the_next_number_are_dropped(out, target, node);
}

/// The blocks of the list one after another, without headings.
pub open spec fn in_a_row(blocks: Map<u32, Seq<Stmt>>, nodes: Seq<u32>) -> Seq<Stmt>
    decreases nodes.len(),
{
    if nodes.len() == 0 {
        Seq::empty()
    } else {
        in_a_row(blocks, nodes.drop_last()) + blocks[nodes.last()]
    }
}

proof fn lemma_in_a_row(a: Map<u32, Seq<Stmt>>, b: Map<u32, Seq<Stmt>>, nodes: Seq<u32>)
    requires
        forall|i: int|
            0 <= i < nodes.len() ==> labelled(b[#[trigger] nodes[i]]) && a[nodes[i]] == b[nodes[i]],
    ensures
        written(a, nodes) == in_a_row(b, nodes),
    decreases nodes.len(),
{
    if nodes.len() > 0 {
        let front = nodes.drop_last();
        assert forall|i: int| 0 <= i < front.len() implies labelled(b[#[trigger] front[i]])
            && a[front[i]] == b[front[i]] by {
            assert(front[i] == nodes[i]);
        }
        lemma_in_a_row(a, b, front);
        assert(labelled(b[nodes[nodes.len() - 1]]));
    }
}

/// The blocks other than the entry that a label names.
pub open spec fn named_blocks(function: FunctionView) -> Set<u32> {
    Set::new(
        |n: u32|
            function.blocks.contains_key(n) && function.entry != Some(n) && labelled(
                function.blocks[n],
            ),
    )
}

/// What is written of a function without edges and gotos, given the blocks other
/// than the entry that a label names: where there are none, the block of the entry
/// without a last return of nothing, and else that block, under its heading if no
/// label names it, and the named ones behind it.
pub open spec fn edgeless_text(function: FunctionView, named: Seq<u32>) -> Seq<Stmt> {
    let entry = function.entry->0;
    if named.len() == 0 {
        without_last_return(function.blocks[entry])
    } else {
        headed(entry, function.blocks[entry]) + in_a_row(function.blocks, named)
    }
}

/// Without edges and gotos, the entry and the blocks that a label names are written,
/// the latter in ascending order, and no others.
pub proof fn edgeless_functions_are_written_in_a_row<P: Patterns>(
    patterns: P,
    function: FunctionView,
    named: Seq<u32>,
    result: Result<Seq<Stmt>, StructureError>,
)
    requires
        rests_without_edges(patterns),
        is_edgeless(function),
        function.flow.out.dom().len() < u32::MAX,
        forall|n: u32| #[trigger]
            function.blocks.contains_key(n) ==> gotos_in(function.blocks[n]).len() == 0,
        ascending(named, named_blocks(function)),
        structures(patterns, StructurerView::starting(function), result),
    ensures
        result == Ok::<Seq<Stmt>, StructureError>(edgeless_text(function, named)),
{
    let before = StructurerView::starting(function);
    let entry = function.entry->0;
    if result is Err {
        edgeless_functions_collapse(patterns, before, result->Err_0);
    }
    let after = choose|after: StructurerView| #[trigger]
        collapses(patterns, before, after) && writes(after, result);
    edgeless_functions_collapse_at_once(patterns, before, after);
    edgeless_functions_keep_entry_and_labelled_blocks(patterns, before, after, false);
    let blocks = after.function.blocks;
    let left = blocks.remove(entry);
    assert(kept(function).contains(entry));
    assert(blocks.contains_key(entry) && blocks[entry] == function.blocks[entry]);
    assert(left.dom() =~= named_blocks(function));
    assert(kept(function) =~= named_blocks(function).insert(entry));
    assert(kept(function).finite());
    vstd::set_lib::lemma_set_subset_finite(kept(function), named_blocks(function));
    if named.len() == 0 {
        assert(named_blocks(function) =~= Set::<u32>::empty()) by {
            assert forall|n: u32| !named_blocks(function).contains(n) by {
                assert(!named.contains(n));
            }
        }
        assert(after.is_single());
    } else {
        assert(named.contains(named[0]));
        assert(named_blocks(function).contains(named[0]));
        assert(named_blocks(function).len() > 0);
        assert(!after.is_single());
        assert(gotos_in(blocks[entry]).len() == 0);
        let text = headed(entry, blocks[entry]);
        let stack = seq![entry];
        let rest = stack.drop_last() + targets(after.labels, left, gotos_in(blocks[entry]));
        assert(stack.last() == entry);
        assert(rest =~= Seq::<u32>::empty());
        assert(Seq::<Stmt>::empty() + text =~= text);
        assert(without_goto(Seq::<Stmt>::empty(), entry) == Ok::<Seq<Stmt>, StructureError>(
            Seq::<Stmt>::empty(),
        ));
        assert(writes_on(after.labels, left, rest, text) == Ok::<Writing, StructureError>(
            Writing { blocks: left, out: text },
        ));
        let writing = Writing { blocks: left, out: text };
        assert(writes_on(after.labels, blocks, stack, Seq::empty()) == Ok::<
            Writing,
            StructureError,
        >(writing));
        let nodes = choose|nodes: Seq<u32>| #[trigger]
            ascending(nodes, writing.blocks.dom()) && result->Ok_0 == writing.out + written(
                writing.blocks,
                nodes,
            );
        lemma_ascending_unique(nodes, named, named_blocks(function));
        assert forall|i: int| 0 <= i < named.len() implies labelled(
            function.blocks[#[trigger] named[i]],
        ) && left[named[i]] == function.blocks[named[i]] by {
            assert(named.contains(named[i]));
            assert(left.dom().contains(named[i]));
        }
        lemma_in_a_row(left, function.blocks, named);
    }
}

/// A block is written as it is where it starts with a label, and under a comment with
/// its number where it does not.
pub proof fn blocks_without_a_label_get_a_heading(node: u32, block: Seq<Stmt>)
    ensures
        block.len() > 0 && block[0] is Label ==> headed(node, block) == block,
        !(block.len() > 0 && block[0] is Label) ==> headed(node, block) == seq![
            Stmt::Comment { text: "block "@ + decimal(node as nat) },
        ] + block,
{
    reveal_strlit("block ");
    assert(block_heading(node) =~= "block "@ + decimal(node as nat));
}

/// Blocks are written one after another, each under its heading.
pub proof fn blocks_are_written_in_order(
    blocks: Map<u32, Seq<Stmt>>,
    nodes: Seq<u32>,
    node: u32,
)
    ensures
        written(blocks, Seq::<u32>::empty()) == Seq::<Stmt>::empty(),
        written(blocks, nodes.push(node)) == written(blocks, nodes) + headed(node, blocks[node]),
{
    assert(nodes.push(node).drop_last() =~= nodes);
}

/// A last goto goes if and only if its label is one letter and the number of the block
/// that comes next; everything else stays.
pub proof fn a_goto_to_what_comes_next_goes(
    out: Seq<Stmt>,
    last: Stmt,
    letter: char,
    rest: Seq<char>,
    node: u32,
)
    requires
        (letter as u32) < 128,
    ensures
        without_goto(Seq::<Stmt>::empty(), node) == Ok::<Seq<Stmt>, StructureError>(Seq::empty()),
        !(last is Goto) ==> without_goto(out.push(last), node) == Ok::<Seq<Stmt>, StructureError>(
            out.push(last),
        ),
        last == (Stmt::Goto { label: seq![letter] + rest }) && rest == decimal(node as nat)
            ==> without_goto(out.push(last), node) == Ok::<Seq<Stmt>, StructureError>(out),
        last == (Stmt::Goto { label: seq![letter] + rest }) && rest != decimal(node as nat)
            ==> without_goto(out.push(last), node) == Ok::<Seq<Stmt>, StructureError>(
            out.push(last),
        ),
        last == (Stmt::Goto { label: Seq::empty() }) ==> without_goto(out.push(last), node)
            == Err::<Seq<Stmt>, StructureError>(StructureError::MalformedLabel),
{
    let label = seq![letter] + rest;
    assert(out.push(last).last() == last);
    assert(out.push(last).drop_last() =~= out);
    assert(label[0] == letter);
    assert(label.skip(1) =~= rest);
}

/// What a block leads to next are the blocks that the labels of its gotos stand in, as
/// far as they are still to be written, in the order in which the labels first occur.
pub proof fn gotos_lead_to_the_blocks_of_their_labels(
    labels: Map<Seq<char>, u32>,
    blocks: Map<u32, Seq<Stmt>>,
    list: Seq<Seq<char>>,
    label: Seq<char>,
)
    ensures
        targets(labels, blocks, Seq::<Seq<char>>::empty()) == Seq::<u32>::empty(),
        list.contains(label) || !blocks.contains_key(labels[label]) ==> targets(
            labels,
            blocks,
            list.push(label),
        ) == targets(labels, blocks, list),
        !list.contains(label) && blocks.contains_key(labels[label]) ==> targets(
            labels,
            blocks,
            list.push(label),
        ) == targets(labels, blocks, list).push(labels[label]),
        forall|n: u32| #[trigger]
            targets(labels, blocks, list).contains(n) <==> blocks.contains_key(n) && exists|i: int|
                0 <= i < list.len() && labels[#[trigger] list[i]] == n,
{
    assert(list.push(label).drop_last() =~= list);
    lemma_targets_of(labels, blocks, list);
}

proof fn lemma_targets_of(
    labels: Map<Seq<char>, u32>,
    blocks: Map<u32, Seq<Stmt>>,
    list: Seq<Seq<char>>,
)
    ensures
        forall|n: u32| #[trigger]
            targets(labels, blocks, list).contains(n) <==> blocks.contains_key(n) && exists|i: int|
                0 <= i < list.len() && labels[#[trigger] list[i]] == n,
    decreases list.len(),
{
    if list.len() > 0 {
        let front = list.drop_last();
        let earlier = targets(labels, blocks, front);
        lemma_targets_of(labels, blocks, front);
        lemma_push_one(earlier, labels[list.last()]);
        assert forall|n: u32| #[trigger]
            targets(labels, blocks, list).contains(n) <==> blocks.contains_key(n) && exists|i: int|
                0 <= i < list.len() && labels[#[trigger] list[i]] == n by {
            if earlier.contains(n) {
                let i = choose|i: int| 0 <= i < front.len() && labels[#[trigger] front[i]] == n;
                assert(labels[list[i]] == n);
            }
            if blocks.contains_key(n) && exists|i: int|
                0 <= i < list.len() && labels[#[trigger] list[i]] == n {
                let i = choose|i: int| 0 <= i < list.len() && labels[#[trigger] list[i]] == n;
                if i < front.len() {
                    assert(labels[front[i]] == n);
                } else if front.contains(list.last()) {
                    let j = choose|j: int| 0 <= j < front.len() && front[j] == list.last();
                    assert(labels[front[j]] == n);
                }
            }
            if n == labels[list.last()] {
                assert(labels[list[list.len() - 1]] == n);
            }
        }
    }
}

/// The last block on the stack is written next, where it has not been written, and
/// after it what its gotos lead to, before the rest of the stack.  A goto to a label
/// that stands nowhere ends the writing.
pub proof fn writing_follows_the_gotos(
    labels: Map<Seq<char>, u32>,
    blocks: Map<u32, Seq<Stmt>>,
    stack: Seq<u32>,
    node: u32,
    out: Seq<Stmt>,
)
    requires
        blocks.dom().finite(),
    ensures
        writes_on(labels, blocks, Seq::<u32>::empty(), out) == Ok::<Writing, StructureError>(
            Writing { blocks, out },
        ),
        !blocks.contains_key(node) ==> writes_on(labels, blocks, stack.push(node), out)
            == writes_on(labels, blocks, stack, out),
        blocks.contains_key(node) && (exists|i: int|
            0 <= i < gotos_in(blocks[node]).len() && !labels.contains_key(
                #[trigger] gotos_in(blocks[node])[i],
            )) ==> writes_on(labels, blocks, stack.push(node), out) == Err::<
            Writing,
            StructureError,
        >(StructureError::UnknownLabel),
        blocks.contains_key(node) && (forall|i: int|
            0 <= i < gotos_in(blocks[node]).len() ==> labels.contains_key(
                #[trigger] gotos_in(blocks[node])[i],
            )) && without_goto(out, node) is Ok ==> writes_on(
            labels,
            blocks,
            stack.push(node),
            out,
        ) == writes_on(
            labels,
            blocks.remove(node),
            stack + targets(labels, blocks.remove(node), gotos_in(blocks[node])),
            without_goto(out, node)->Ok_0 + headed(node, blocks[node]),
        ),
        blocks.contains_key(node) && (forall|i: int|
            0 <= i < gotos_in(blocks[node]).len() ==> labels.contains_key(
                #[trigger] gotos_in(blocks[node])[i],
            )) && without_goto(out, node) is Err ==> writes_on(
            labels,
            blocks,
            stack.push(node),
            out,
        ) == Err::<Writing, StructureError>(without_goto(out, node)->Err_0),
{
    assert(stack.push(node).drop_last() =~= stack);
    assert(stack.push(node).last() == node);
}

/// What a goto of a written block leads to is written too, before the blocks that no
/// goto leads to, and so is everything on the stack.
pub proof fn gotos_are_followed(
    labels: Map<Seq<char>, u32>,
    blocks: Map<u32, Seq<Stmt>>,
    stack: Seq<u32>,
    out: Seq<Stmt>,
)
    requires
        blocks.dom().finite(),
        writes_on(labels, blocks, stack, out) is Ok,
    ensures
        forall|n: u32| #[trigger]
            stack.contains(n) ==> !writes_on(labels, blocks, stack, out)->Ok_0.blocks.contains_key(
                n,
            ),
        forall|n: u32, i: int|
            blocks.contains_key(n) && !writes_on(
                labels,
                blocks,
                stack,
                out,
            )->Ok_0.blocks.contains_key(n) && 0 <= i < gotos_in(blocks[n]).len()
                ==> !writes_on(labels, blocks, stack, out)->Ok_0.blocks.contains_key(
                labels[#[trigger] gotos_in(blocks[n])[i]],
            ),
        forall|n: u32| #[trigger]
            writes_on(labels, blocks, stack, out)->Ok_0.blocks.contains_key(n)
                ==> blocks.contains_key(n),
    decreases blocks.dom().len(), stack.len(),
{
    let writing = writes_on(labels, blocks, stack, out)->Ok_0;
    if stack.len() > 0 {
        let node = stack.last();
        let front = stack.drop_last();
        assert(stack =~= front.push(node));
        lemma_push_one(front, node);
        if !blocks.contains_key(node) {
            gotos_are_followed(labels, blocks, front, out);
        } else {
            let left = blocks.remove(node);
            let gotos = gotos_in(blocks[node]);
            let more = targets(labels, left, gotos);
            let text = without_goto(out, node)->Ok_0 + headed(node, blocks[node]);
            assert(writes_on(labels, left, front + more, text) == writes_on(
                labels,
                blocks,
                stack,
                out,
            ));
            gotos_are_followed(labels, left, front + more, text);
            assert(forall|n: u32| #[trigger]
                writing.blocks.contains_key(n) ==> left.contains_key(n));
            lemma_appended(front, more);
            lemma_targets_of(labels, left, gotos);
            assert(!left.contains_key(node));
            assert forall|n: u32| #[trigger] stack.contains(n) implies
                !writing.blocks.contains_key(n) by {
                if n != node {
                    assert(front.contains(n));
                    assert((front + more).contains(n));
                }
            }
            assert forall|n: u32, i: int|
                blocks.contains_key(n) && !writing.blocks.contains_key(n) && 0 <= i < gotos_in(
                    blocks[n],
                ).len() implies !writing.blocks.contains_key(
                labels[#[trigger] gotos_in(blocks[n])[i]],
            ) by {
                let m = labels[gotos_in(blocks[n])[i]];
                if n == node {
                    if left.contains_key(m) {
                        assert(labels[gotos[i]] == m);
                        assert(more.contains(m));
                        assert((front + more).contains(m));
                    }
                } else {
                    assert(left.contains_key(n) && left[n] == blocks[n]);
                    assert(!writing.blocks.contains_key(labels[gotos_in(left[n])[i]]));
                }
            }
        }
    }
}

/// A function of one block is written as that block, but for a last return of nothing,
/// and everything else is kept.
pub proof fn single_blocks_are_written_as_they_are(
    state: StructurerView,
    result: Result<Seq<Stmt>, StructureError>,
)
    requires
        writes(state, result),
        state.function.entry is Some,
        state.function.blocks.contains_key(state.function.entry->0),
        state.function.flow.out.dom().len() == 1,
    ensures
        result is Ok,
        state.function.blocks[state.function.entry->0].len() > 0
            && state.function.blocks[state.function.entry->0].last() == (Stmt::Return {
            values: Seq::empty(),
        }) ==> result->Ok_0 == state.function.blocks[state.function.entry->0].drop_last(),
        !(state.function.blocks[state.function.entry->0].len() > 0
            && state.function.blocks[state.function.entry->0].last() == (Stmt::Return {
            values: Seq::empty(),
        })) ==> result->Ok_0 == state.function.blocks[state.function.entry->0],
{
    let block = state.function.blocks[state.function.entry->0];
    if block.len() > 0 {
        assert(block =~= block.drop_last().push(block.last()));
        only_a_last_return_of_nothing_goes(block.drop_last(), block.last());
    } else {
        assert(block =~= Seq::<Stmt>::empty());
        only_a_last_return_of_nothing_goes(Seq::empty(), Stmt::Empty);
    }
}

/// A function of several blocks is written from the entry on, and behind what gotos
/// lead to come the other blocks in ascending order.  Without an entry it is not
/// written.
pub proof fn several_blocks_are_written_from_the_entry_on(
    state: StructurerView,
    result: Result<Seq<Stmt>, StructureError>,
)
    requires
        writes(state, result),
        state.function.flow.out.dom().len() != 1,
    ensures
        state.function.entry is None || !state.function.blocks.contains_key(
            state.function.entry->0,
        ) ==> result == Err::<Seq<Stmt>, StructureError>(StructureError::MissingEntry),
        state.function.entry is Some && state.function.blocks.contains_key(
            state.function.entry->0,
        ) ==> match writes_on(
            state.labels,
            state.function.blocks,
            seq![state.function.entry->0],
            Seq::empty(),
        ) {
            Err(error) => result == Err::<Seq<Stmt>, StructureError>(error),
            Ok(writing) => result is Ok && exists|nodes: Seq<u32>| #[trigger]
                ascending(nodes, writing.blocks.dom()) && result->Ok_0 == writing.out + written(
                    writing.blocks,
                    nodes,
                ),
        },
{
}

/// Structuring is collapsing and writing down what is left.
pub proof fn structuring_writes_what_is_left<P: Patterns>(
    patterns: P,
    before: StructurerView,
    result: Result<Seq<Stmt>, StructureError>,
)
    requires
        structures(patterns, before, result),
    ensures
        result is Ok ==> exists|left: StructurerView| #[trigger]
            collapses(patterns, before, left) && writes(left, result),
        result is Err ==> collapse_fails(patterns, before, result->Err_0) || exists|
            left: StructurerView,
        | #[trigger]
            collapses(patterns, before, left) && writes(left, result),
{
}

/// The text of what is written is what is written.
pub proof fn texts_are_what_is_written(block: Block, error: StructureError)
    ensures
        text_of(Ok(block)) == Ok::<Seq<Stmt>, StructureError>(block@),
        text_of(Err(error)) == Err::<Seq<Stmt>, StructureError>(error),
{
}

/// Labels whose first character takes one byte can be taken apart.
pub proof fn plain_labels_start_with_one_byte(label: Seq<char>)
    ensures
        is_plain(label) <==> label.len() > 0 && (label[0] as u32) < 0x80,
{
}

} // verus!
