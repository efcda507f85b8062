//! The names that nodes have in the output.

use vstd::prelude::*;

verus! {

/// The character for a number below ten.
pub open spec fn digit(n: nat) -> char {
    (48 + n) as char
}

/// A number written in decimal digits, without leading zeros.
pub open spec fn decimal(n: nat) -> Seq<char>
    decreases n,
{
    if n < 10 {
        seq![digit(n)]
    } else {
        decimal(n / 10).push(digit(n % 10))
    }
}

/// The name of the label that gotos to `node` use.
pub open spec fn jump_label(node: u32) -> Seq<char> {
    seq!['l'] + decimal(node as nat)
}

/// The text of the comment that stands above the statements of `node`.
pub open spec fn block_heading(node: u32) -> Seq<char> {
    seq!['b', 'l', 'o', 'c', 'k', ' '] + decimal(node as nat)
}

fn digit_text(n: u32) -> (text: &'static str)
    requires
        n < 10,
    ensures
        text@ == seq![digit(n as nat)],
{
    proof {
        reveal_strlit("0");
        reveal_strlit("1");
        reveal_strlit("2");
        reveal_strlit("3");
        reveal_strlit("4");
        reveal_strlit("5");
        reveal_strlit("6");
        reveal_strlit("7");
        reveal_strlit("8");
        reveal_strlit("9");
    }
    let text = match n {
        0 => "0",
        1 => "1",
        2 => "2",
        3 => "3",
        4 => "4",
        5 => "5",
        6 => "6",
        7 => "7",
        8 => "8",
        _ => "9",
    };
    assert(text@ =~= seq![digit(n as nat)]);
    text
}

/// Writes a number in decimal digits.
pub fn to_decimal(n: u32) -> (text: String)
    ensures
        text@ == decimal(n as nat),
    decreases n,
{
    if n < 10 {
        String::from_str(digit_text(n))
    } else {
        let mut text = to_decimal(n / 10);
        text.append(digit_text(n % 10));
        assert(text@ =~= decimal(n as nat));
        text
    }
}

/// The name of the label that gotos to `node` use.
pub fn to_jump_label(node: u32) -> (text: String)
    ensures
        text@ == jump_label(node),
{
    let mut text = String::from_str("l");
    text.append(to_decimal(node).as_str());
    proof {
        reveal_strlit("l");
        assert(text@ =~= jump_label(node));
    }
    text
}

/// The text of the comment that stands above the statements of `node`.
pub fn to_block_heading(node: u32) -> (text: String)
    ensures
        text@ == block_heading(node),
{
    let mut text = String::from_str("block ");
    text.append(to_decimal(node).as_str());
    proof {
        reveal_strlit("block ");
        assert(text@ =~= block_heading(node));
    }
    text
}

/// Different numbers are written differently.
pub proof fn decimals_differ(a: nat, b: nat)
    requires
        decimal(a) == decimal(b),
    ensures
        a == b,
    decreases a,
{
    reveal_with_fuel(decimal, 2);
    if a < 10 && b < 10 {
        assert(decimal(a)[0] == digit(a));
        assert(decimal(b)[0] == digit(b));
    } else if a >= 10 && b >= 10 {
        assert(decimal(a).last() == digit(a % 10));
        assert(decimal(b).last() == digit(b % 10));
        assert(decimal(a).drop_last() =~= decimal(a / 10));
        assert(decimal(b).drop_last() =~= decimal(b / 10));
        decimals_differ(a / 10, b / 10);
    } else if a < 10 {
        lemma_decimal_len(b / 10);
        assert(decimal(b).len() == decimal(b / 10).len() + 1);
    } else {
        lemma_decimal_len(a / 10);
        assert(decimal(a).len() == decimal(a / 10).len() + 1);
    }
}

/// Every number has a digit.
proof fn lemma_decimal_len(n: nat)
    ensures
        decimal(n).len() >= 1,
    decreases n,
{
    if n >= 10 {
        lemma_decimal_len(n / 10);
    }
}

/// Jumps to different nodes use different labels.
pub proof fn jump_labels_differ(a: u32, b: u32)
    requires
        jump_label(a) == jump_label(b),
    ensures
        a == b,
{
    assert(jump_label(a).skip(1) =~= decimal(a as nat));
    assert(jump_label(b).skip(1) =~= decimal(b as nat));
    decimals_differ(a as nat, b as nat);
}

/// The number that a text of digits stands for.
pub open spec fn number_read(text: Seq<char>) -> int
    decreases text.len(),
{
    if text.len() == 0 {
        0
    } else {
        10 * number_read(text.drop_last()) + (text.last() as u32 - '0' as u32)
    }
}

/// A number is written in digits, of which the first is zero only where it is the
/// only one, and can be read back.
pub proof fn numbers_are_read_back(n: nat)
    ensures
        number_read(decimal(n)) == n,
        decimal(n).len() > 0,
        forall|i: int| 0 <= i < decimal(n).len() ==> '0' <= #[trigger] decimal(n)[i] <= '9',
        decimal(n).len() > 1 ==> decimal(n)[0] != '0',
    decreases n,
{
    reveal_with_fuel(number_read, 2);
    if n < 10 {
        assert(decimal(n).drop_last() =~= Seq::<char>::empty());
        assert(digit(n) as u32 == 48 + n);
    } else {
        numbers_are_read_back(n / 10);
        let front = decimal(n / 10);
        assert(decimal(n).drop_last() =~= front);
        assert(decimal(n).last() == digit(n % 10));
        assert(digit(n % 10) as u32 == 48 + n % 10);
        assert(decimal(n)[0] == front[0]);
        if front.len() == 1 {
            assert(front[0] != '0') by {
                if n / 10 < 10 {
                    assert(front[0] == digit(n / 10));
                    assert(digit(n / 10) as u32 == 48 + n / 10);
                } else {
                    lemma_decimal_len(n / 10 / 10);
                }
            }
        }
    }
}

/// The label for jumps to a node is a letter and its number.
pub proof fn jump_labels_hold_the_number(node: u32)
    ensures
        jump_label(node).len() > 1,
        jump_label(node)[0] == 'l',
        number_read(jump_label(node).skip(1)) == node,
        jump_label(node).skip(1) == decimal(node as nat),
{
    numbers_are_read_back(node as nat);
    assert(jump_label(node).skip(1) =~= decimal(node as nat));
}

/// The heading of a node is a word and its number.
pub proof fn headings_hold_the_number(node: u32)
    ensures
        block_heading(node).take(6) == "block "@,
        number_read(block_heading(node).skip(6)) == node,
        block_heading(node).skip(6) == decimal(node as nat),
{
    reveal_strlit("block ");
    numbers_are_read_back(node as nat);
    assert(block_heading(node).take(6) =~= "block "@);
    assert(block_heading(node).skip(6) =~= decimal(node as nat));
}

} // verus!
