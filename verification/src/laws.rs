//! What holds of the tokenizer and the parser on whole families of texts.

use vstd::prelude::*;
use crate::expr::{BinOp, ExprView};
use crate::parser::{ParseErrorView, additive, multiplicative, parse_text};
use crate::token::{TokenView, count_points, digit_value, is_digit, is_literal, mantissa, scale};
use crate::tokenizer::{TokenizerView, is_blank, lemma_blanks_are_dropped};
use crate::writing::{
    fitted, lemma_parsed_is_well_formed, lemma_reading_inverts_writing, operator_char,
    operator_token, text_of, well_formed, written,
};

verus! {

/// The digit that stands for `value`, a number below ten.
pub open spec fn digit_char(value: nat) -> char {
    ('0' as int + value) as char
}

/// The decimal digits of `n`, without leading zeros.
pub open spec fn decimal(n: nat) -> Seq<char>
    decreases n,
{
    if n < 10 {
        seq![digit_char(n)]
    } else {
        decimal(n / 10).push(digit_char(n % 10))
    }
}

/// The digits of a number form a literal without a point, and they denote
/// that number.
pub proof fn lemma_decimal_denotes(n: nat)
    ensures
        is_literal(decimal(n)),
        count_points(decimal(n)) == 0,
        forall|i: int| 0 <= i < decimal(n).len() ==> is_digit(#[trigger] decimal(n)[i]),
        mantissa(decimal(n)) == n,
        scale(decimal(n)) == 0,
    decreases n,
{
    let text = decimal(n);
    if n < 10 {
        assert(text.drop_last() =~= Seq::<char>::empty());
        assert(count_points(text.drop_last()) == 0);
        assert(mantissa(text.drop_last()) == 0);
        assert(digit_value(text.last()) == n);
    } else {
        lemma_decimal_denotes(n / 10);
        let shorter = decimal(n / 10);
        assert(text.drop_last() =~= shorter);
        assert(text.last() == digit_char(n % 10));
        assert(digit_value(text.last()) == n % 10);
        assert(text[0] == shorter[0]);
        assert forall|i: int| 0 <= i < text.len() implies is_digit(#[trigger] text[i]) by {
            if i < shorter.len() {
                assert(text[i] == shorter[i]);
            }
        }
    }
}

/// The tree of one number.
pub open spec fn number(text: Seq<char>) -> ExprView {
    ExprView::Num(text)
}

/// The tree of the negative of `inner`.
pub open spec fn negative(inner: ExprView) -> ExprView {
    ExprView::Negate(Box::new(inner))
}

/// The tree that joins two trees by an operator.
pub open spec fn binary(left: ExprView, op: BinOp, right: ExprView) -> ExprView {
    ExprView::Binary(op, Box::new(left), Box::new(right))
}

/// The text of one operator.
pub open spec fn sign(op: BinOp) -> Seq<char> {
    seq![operator_char(op)]
}

/// A literal alone is the expression of that number: the tree is the number
/// as it was written.
pub proof fn lemma_literal_parses_to_itself(text: Seq<char>)
    requires
        is_literal(text),
    ensures
        parse_text(text) == Ok::<ExprView, ParseErrorView>(number(text)),
{
    lemma_reading_inverts_writing(number(text));
    assert(text_of(number(text)) =~= text);
}

/// Every natural number, written in decimal digits, is the expression of
/// that number: its tree is the literal, which denotes the number itself,
/// with nothing behind the point.
pub proof fn lemma_integer_literal(n: nat)
    ensures
        parse_text(decimal(n)) == Ok::<ExprView, ParseErrorView>(number(decimal(n))),
        mantissa(decimal(n)) == n,
        scale(decimal(n)) == 0,
{
    lemma_decimal_denotes(n);
    lemma_literal_parses_to_itself(decimal(n));
}

/// Two literals with one operator between them are the expression that
/// applies the operator to the two numbers, in that order.
pub proof fn lemma_binary_expression(left: Seq<char>, op: BinOp, right: Seq<char>)
    requires
        is_literal(left),
        is_literal(right),
    ensures
        parse_text(left + sign(op) + right) == Ok::<ExprView, ParseErrorView>(
            binary(number(left), op, number(right)),
        ),
{
    let tree = binary(number(left), op, number(right));
    reveal_with_fuel(well_formed, 3);
    reveal_with_fuel(written, 4);
    reveal_with_fuel(fitted, 4);
    lemma_reading_inverts_writing(tree);
    assert(text_of(tree) =~= left + sign(op) + right);
}

/// `*` and `/` bind tighter than `+` and `-`: in `a + b * c` the product is
/// the right operand of the sum.
pub proof fn lemma_product_binds_tighter(
    a: Seq<char>,
    plus: BinOp,
    b: Seq<char>,
    times: BinOp,
    c: Seq<char>,
)
    requires
        is_literal(a),
        is_literal(b),
        is_literal(c),
        additive(operator_token(plus)) is Some,
        multiplicative(operator_token(times)) is Some,
    ensures
        parse_text(a + sign(plus) + b + sign(times) + c) == Ok::<ExprView, ParseErrorView>(
            binary(number(a), plus, binary(number(b), times, number(c))),
        ),
{
    let tree = binary(number(a), plus, binary(number(b), times, number(c)));
    reveal_with_fuel(well_formed, 3);
    reveal_with_fuel(written, 4);
    reveal_with_fuel(fitted, 4);
    lemma_reading_inverts_writing(tree);
    let product = b + (sign(times) + (c + Seq::<char>::empty()));
    assert(written(binary(number(b), times, number(c)), Seq::empty()) == product);
    assert(text_of(tree) == a + (sign(plus) + product));
    assert(text_of(tree) =~= a + sign(plus) + b + sign(times) + c);
}

/// Parentheses override that: in `(a + b) * c` the sum is the left operand
/// of the product.
pub proof fn lemma_parentheses_group(
    a: Seq<char>,
    plus: BinOp,
    b: Seq<char>,
    times: BinOp,
    c: Seq<char>,
)
    requires
        is_literal(a),
        is_literal(b),
        is_literal(c),
        additive(operator_token(plus)) is Some,
        multiplicative(operator_token(times)) is Some,
    ensures
        parse_text(seq!['('] + a + sign(plus) + b + seq![')'] + sign(times) + c) == Ok::<
            ExprView,
            ParseErrorView,
        >(binary(binary(number(a), plus, number(b)), times, number(c))),
{
    let tree = binary(binary(number(a), plus, number(b)), times, number(c));
    reveal_with_fuel(well_formed, 3);
    reveal_with_fuel(written, 4);
    reveal_with_fuel(fitted, 4);
    lemma_reading_inverts_writing(tree);
    let behind = seq![')'] + (sign(times) + (c + Seq::<char>::empty()));
    assert(written(binary(number(a), plus, number(b)), behind) == a + (sign(plus) + (b + behind)));
    assert(text_of(tree) == seq!['('] + (a + (sign(plus) + (b + behind))));
    assert(text_of(tree) =~= seq!['('] + a + sign(plus) + b + seq![')'] + sign(times) + c);
}

/// `^` groups to the right: `a ^ b ^ c` raises `a` to the power `b ^ c`.
pub proof fn lemma_caret_groups_right(a: Seq<char>, b: Seq<char>, c: Seq<char>)
    requires
        is_literal(a),
        is_literal(b),
        is_literal(c),
    ensures
        parse_text(a + sign(BinOp::Power) + b + sign(BinOp::Power) + c) == Ok::<
            ExprView,
            ParseErrorView,
        >(binary(number(a), BinOp::Power, binary(number(b), BinOp::Power, number(c)))),
{
    let tree = binary(number(a), BinOp::Power, binary(number(b), BinOp::Power, number(c)));
    reveal_with_fuel(well_formed, 3);
    reveal_with_fuel(written, 4);
    reveal_with_fuel(fitted, 4);
    lemma_reading_inverts_writing(tree);
    let power = b + (sign(BinOp::Power) + (c + Seq::<char>::empty()));
    assert(written(binary(number(b), BinOp::Power, number(c)), Seq::empty()) == power);
    assert(text_of(tree) == a + (sign(BinOp::Power) + power));
    assert(text_of(tree) =~= a + sign(BinOp::Power) + b + sign(BinOp::Power) + c);
}

/// Operators of one rule group to the left: `a - b + c` adds `c` to `a - b`,
/// and `a / b * c` multiplies `a / b` by `c`.
pub proof fn lemma_others_group_left(
    a: Seq<char>,
    first: BinOp,
    b: Seq<char>,
    second: BinOp,
    c: Seq<char>,
)
    requires
        is_literal(a),
        is_literal(b),
        is_literal(c),
        (additive(operator_token(first)) is Some && additive(operator_token(second)) is Some) || (
        multiplicative(operator_token(first)) is Some && multiplicative(operator_token(second))
            is Some),
    ensures
        parse_text(a + sign(first) + b + sign(second) + c) == Ok::<ExprView, ParseErrorView>(
            binary(binary(number(a), first, number(b)), second, number(c)),
        ),
{
    let tree = binary(binary(number(a), first, number(b)), second, number(c));
    reveal_with_fuel(well_formed, 3);
    reveal_with_fuel(written, 4);
    reveal_with_fuel(fitted, 4);
    lemma_reading_inverts_writing(tree);
    let behind = sign(second) + (c + Seq::<char>::empty());
    assert(written(binary(number(a), first, number(b)), behind) == a + (sign(first) + (b + behind)));
    assert(text_of(tree) == a + (sign(first) + (b + behind)));
    assert(text_of(tree) =~= a + sign(first) + b + sign(second) + c);
}

/// A minus sign in front binds tighter than `^`: `-a ^ b` raises the
/// negative of `a` to the power `b`.
pub proof fn lemma_minus_binds_tightest(a: Seq<char>, b: Seq<char>)
    requires
        is_literal(a),
        is_literal(b),
    ensures
        parse_text(seq!['-'] + a + sign(BinOp::Power) + b) == Ok::<ExprView, ParseErrorView>(
            binary(negative(number(a)), BinOp::Power, number(b)),
        ),
{
    let tree = binary(negative(number(a)), BinOp::Power, number(b));
    reveal_with_fuel(well_formed, 3);
    reveal_with_fuel(written, 4);
    reveal_with_fuel(fitted, 4);
    lemma_reading_inverts_writing(tree);
    let behind = sign(BinOp::Power) + (b + Seq::<char>::empty());
    assert(written(negative(number(a)), behind) == seq!['-'] + (a + behind));
    assert(text_of(tree) == seq!['-'] + (a + behind));
    assert(text_of(tree) =~= seq!['-'] + a + sign(BinOp::Power) + b);
}

/// Blanks in front of an expression change nothing of its tree, nor of its
/// error.
pub proof fn lemma_leading_blanks_are_ignored(blanks: Seq<char>, text: Seq<char>)
    requires
        forall|i: int| 0 <= i < blanks.len() ==> is_blank(#[trigger] blanks[i]),
    ensures
        parse_text(blanks + text) == parse_text(text),
{
    lemma_blanks_are_dropped(blanks, text);
}

/// What is read can be written and read again, and the tree stays: a tree
/// that comes out of the parser is the tree of its own text.
pub proof fn lemma_rewriting_keeps_tree(text: Seq<char>)
    ensures
        match parse_text(text) {
            Ok(tree) => parse_text(text_of(tree)) == Ok::<ExprView, ParseErrorView>(tree),
            Err(_) => true,
        },
{
    lemma_parsed_is_well_formed(text);
    if let Ok(tree) = parse_text(text) {
        lemma_reading_inverts_writing(tree);
    }
}

/// Pulls add up: `first + second` pulls are `first` pulls and then `second`
/// more.
pub proof fn lemma_pulls_add_up(state: TokenizerView, first: nat, second: nat)
    ensures
        state.after(first + second) == state.after(first).after(second),
    decreases first,
{
    if first > 0 {
        lemma_pulls_add_up(state.pull().1, (first - 1) as nat, second);
    }
}

/// A tokenizer that has stopped stays as it is, whatever is pulled.
pub proof fn lemma_stopped_stays(state: TokenizerView, count: nat)
    requires
        !(state.status is Active),
    ensures
        state.after(count) == state,
        state.pull().0 is None,
    decreases count,
{
    if count > 0 {
        lemma_stopped_stays(state, (count - 1) as nat);
    }
}

/// Nothing comes after nothing: once a pull has handed out no token, no
/// later pull hands one out. The tokenizer never reads past a failure.
pub proof fn lemma_nothing_after_nothing(state: TokenizerView, earlier: nat, later: nat)
    requires
        earlier <= later,
        state.after(earlier).pull().0 is None,
    ensures
        state.after(later).pull().0 is None,
{
    let failed = state.after(earlier);
    let more = (later - earlier) as nat;
    lemma_pulls_add_up(state, earlier, more);
    if more > 0 {
        lemma_stopped_stays(failed.pull().1, (more - 1) as nat);
    }
}

/// The end comes once: after the pull that hands out `EOF`, no pull hands
/// out anything.
pub proof fn lemma_end_comes_once(state: TokenizerView, earlier: nat, later: nat)
    requires
        earlier < later,
        state.after(earlier).pull().0 == Some(TokenView::EOF),
    ensures
        state.after(later).pull().0 is None,
{
    let last = state.after(earlier);
    let more = (later - earlier) as nat;
    lemma_pulls_add_up(state, earlier, more);
    lemma_stopped_stays(last.pull().1, (more - 1) as nat);
}

/// Two tokenizers in the same state hand out the same tokens, pull after
/// pull, and stand in the same state after them: what a pull gives depends on
/// nothing but the text still to read and on where the tokenizer stands.
pub proof fn lemma_same_text_same_tokens(first: TokenizerView, second: TokenizerView, count: nat)
    requires
        first == second,
    ensures
        first.pulls(count) == second.pulls(count),
        first.after(count) == second.after(count),
{
}

} // verus!
