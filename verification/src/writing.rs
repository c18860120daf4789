//! Writing a tree as text, and the law that reading the text gives the tree
//! back: every tree has a text, and the grammar reads that text in one way
//! only.

use vstd::prelude::*;
use crate::expr::{BinOp, ExprView};
use crate::parser::{
    ParseErrorView, Parsed, ParserView, additive, join, lemma_advance_nearer,
    lemma_factor_nearer, lemma_factor_round, lemma_power_nearer, lemma_power_round,
    lemma_primary_round, lemma_product_round, lemma_sum_round, lemma_term_nearer,
    multiplicative, parse_text,
};
use crate::token::{TokenView, is_literal};
use crate::tokenizer::{
    Status, TokenizerView, lemma_end_is_one_token, lemma_literal_is_one_token,
    lemma_lex_literal, lemma_symbol_is_one_token, lex, symbol,
};

verus! {

/// The character that is written for `op`.
pub open spec fn operator_char(op: BinOp) -> char {
    match op {
        BinOp::Add => '+',
        BinOp::Subtract => '-',
        BinOp::Multiply => '*',
        BinOp::Divide => '/',
        BinOp::Power => '^',
    }
}

/// The token that is read for `op`.
pub open spec fn operator_token(op: BinOp) -> TokenView {
    match op {
        BinOp::Add => TokenView::Add,
        BinOp::Subtract => TokenView::Subtract,
        BinOp::Multiply => TokenView::Multiply,
        BinOp::Divide => TokenView::Divide,
        BinOp::Power => TokenView::Caret,
    }
}

/// The parser on `token`, with `remaining` still to read.
pub open spec fn reading(token: TokenView, remaining: Seq<char>) -> ParserView {
    ParserView { token, lexer: TokenizerView { remaining, status: Status::Active } }
}

/// The parser at the end of a text.
pub open spec fn at_end() -> ParserView {
    ParserView {
        token: TokenView::EOF,
        lexer: TokenizerView { remaining: Seq::empty(), status: Status::Finished },
    }
}

/// Every number of `tree` is a literal.
pub open spec fn well_formed(tree: ExprView) -> bool
    decreases tree,
{
    match tree {
        ExprView::Num(text) => is_literal(text),
        ExprView::Negate(inner) => well_formed(*inner),
        ExprView::Binary(_, left, right) => well_formed(*left) && well_formed(*right),
    }
}

/// The rule of the grammar that reads `tree` without parentheses around it:
/// 0 for an expression, 1 for a term, 2 for a factor, 3 for a power, 4 for a
/// primary.
pub open spec fn rank(tree: ExprView) -> nat {
    match tree {
        ExprView::Num(_) => 4,
        ExprView::Negate(_) => 3,
        ExprView::Binary(BinOp::Power, _, _) => 2,
        ExprView::Binary(BinOp::Multiply, _, _) => 1,
        ExprView::Binary(BinOp::Divide, _, _) => 1,
        ExprView::Binary(BinOp::Add, _, _) => 0,
        ExprView::Binary(BinOp::Subtract, _, _) => 0,
    }
}

/// The rule that reads what stands on the left of `op`.
pub open spec fn left_rank(op: BinOp) -> nat {
    match op {
        BinOp::Add => 0,
        BinOp::Subtract => 0,
        BinOp::Multiply => 1,
        BinOp::Divide => 1,
        BinOp::Power => 3,
    }
}

/// The rule that reads what stands on the right of `op`.
pub open spec fn right_rank(op: BinOp) -> nat {
    match op {
        BinOp::Add => 1,
        BinOp::Subtract => 1,
        BinOp::Multiply => 2,
        BinOp::Divide => 2,
        BinOp::Power => 2,
    }
}

/// The text of `tree`, with `rest` behind it.
pub open spec fn written(tree: ExprView, rest: Seq<char>) -> Seq<char>
    decreases tree, 0nat,
{
    match tree {
        ExprView::Num(text) => text + rest,
        ExprView::Negate(inner) => seq!['-'] + fitted(*inner, 4, rest),
        ExprView::Binary(op, left, right) => fitted(
            *left,
            left_rank(op),
            seq![operator_char(op)] + fitted(*right, right_rank(op), rest),
        ),
    }
}

/// The text of `tree` where the rule `level` is to read it, with `rest`
/// behind it: in parentheses where that rule would not read the tree bare.
pub open spec fn fitted(tree: ExprView, level: nat, rest: Seq<char>) -> Seq<char>
    decreases tree, 1nat,
{
    if rank(tree) >= level {
        written(tree, rest)
    } else {
        seq!['('] + written(tree, seq![')'] + rest)
    }
}

/// The text of `tree`: no blanks, and no parentheses but those that the
/// shape of the tree needs.
pub open spec fn text_of(tree: ExprView) -> Seq<char> {
    written(tree, Seq::empty())
}

/// The parser after the first pull on `text`.
pub open spec fn enter(text: Seq<char>) -> ParserView {
    let (token, lexer) = TokenizerView::start(text).pull();
    ParserView {
        token: match token {
            Some(token) => token,
            None => TokenView::EOF,
        },
        lexer,
    }
}

/// `rest` may stand behind the text of a tree: it is empty, or it begins
/// with an operator or a closing parenthesis.
pub open spec fn follows(rest: Seq<char>) -> bool {
    rest.len() == 0 || (symbol(rest[0]) is Some && rest[0] != '(')
}

/// `tree` with what is `pending` joined to the left of its first factor.
pub open spec fn graft_product(pending: Option<(ExprView, BinOp)>, tree: ExprView) -> ExprView
    decreases tree,
{
    match tree {
        ExprView::Binary(op, left, right) => if rank(tree) == 1 {
            ExprView::Binary(op, Box::new(graft_product(pending, *left)), right)
        } else {
            join(pending, tree)
        },
        _ => join(pending, tree),
    }
}

/// `tree` with what is `pending` joined to the left of its first term.
pub open spec fn graft_sum(pending: Option<(ExprView, BinOp)>, tree: ExprView) -> ExprView
    decreases tree,
{
    match tree {
        ExprView::Binary(op, left, right) => if rank(tree) == 0 {
            ExprView::Binary(op, Box::new(graft_sum(pending, *left)), right)
        } else {
            join(pending, tree)
        },
        _ => join(pending, tree),
    }
}

/// With nothing pending, nothing is joined.
pub proof fn lemma_graft_nothing(tree: ExprView)
    ensures
        graft_product(None, tree) == tree,
        graft_sum(None, tree) == tree,
    decreases tree,
{
    match tree {
        ExprView::Binary(_, left, _) => {
            lemma_graft_nothing(*left);
        },
        _ => {},
    }
}

/// A step forward from any token leads to the first token of the text
/// behind it, where that text has one.
pub proof fn lemma_step_into(token: TokenView, text: Seq<char>)
    requires
        lex(text) is Ok,
    ensures
        reading(token, text).advance() == (Ok::<(), ParseErrorView>(()), enter(text)),
{
    reveal(ParserView::advance);
}

/// What may stand behind a tree begins with a token, or is the end.
pub proof fn lemma_enter_rest(rest: Seq<char>)
    requires
        follows(rest),
    ensures
        lex(rest) is Ok,
        rest.len() == 0 ==> enter(rest) == at_end(),
        rest.len() > 0 ==> enter(rest) == reading(symbol(rest[0])->0, rest.drop_first()),
{
    if rest.len() == 0 {
        lemma_end_is_one_token();
        assert(rest =~= Seq::<char>::empty());
    } else {
        lemma_symbol_is_one_token(rest[0], rest.drop_first());
        assert(seq![rest[0]] + rest.drop_first() =~= rest);
    }
}

/// The parser enters a text that begins with a literal on that literal.
pub proof fn lemma_enter_literal(text: Seq<char>, rest: Seq<char>)
    requires
        is_literal(text),
        follows(rest),
    ensures
        lex(text + rest) is Ok,
        enter(text + rest) == reading(TokenView::Num(text), rest),
{
    lemma_literal_is_one_token(text, rest);
}

/// The parser enters a text that begins with an operator or a parenthesis
/// on that token.
pub proof fn lemma_enter_symbol(c: char, rest: Seq<char>)
    requires
        symbol(c) is Some,
    ensures
        lex(seq![c] + rest) is Ok,
        enter(seq![c] + rest) == reading(symbol(c)->0, rest),
        c != '(' ==> follows(seq![c] + rest),
{
    lemma_symbol_is_one_token(c, rest);
    assert((seq![c] + rest)[0] == c);
}

/// The text of a tree begins with a token that begins an operand.
pub proof fn lemma_starts(tree: ExprView, level: nat, rest: Seq<char>)
    requires
        well_formed(tree),
        follows(rest),
    ensures
        lex(fitted(tree, level, rest)) is Ok,
        enter(fitted(tree, level, rest)).token is Num || enter(
            fitted(tree, level, rest),
        ).token is Subtract || enter(fitted(tree, level, rest)).token is LeftParen,
    decreases tree,
{
    if rank(tree) < level {
        lemma_enter_symbol('(', written(tree, seq![')'] + rest));
    } else {
        match tree {
            ExprView::Num(text) => {
                lemma_enter_literal(text, rest);
            },
            ExprView::Negate(inner) => {
                lemma_enter_symbol('-', fitted(*inner, 4, rest));
            },
            ExprView::Binary(op, left, right) => {
                lemma_enter_symbol(operator_char(op), fitted(*right, right_rank(op), rest));
                lemma_starts(
                    *left,
                    left_rank(op),
                    seq![operator_char(op)] + fitted(*right, right_rank(op), rest),
                );
            },
        }
    }
}

/// `primary` reads the text of a tree that is fitted for it.
pub proof fn lemma_reads_primary(tree: ExprView, rest: Seq<char>)
    requires
        well_formed(tree),
        follows(rest),
    ensures
        enter(fitted(tree, 4, rest)).primary() == (Parsed { result: Ok(tree), state: enter(rest) }),
    decreases tree, (if rank(tree) < 4 { 16nat } else { 1nat }),
{
    let parser = enter(fitted(tree, 4, rest));
    lemma_enter_rest(rest);
    lemma_primary_round(parser);
    match tree {
        ExprView::Num(text) => {
            lemma_enter_literal(text, rest);
            lemma_step_into(TokenView::Num(text), rest);
        },
        _ => {
            let close = seq![')'] + rest;
            let inside = written(tree, close);
            lemma_enter_symbol('(', inside);
            lemma_enter_symbol(')', rest);
            lemma_starts(tree, 0, close);
            lemma_step_into(TokenView::LeftParen, inside);
            lemma_reads_sum(tree, None, close);
            lemma_graft_nothing(tree);
            lemma_step_into(TokenView::RightParen, rest);
            assert(enter(inside).expression() == enter(inside).sum(None));
            assert(enter(inside).expression() == (Parsed {
                result: Ok(tree),
                state: reading(TokenView::RightParen, rest),
            }));
        },
    }
}

/// `power` reads the text of a tree that is fitted for it.
pub proof fn lemma_reads_power(tree: ExprView, rest: Seq<char>)
    requires
        well_formed(tree),
        follows(rest),
    ensures
        enter(fitted(tree, 3, rest)).power() == (Parsed { result: Ok(tree), state: enter(rest) }),
    decreases tree, (if rank(tree) < 3 { 17nat } else { 2nat }),
{
    let parser = enter(fitted(tree, 3, rest));
    lemma_power_round(parser);
    match tree {
        ExprView::Negate(inner) => {
            let operand = fitted(*inner, 4, rest);
            lemma_enter_symbol('-', operand);
            lemma_starts(*inner, 4, rest);
            lemma_step_into(TokenView::Subtract, operand);
            lemma_reads_primary(*inner, rest);
        },
        ExprView::Num(text) => {
            lemma_enter_literal(text, rest);
            lemma_reads_primary(tree, rest);
        },
        _ => {
            lemma_enter_symbol('(', written(tree, seq![')'] + rest));
            lemma_reads_primary(tree, rest);
        },
    }
}

/// `factor` reads the text of a tree that is fitted for it, where no `^`
/// follows.
pub proof fn lemma_reads_factor(tree: ExprView, rest: Seq<char>)
    requires
        well_formed(tree),
        follows(rest),
        !(enter(rest).token is Caret),
    ensures
        enter(fitted(tree, 2, rest)).factor() == (Parsed { result: Ok(tree), state: enter(rest) }),
    decreases tree, (if rank(tree) < 2 { 18nat } else { 3nat }),
{
    let parser = enter(fitted(tree, 2, rest));
    lemma_factor_round(parser);
    if rank(tree) == 2 {
        match tree {
            ExprView::Binary(op, left, right) => {
                let exponent = fitted(*right, 2, rest);
                let behind = seq!['^'] + exponent;
                lemma_enter_symbol('^', exponent);
                lemma_reads_power(*left, behind);
                lemma_starts(*right, 2, rest);
                lemma_step_into(TokenView::Caret, exponent);
                lemma_reads_factor(*right, rest);
            },
            _ => {},
        }
    } else {
        lemma_reads_power(tree, rest);
    }
}

/// Where `*` or `/` follows and a factor behind it is read, the product goes
/// on behind that factor, with the factor joined in.
pub proof fn lemma_product_goes_on(
    parser: ParserView,
    left: ExprView,
    op: BinOp,
    next: ParserView,
    right: ExprView,
    end: ParserView,
)
    requires
        multiplicative(parser.token) == Some(op),
        parser.advance() == (Ok::<(), ParseErrorView>(()), next),
        next.factor() == (Parsed { result: Ok(right), state: end }),
    ensures
        parser.product_tail(left) == end.product_tail(
            ExprView::Binary(op, Box::new(left), Box::new(right)),
        ),
{
    lemma_product_round(next, Some((left, op)));
}

/// Where `+` or `-` follows and a term behind it is read, the sum goes on
/// behind that term, with the term joined in.
pub proof fn lemma_sum_goes_on(
    parser: ParserView,
    left: ExprView,
    op: BinOp,
    next: ParserView,
    right: ExprView,
    end: ParserView,
)
    requires
        additive(parser.token) == Some(op),
        parser.advance() == (Ok::<(), ParseErrorView>(()), next),
        next.term() == (Parsed { result: Ok(right), state: end }),
    ensures
        parser.sum_tail(left) == end.sum_tail(
            ExprView::Binary(op, Box::new(left), Box::new(right)),
        ),
{
    lemma_sum_round(next, Some((left, op)));
}

/// `product` reads the text of a tree that is fitted for a term, joins it
/// to what is pending, and goes on with what follows.
pub proof fn lemma_reads_product(
    tree: ExprView,
    pending: Option<(ExprView, BinOp)>,
    rest: Seq<char>,
)
    requires
        well_formed(tree),
        follows(rest),
        !(enter(rest).token is Caret),
    ensures
        enter(fitted(tree, 1, rest)).product(pending) == enter(rest).product_tail(
            graft_product(pending, tree),
        ),
    decreases tree, (if rank(tree) < 1 { 19nat } else { 4nat }),
{
    let parser = enter(fitted(tree, 1, rest));
    if rank(tree) == 1 {
        match tree {
            ExprView::Binary(op, left, right) => {
                let operand = fitted(*right, 2, rest);
                let behind = seq![operator_char(op)] + operand;
                lemma_enter_symbol(operator_char(op), operand);
                lemma_reads_product(*left, pending, behind);
                lemma_starts(*right, 2, rest);
                lemma_step_into(operator_token(op), operand);
                lemma_reads_factor(*right, rest);
                lemma_product_goes_on(
                    enter(behind),
                    graft_product(pending, *left),
                    op,
                    enter(operand),
                    *right,
                    enter(rest),
                );
            },
            _ => {},
        }
    } else {
        lemma_reads_factor(tree, rest);
        lemma_product_round(parser, pending);
    }
}

/// `term` reads the text of a tree that is fitted for it, where no `^`, `*`
/// or `/` follows.
pub proof fn lemma_reads_term(tree: ExprView, rest: Seq<char>)
    requires
        well_formed(tree),
        follows(rest),
        !(enter(rest).token is Caret),
        multiplicative(enter(rest).token) is None,
    ensures
        enter(fitted(tree, 1, rest)).term() == (Parsed { result: Ok(tree), state: enter(rest) }),
    decreases tree, (if rank(tree) < 1 { 20nat } else { 5nat }),
{
    let parser = enter(fitted(tree, 1, rest));
    lemma_reads_product(tree, None, rest);
    lemma_graft_nothing(tree);
    assert(parser.term() == parser.product(None));
}

/// `sum` reads the text of a tree, joins it to what is pending, and goes on
/// with what follows.
pub proof fn lemma_reads_sum(tree: ExprView, pending: Option<(ExprView, BinOp)>, rest: Seq<char>)
    requires
        well_formed(tree),
        follows(rest),
        !(enter(rest).token is Caret),
        multiplicative(enter(rest).token) is None,
    ensures
        enter(written(tree, rest)).sum(pending) == enter(rest).sum_tail(
            graft_sum(pending, tree),
        ),
    decreases tree, 6nat,
{
    let parser = enter(written(tree, rest));
    if rank(tree) == 0 {
        match tree {
            ExprView::Binary(op, left, right) => {
                let operand = fitted(*right, 1, rest);
                let behind = seq![operator_char(op)] + operand;
                lemma_enter_symbol(operator_char(op), operand);
                lemma_reads_sum(*left, pending, behind);
                lemma_starts(*right, 1, rest);
                lemma_step_into(operator_token(op), operand);
                lemma_reads_term(*right, rest);
                lemma_sum_goes_on(
                    enter(behind),
                    graft_sum(pending, *left),
                    op,
                    enter(operand),
                    *right,
                    enter(rest),
                );
            },
            _ => {},
        }
    } else {
        lemma_reads_term(tree, rest);
        lemma_sum_round(parser, pending);
    }
}

/// The number on the parser's hands, if there is one, is a literal.
pub open spec fn token_ok(parser: ParserView) -> bool {
    match parser.token {
        TokenView::Num(text) => is_literal(text),
        _ => true,
    }
}

/// What is pending is a tree of literals.
pub open spec fn pending_ok(pending: Option<(ExprView, BinOp)>) -> bool {
    match pending {
        Some((left, _)) => well_formed(left),
        None => true,
    }
}

/// A rule gave a tree of literals, if it gave one, and left a parser with a
/// literal on its hands, if it left one with a number.
pub open spec fn parsed_ok(parsed: Parsed) -> bool {
    &&& token_ok(parsed.state)
    &&& match parsed.result {
        Ok(tree) => well_formed(tree),
        Err(_) => true,
    }
}

/// A step forward keeps a literal on the parser's hands.
pub proof fn lemma_advance_ok(parser: ParserView)
    ensures
        parser.advance().0 is Ok ==> token_ok(parser.advance().1),
        token_ok(parser) ==> token_ok(parser.advance().1),
{
    reveal(ParserView::advance);
    lemma_lex_literal(parser.lexer.remaining);
}

/// `primary` gives trees of literals.
pub proof fn lemma_primary_ok(parser: ParserView)
    requires
        token_ok(parser),
    ensures
        parsed_ok(parser.primary()),
    decreases parser.weight(), 0nat,
{
    lemma_primary_round(parser);
    lemma_advance_ok(parser);
    lemma_advance_nearer(parser);
    if parser.token is LeftParen && parser.advance().0 is Ok {
        let inner = parser.advance().1.expression();
        lemma_expression_ok(parser.advance().1);
        lemma_advance_ok(inner.state);
    }
}

/// `power` gives trees of literals.
pub proof fn lemma_power_ok(parser: ParserView)
    requires
        token_ok(parser),
    ensures
        parsed_ok(parser.power()),
    decreases parser.weight(), 1nat,
{
    lemma_power_round(parser);
    lemma_advance_ok(parser);
    lemma_advance_nearer(parser);
    if parser.token is Subtract {
        if parser.advance().0 is Ok {
            lemma_primary_ok(parser.advance().1);
        }
    } else {
        lemma_primary_ok(parser);
    }
}

/// `factor` gives trees of literals.
pub proof fn lemma_factor_ok(parser: ParserView)
    requires
        token_ok(parser),
    ensures
        parsed_ok(parser.factor()),
    decreases parser.weight(), 2nat,
{
    lemma_factor_round(parser);
    lemma_power_ok(parser);
    lemma_power_nearer(parser);
    let behind = parser.power().state;
    lemma_advance_ok(behind);
    lemma_advance_nearer(behind);
    if parser.power().result is Ok && behind.token is Caret && behind.advance().0 is Ok {
        lemma_factor_ok(behind.advance().1);
    }
}

/// `product` gives trees of literals.
pub proof fn lemma_product_ok(parser: ParserView, pending: Option<(ExprView, BinOp)>)
    requires
        token_ok(parser),
        pending_ok(pending),
    ensures
        parsed_ok(parser.product(pending)),
    decreases parser.weight(), 3nat,
{
    lemma_product_round(parser, pending);
    lemma_factor_ok(parser);
    lemma_factor_nearer(parser);
    let behind = parser.factor().state;
    lemma_advance_ok(behind);
    lemma_advance_nearer(behind);
    if let Ok(tree) = parser.factor().result {
        if let Some(op) = multiplicative(behind.token) {
            if behind.advance().0 is Ok {
                lemma_product_ok(behind.advance().1, Some((join(pending, tree), op)));
            }
        }
    }
}

/// `term` gives trees of literals.
pub proof fn lemma_term_ok(parser: ParserView)
    requires
        token_ok(parser),
    ensures
        parsed_ok(parser.term()),
    decreases parser.weight(), 4nat,
{
    lemma_product_ok(parser, None);
}

/// `sum` gives trees of literals.
pub proof fn lemma_sum_ok(parser: ParserView, pending: Option<(ExprView, BinOp)>)
    requires
        token_ok(parser),
        pending_ok(pending),
    ensures
        parsed_ok(parser.sum(pending)),
    decreases parser.weight(), 5nat,
{
    lemma_sum_round(parser, pending);
    lemma_term_ok(parser);
    lemma_term_nearer(parser);
    let behind = parser.term().state;
    lemma_advance_ok(behind);
    lemma_advance_nearer(behind);
    if let Ok(tree) = parser.term().result {
        if let Some(op) = additive(behind.token) {
            if behind.advance().0 is Ok {
                lemma_sum_ok(behind.advance().1, Some((join(pending, tree), op)));
            }
        }
    }
}

/// `expression` gives trees of literals.
pub proof fn lemma_expression_ok(parser: ParserView)
    requires
        token_ok(parser),
    ensures
        parsed_ok(parser.expression()),
    decreases parser.weight(), 6nat,
{
    lemma_sum_ok(parser, None);
}

/// Every number in the tree of a text is a literal.
pub proof fn lemma_parsed_is_well_formed(text: Seq<char>)
    ensures
        match parse_text(text) {
            Ok(tree) => well_formed(tree),
            Err(_) => true,
        },
{
    lemma_lex_literal(text);
    if let Ok(parser) = ParserView::open(text) {
        lemma_expression_ok(parser);
    }
}

/// Reading inverts writing: the text of a tree is read as that tree. So
/// every tree of literals is the tree of some text, and the text shows which
/// one: an operator of a lower rule under one of a higher rule shows in
/// parentheses, as do a sum or a product on the right of its like, and a
/// power on the left of `^`.
pub proof fn lemma_reading_inverts_writing(tree: ExprView)
    requires
        well_formed(tree),
    ensures
        parse_text(text_of(tree)) == Ok::<ExprView, ParseErrorView>(tree),
{
    let rest = Seq::<char>::empty();
    let parser = enter(text_of(tree));
    lemma_enter_rest(rest);
    lemma_starts(tree, 0, rest);
    lemma_reads_sum(tree, None, rest);
    lemma_graft_nothing(tree);
    assert(ParserView::open(text_of(tree)) == Ok::<ParserView, ParseErrorView>(parser));
    assert(parser.expression() == parser.sum(None));
}

} // verus!
