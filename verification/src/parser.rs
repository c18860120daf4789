//! The grammar of expressions, and the parser that reads a text by it.
//!
//! ```text
//! expression := term (('+' | '-') term)*
//! term       := factor (('*' | '/') factor)*
//! factor     := power ('^' factor)?
//! power      := ('-')? primary
//! primary    := Num | '(' expression ')'
//! ```
//!
//! `+ - * /` group to the left and `^` to the right. A minus sign in front
//! belongs to the primary behind it alone, so it binds tighter than every
//! binary operator: `-2^2` is `(-2)^2`. One sign at most stands in front of a
//! primary.
//!
//! A failure is an `InvalidOperator` when the text yields no token or when a
//! token stands where an operand must begin, and an `UnableToParse` when a
//! closing parenthesis or the end of the text is missing behind an
//! expression.

use vstd::prelude::*;
use vstd::string::StringExecFns;
use crate::expr::{BinOp, Expr, ExprView};
use crate::token::{Token, TokenView};
use crate::tokenizer::{LexError, Status, Tokenizer, TokenizerView, lemma_lex_consumes};

verus! {

/// Why a text is no expression.
#[derive(Debug)]
pub enum ParseError {
    /// The tokens do not close into one expression.
    UnableToParse(String),
    /// No token could be read, or one stands where an operand must begin.
    InvalidOperator(String),
}

/// What an error is to the contracts: its kind and the text of its
/// description.
pub enum ParseErrorView {
    UnableToParse(Seq<char>),
    InvalidOperator(Seq<char>),
}

impl View for ParseError {
    type V = ParseErrorView;

    open spec fn view(&self) -> ParseErrorView {
        match self {
            ParseError::UnableToParse(description) => ParseErrorView::UnableToParse(description@),
            ParseError::InvalidOperator(description) => ParseErrorView::InvalidOperator(
                description@,
            ),
        }
    }
}

impl ParseError {
    /// The message of the error: the same words for both kinds, then the
    /// description.
    pub fn message(&self) -> (message: String)
        ensures
            message@ == "Error in evaluating "@ + self@.description(),
    {
        let mut message = "Error in evaluating ".to_owned();
        match self {
            ParseError::UnableToParse(description) => message.append(description.as_str()),
            ParseError::InvalidOperator(description) => message.append(description.as_str()),
        }
        message
    }
}

impl ParseErrorView {
    /// The description that the error carries.
    pub open spec fn description(self) -> Seq<char> {
        match self {
            ParseErrorView::UnableToParse(description) => description,
            ParseErrorView::InvalidOperator(description) => description,
        }
    }
}

/// The error for a pull that handed out nothing, by where it left the
/// tokenizer.
pub open spec fn lexical_failure(status: Status) -> ParseErrorView {
    ParseErrorView::InvalidOperator(
        match status {
            Status::Failed(LexError::MalformedNumber) => "Malformed number"@,
            Status::Failed(LexError::MissingOperator) => "Missing operator before parenthesis"@,
            Status::Finished => "Unexpected end of input"@,
            _ => "Invalid character"@,
        },
    )
}

/// The error for a text without any token.
pub open spec fn empty_expression() -> ParseErrorView {
    ParseErrorView::InvalidOperator("Empty expression"@)
}

/// The error for a token that begins no operand.
pub open spec fn expected_operand() -> ParseErrorView {
    ParseErrorView::InvalidOperator("Expected a number or an opening parenthesis"@)
}

/// The error for a parenthesis that is not closed.
pub open spec fn expected_closing() -> ParseErrorView {
    ParseErrorView::UnableToParse("Expected a closing parenthesis"@)
}

/// The error for a token behind a complete expression.
pub open spec fn trailing_token() -> ParseErrorView {
    ParseErrorView::UnableToParse("Unexpected token after the expression"@)
}

/// The operator that `token` is between two terms, if it is one.
pub open spec fn additive(token: TokenView) -> Option<BinOp> {
    match token {
        TokenView::Add => Some(BinOp::Add),
        TokenView::Subtract => Some(BinOp::Subtract),
        _ => None,
    }
}

/// The operator that `token` is between two factors, if it is one.
pub open spec fn multiplicative(token: TokenView) -> Option<BinOp> {
    match token {
        TokenView::Multiply => Some(BinOp::Multiply),
        TokenView::Divide => Some(BinOp::Divide),
        _ => None,
    }
}

/// `operand` alone, or joined to the tree and operator that wait on its left.
pub open spec fn join(pending: Option<(ExprView, BinOp)>, operand: ExprView) -> ExprView {
    match pending {
        None => operand,
        Some((left, op)) => ExprView::Binary(op, Box::new(left), Box::new(operand)),
    }
}

/// What a parser is to the contracts: the token under its eyes, and the
/// tokenizer behind that token.
pub struct ParserView {
    pub token: TokenView,
    pub lexer: TokenizerView,
}

/// What a rule of the grammar gives: a tree or an error, and the parser as
/// the rule leaves it.
pub struct Parsed {
    pub result: Result<ExprView, ParseErrorView>,
    pub state: ParserView,
}

impl ParserView {
    /// The parser on the first token of `text`, or the error where the text
    /// has none: it holds nothing but blanks, or it begins with no token.
    pub open spec fn open(text: Seq<char>) -> Result<ParserView, ParseErrorView> {
        let (token, lexer) = TokenizerView::start(text).pull();
        match token {
            Some(TokenView::EOF) => Err(empty_expression()),
            Some(token) => Ok(ParserView { token, lexer }),
            None => Err(lexical_failure(lexer.status)),
        }
    }

    /// One step forward: the parser on the next token, or the error and the
    /// parser on the token where it stood.
    #[verifier::opaque]
    pub open spec fn advance(self) -> (Result<(), ParseErrorView>, ParserView) {
        let (token, lexer) = self.lexer.pull();
        match token {
            Some(token) => (Ok(()), ParserView { token, lexer }),
            None => (Err(lexical_failure(lexer.status)), ParserView { token: self.token, lexer }),
        }
    }

    /// A bound on the steps forward that can still succeed. Each step that
    /// succeeds lowers it (`lemma_advance_nearer`), which is why the rules
    /// below are well defined.
    pub open spec fn weight(self) -> nat {
        match self.lexer.status {
            Status::Active => self.lexer.remaining.len() + 1,
            _ => 0,
        }
    }

    /// Stands in the rules where a step forward would not have lowered the
    /// weight. No step does that, so no rule ever gives this value.
    pub open spec fn stalled(self) -> Parsed {
        Parsed { result: Err(ParseErrorView::UnableToParse(Seq::empty())), state: self }
    }

    /// `primary := Num | '(' expression ')'`
    pub open spec fn primary(self) -> Parsed
        decreases self.weight(), 0nat,
    {
        match self.token {
            TokenView::Num(text) => {
                let (moved, next) = self.advance();
                Parsed {
                    result: match moved {
                        Ok(_) => Ok(ExprView::Num(text)),
                        Err(error) => Err(error),
                    },
                    state: next,
                }
            },
            TokenView::LeftParen => {
                let (moved, next) = self.advance();
                match moved {
                    Err(error) => Parsed { result: Err(error), state: next },
                    Ok(_) => if next.weight() < self.weight() {
                        let inner = next.expression();
                        match inner.result {
                            Err(_) => inner,
                            Ok(tree) => if inner.state.token is RightParen {
                                let (closed, behind) = inner.state.advance();
                                Parsed {
                                    result: match closed {
                                        Ok(_) => Ok(tree),
                                        Err(error) => Err(error),
                                    },
                                    state: behind,
                                }
                            } else {
                                Parsed { result: Err(expected_closing()), state: inner.state }
                            },
                        }
                    } else {
                        next.stalled()
                    },
                }
            },
            _ => Parsed { result: Err(expected_operand()), state: self },
        }
    }

    /// `power := ('-')? primary`
    pub open spec fn power(self) -> Parsed
        decreases self.weight(), 1nat,
    {
        if self.token is Subtract {
            let (moved, next) = self.advance();
            match moved {
                Err(error) => Parsed { result: Err(error), state: next },
                Ok(_) => if next.weight() < self.weight() {
                    let operand = next.primary();
                    Parsed {
                        result: match operand.result {
                            Ok(tree) => Ok(ExprView::Negate(Box::new(tree))),
                            Err(error) => Err(error),
                        },
                        state: operand.state,
                    }
                } else {
                    next.stalled()
                },
            }
        } else {
            self.primary()
        }
    }

    /// `factor := power ('^' factor)?`
    pub open spec fn factor(self) -> Parsed
        decreases self.weight(), 2nat,
    {
        let base = self.power();
        match base.result {
            Err(_) => base,
            Ok(tree) => if base.state.token is Caret {
                let (moved, next) = base.state.advance();
                match moved {
                    Err(error) => Parsed { result: Err(error), state: next },
                    Ok(_) => if next.weight() < self.weight() {
                        let exponent = next.factor();
                        Parsed {
                            result: match exponent.result {
                                Ok(raised) => Ok(
                                    ExprView::Binary(
                                        BinOp::Power,
                                        Box::new(tree),
                                        Box::new(raised),
                                    ),
                                ),
                                Err(error) => Err(error),
                            },
                            state: exponent.state,
                        }
                    } else {
                        next.stalled()
                    },
                }
            } else {
                base
            },
        }
    }

    /// The rest of a term: `factor (('*' | '/') factor)*`, joined on the left
    /// to what is `pending` from the factors already read.
    pub open spec fn product(self, pending: Option<(ExprView, BinOp)>) -> Parsed
        decreases self.weight(), 3nat,
    {
        let operand = self.factor();
        match operand.result {
            Err(_) => operand,
            Ok(tree) => {
                let left = join(pending, tree);
                match multiplicative(operand.state.token) {
                    None => Parsed { result: Ok(left), state: operand.state },
                    Some(op) => {
                        let (moved, next) = operand.state.advance();
                        match moved {
                            Err(error) => Parsed { result: Err(error), state: next },
                            Ok(_) => if next.weight() < self.weight() {
                                next.product(Some((left, op)))
                            } else {
                                next.stalled()
                            },
                        }
                    },
                }
            },
        }
    }

    /// `term := factor (('*' | '/') factor)*`
    pub open spec fn term(self) -> Parsed
        decreases self.weight(), 4nat,
    {
        self.product(None)
    }

    /// The rest of an expression: `term (('+' | '-') term)*`, joined on the
    /// left to what is `pending` from the terms already read.
    pub open spec fn sum(self, pending: Option<(ExprView, BinOp)>) -> Parsed
        decreases self.weight(), 5nat,
    {
        let operand = self.term();
        match operand.result {
            Err(_) => operand,
            Ok(tree) => {
                let left = join(pending, tree);
                match additive(operand.state.token) {
                    None => Parsed { result: Ok(left), state: operand.state },
                    Some(op) => {
                        let (moved, next) = operand.state.advance();
                        match moved {
                            Err(error) => Parsed { result: Err(error), state: next },
                            Ok(_) => if next.weight() < self.weight() {
                                next.sum(Some((left, op)))
                            } else {
                                next.stalled()
                            },
                        }
                    },
                }
            },
        }
    }

    /// `expression := term (('+' | '-') term)*`
    pub open spec fn expression(self) -> Parsed
        decreases self.weight(), 6nat,
    {
        self.sum(None)
    }

    /// What `product` gives once a factor is read and joined into `left`:
    /// `left` itself, unless `*` or `/` follows and the term goes on.
    pub open spec fn product_tail(self, left: ExprView) -> Parsed {
        match multiplicative(self.token) {
            None => Parsed { result: Ok(left), state: self },
            Some(op) => match self.advance().0 {
                Err(error) => Parsed { result: Err(error), state: self.advance().1 },
                Ok(_) => self.advance().1.product(Some((left, op))),
            },
        }
    }

    /// What `sum` gives once a term is read and joined into `left`: `left`
    /// itself, unless `+` or `-` follows and the expression goes on.
    pub open spec fn sum_tail(self, left: ExprView) -> Parsed {
        match additive(self.token) {
            None => Parsed { result: Ok(left), state: self },
            Some(op) => match self.advance().0 {
                Err(error) => Parsed { result: Err(error), state: self.advance().1 },
                Ok(_) => self.advance().1.sum(Some((left, op))),
            },
        }
    }

    /// An expression and nothing behind it: the tree, or the error of the
    /// expression, or that of the token that follows it.
    pub open spec fn complete(self) -> Result<ExprView, ParseErrorView> {
        let whole = self.expression();
        match whole.result {
            Err(error) => Err(error),
            Ok(tree) => if whole.state.token is EOF {
                Ok(tree)
            } else {
                Err(trailing_token())
            },
        }
    }
}

/// The tree of the expression that `text` holds, or why it holds none.
pub open spec fn parse_text(text: Seq<char>) -> Result<ExprView, ParseErrorView> {
    match ParserView::open(text) {
        Err(error) => Err(error),
        Ok(parser) => parser.complete(),
    }
}

/// A parser: the tokenizer of a text, and the token that it handed out last.
pub struct Parser {
    tokenizer: Tokenizer,
    current_token: Token,
}

impl View for Parser {
    type V = ParserView;

    closed spec fn view(&self) -> ParserView {
        ParserView { token: self.current_token@, lexer: self.tokenizer@ }
    }
}

/// What a result of the parser is to the contracts.
pub open spec fn result_view(result: Result<Expr, ParseError>) -> Result<ExprView, ParseErrorView> {
    match result {
        Ok(tree) => Ok(tree@),
        Err(error) => Err(error@),
    }
}

/// What waits on the left of an operand is to the contracts.
pub open spec fn pending_view(pending: Option<(Expr, BinOp)>) -> Option<(ExprView, BinOp)> {
    match pending {
        None => None,
        Some((left, op)) => Some((left@, op)),
    }
}

/// The error for a pull that handed out nothing.
fn lexical_error(status: Status) -> (error: ParseError)
    ensures
        error@ == lexical_failure(status),
{
    ParseError::InvalidOperator(
        match status {
            Status::Failed(LexError::MalformedNumber) => "Malformed number".to_owned(),
            Status::Failed(LexError::MissingOperator) => "Missing operator before parenthesis"
                .to_owned(),
            Status::Finished => "Unexpected end of input".to_owned(),
            _ => "Invalid character".to_owned(),
        },
    )
}

/// `operand` alone, or joined to the tree and operator that wait on its left.
fn join_trees(pending: Option<(Expr, BinOp)>, operand: Expr) -> (tree: Expr)
    ensures
        tree@ == join(pending_view(pending), operand@),
{
    match pending {
        None => operand,
        Some((left, op)) => Expr::Binary(op, Box::new(left), Box::new(operand)),
    }
}

impl Parser {
    /// A parser on the first token of `expr`. It fails where the text has no
    /// first token: it is empty or blank, or it begins with no token.
    pub fn new(expr: &str) -> (result: Result<Parser, ParseError>)
        ensures
            match result {
                Ok(parser) => ParserView::open(expr@) == Ok::<ParserView, ParseErrorView>(
                    parser@,
                ),
                Err(error) => ParserView::open(expr@) == Err::<ParserView, ParseErrorView>(
                    error@,
                ),
            },
    {
        let mut lexer = Tokenizer::new(expr);
        match lexer.next() {
            Some(Token::EOF) => Err(ParseError::InvalidOperator("Empty expression".to_owned())),
            Some(token) => Ok(Parser { tokenizer: lexer, current_token: token }),
            None => Err(lexical_error(lexer.status())),
        }
    }

    /// The token that the tokenizer handed out last.
    pub fn current_token(&self) -> (token: &Token)
        ensures
            token@ == self@.token,
    {
        &self.current_token
    }

    /// Steps to the next token. On a failure the current token stays.
    pub fn get_next_token(&mut self) -> (result: Result<(), ParseError>)
        ensures
            final(self)@ == old(self)@.advance().1,
            match result {
                Ok(_) => old(self)@.advance().0 is Ok,
                Err(error) => old(self)@.advance().0 == Err::<(), ParseErrorView>(error@),
            },
    {
        proof {
            reveal(ParserView::advance);
        }
        match self.tokenizer.next() {
            Some(token) => {
                self.current_token = token;
                Ok(())
            },
            None => Err(lexical_error(self.tokenizer.status())),
        }
    }

    /// Reads a primary: a number, or an expression in parentheses.
    fn parse_primary(&mut self) -> (result: Result<Expr, ParseError>)
        ensures
            result_view(result) == old(self)@.primary().result,
            final(self)@ == old(self)@.primary().state,
        decreases old(self)@.weight(), 0nat,
    {
        let ghost entry = self@;
        match &self.current_token {
            Token::Num(number) => {
                let number = number.clone();
                match self.get_next_token() {
                    Ok(_) => Ok(Expr::Num(number)),
                    Err(error) => Err(error),
                }
            },
            Token::LeftParen => {
                match self.get_next_token() {
                    Ok(_) => {},
                    Err(error) => {
                        return Err(error);
                    },
                }
                proof {
                    lemma_advance_nearer(entry);
                }
                let tree = match self.parse_expression() {
                    Ok(tree) => tree,
                    Err(error) => {
                        return Err(error);
                    },
                };
                match &self.current_token {
                    Token::RightParen => match self.get_next_token() {
                        Ok(_) => Ok(tree),
                        Err(error) => Err(error),
                    },
                    _ => Err(
                        ParseError::UnableToParse("Expected a closing parenthesis".to_owned()),
                    ),
                }
            },
            _ => Err(
                ParseError::InvalidOperator(
                    "Expected a number or an opening parenthesis".to_owned(),
                ),
            ),
        }
    }

    /// Reads a primary with or without a minus sign in front.
    fn parse_power(&mut self) -> (result: Result<Expr, ParseError>)
        ensures
            result_view(result) == old(self)@.power().result,
            final(self)@ == old(self)@.power().state,
        decreases old(self)@.weight(), 1nat,
    {
        let ghost entry = self@;
        match &self.current_token {
            Token::Subtract => {
                match self.get_next_token() {
                    Ok(_) => {},
                    Err(error) => {
                        return Err(error);
                    },
                }
                proof {
                    lemma_advance_nearer(entry);
                }
                match self.parse_primary() {
                    Ok(tree) => Ok(Expr::Negate(Box::new(tree))),
                    Err(error) => Err(error),
                }
            },
            _ => self.parse_primary(),
        }
    }

    /// Reads a factor: a power, raised or not to a factor.
    fn parse_factor(&mut self) -> (result: Result<Expr, ParseError>)
        ensures
            result_view(result) == old(self)@.factor().result,
            final(self)@ == old(self)@.factor().state,
        decreases old(self)@.weight(), 2nat,
    {
        let ghost entry = self@;
        let base = match self.parse_power() {
            Ok(tree) => tree,
            Err(error) => {
                return Err(error);
            },
        };
        let ghost middle = self@;
        match &self.current_token {
            Token::Caret => {
                match self.get_next_token() {
                    Ok(_) => {},
                    Err(error) => {
                        return Err(error);
                    },
                }
                proof {
                    lemma_power_nearer(entry);
                    lemma_advance_nearer(middle);
                }
                match self.parse_factor() {
                    Ok(exponent) => Ok(
                        Expr::Binary(BinOp::Power, Box::new(base), Box::new(exponent)),
                    ),
                    Err(error) => Err(error),
                }
            },
            _ => Ok(base),
        }
    }

    /// Reads a term: factors joined by `*` and `/`, grouped to the left.
    fn parse_term(&mut self) -> (result: Result<Expr, ParseError>)
        ensures
            result_view(result) == old(self)@.term().result,
            final(self)@ == old(self)@.term().state,
        decreases old(self)@.weight(), 4nat,
    {
        let ghost entry = self@;
        let mut pending: Option<(Expr, BinOp)> = None;
        loop
            invariant
                entry == old(self)@,
                self@.product(pending_view(pending)) == entry.term(),
                self@.weight() <= entry.weight(),
            decreases self@.weight(),
        {
            let ghost here = self@;
            proof {
                lemma_product_round(here, pending_view(pending));
                lemma_factor_nearer(here);
                lemma_advance_nearer(here.factor().state);
            }
            let operand = match self.parse_factor() {
                Ok(tree) => tree,
                Err(error) => {
                    return Err(error);
                },
            };
            let left = join_trees(pending, operand);
            let op = match &self.current_token {
                Token::Multiply => BinOp::Multiply,
                Token::Divide => BinOp::Divide,
                _ => {
                    return Ok(left);
                },
            };
            match self.get_next_token() {
                Ok(_) => {},
                Err(error) => {
                    return Err(error);
                },
            }
            pending = Some((left, op));
        }
    }

    /// Reads an expression: terms joined by `+` and `-`, grouped to the left.
    fn parse_expression(&mut self) -> (result: Result<Expr, ParseError>)
        ensures
            result_view(result) == old(self)@.expression().result,
            final(self)@ == old(self)@.expression().state,
        decreases old(self)@.weight(), 6nat,
    {
        let ghost entry = self@;
        let mut pending: Option<(Expr, BinOp)> = None;
        loop
            invariant
                entry == old(self)@,
                self@.sum(pending_view(pending)) == entry.expression(),
                self@.weight() <= entry.weight(),
            decreases self@.weight(),
        {
            let ghost here = self@;
            proof {
                lemma_sum_round(here, pending_view(pending));
                lemma_term_nearer(here);
                lemma_advance_nearer(here.term().state);
            }
            let operand = match self.parse_term() {
                Ok(tree) => tree,
                Err(error) => {
                    return Err(error);
                },
            };
            let left = join_trees(pending, operand);
            let op = match &self.current_token {
                Token::Add => BinOp::Add,
                Token::Subtract => BinOp::Subtract,
                _ => {
                    return Ok(left);
                },
            };
            match self.get_next_token() {
                Ok(_) => {},
                Err(error) => {
                    return Err(error);
                },
            }
            pending = Some((left, op));
        }
    }

    /// Reads the whole expression from the current token to the end of the
    /// text, and gives its tree.
    pub fn parse(self) -> (result: Result<Expr, ParseError>)
        ensures
            result_view(result) == self@.complete(),
    {
        let mut parser = self;
        let tree = match parser.parse_expression() {
            Ok(tree) => tree,
            Err(error) => {
                return Err(error);
            },
        };
        match &parser.current_token {
            Token::EOF => Ok(tree),
            _ => Err(
                ParseError::UnableToParse("Unexpected token after the expression".to_owned()),
            ),
        }
    }
}

/// Reads `expr` as one expression and gives its tree.
pub fn parse(expr: &str) -> (result: Result<Expr, ParseError>)
    ensures
        result_view(result) == parse_text(expr@),
{
    match Parser::new(expr) {
        Ok(parser) => parser.parse(),
        Err(error) => Err(error),
    }
}

/// A step forward never raises the weight, and lowers it when it succeeds.
pub proof fn lemma_advance_nearer(parser: ParserView)
    ensures
        parser.advance().1.weight() <= parser.weight(),
        parser.advance().0 is Ok ==> parser.advance().1.weight() < parser.weight(),
{
    reveal(ParserView::advance);
    lemma_lex_consumes(parser.lexer.remaining);
}

/// `primary`, by the token on the parser's hands and by what the steps
/// forward give.
pub proof fn lemma_primary_round(parser: ParserView)
    ensures
        match parser.token {
            TokenView::Num(text) => parser.primary() == (Parsed {
                result: match parser.advance().0 {
                    Ok(_) => Ok(ExprView::Num(text)),
                    Err(error) => Err(error),
                },
                state: parser.advance().1,
            }),
            TokenView::LeftParen => match parser.advance().0 {
                Err(error) => parser.primary() == (Parsed {
                    result: Err(error),
                    state: parser.advance().1,
                }),
                Ok(_) => {
                    let inner = parser.advance().1.expression();
                    match inner.result {
                        Err(_) => parser.primary() == inner,
                        Ok(tree) => if inner.state.token is RightParen {
                            parser.primary() == (Parsed {
                                result: match inner.state.advance().0 {
                                    Ok(_) => Ok(tree),
                                    Err(error) => Err(error),
                                },
                                state: inner.state.advance().1,
                            })
                        } else {
                            parser.primary() == (Parsed {
                                result: Err(expected_closing()),
                                state: inner.state,
                            })
                        },
                    }
                },
            },
            _ => parser.primary() == (Parsed { result: Err(expected_operand()), state: parser }),
        },
{
    lemma_advance_nearer(parser);
}

/// `power`, by the token on the parser's hands and by what the primary
/// behind a minus sign gives.
pub proof fn lemma_power_round(parser: ParserView)
    ensures
        if parser.token is Subtract {
            match parser.advance().0 {
                Err(error) => parser.power() == (Parsed {
                    result: Err(error),
                    state: parser.advance().1,
                }),
                Ok(_) => {
                    let operand = parser.advance().1.primary();
                    parser.power() == (Parsed {
                        result: match operand.result {
                            Ok(tree) => Ok(ExprView::Negate(Box::new(tree))),
                            Err(error) => Err(error),
                        },
                        state: operand.state,
                    })
                },
            }
        } else {
            parser.power() == parser.primary()
        },
{
    lemma_advance_nearer(parser);
}

/// `factor`, by what the power gives and by the token behind it.
pub proof fn lemma_factor_round(parser: ParserView)
    ensures
        match parser.power().result {
            Err(_) => parser.factor() == parser.power(),
            Ok(tree) => {
                let behind = parser.power().state;
                if behind.token is Caret {
                    match behind.advance().0 {
                        Err(error) => parser.factor() == (Parsed {
                            result: Err(error),
                            state: behind.advance().1,
                        }),
                        Ok(_) => {
                            let exponent = behind.advance().1.factor();
                            parser.factor() == (Parsed {
                                result: match exponent.result {
                                    Ok(raised) => Ok(
                                        ExprView::Binary(
                                            BinOp::Power,
                                            Box::new(tree),
                                            Box::new(raised),
                                        ),
                                    ),
                                    Err(error) => Err(error),
                                },
                                state: exponent.state,
                            })
                        },
                    }
                } else {
                    parser.factor() == parser.power()
                }
            },
        },
{
    lemma_power_nearer(parser);
    lemma_advance_nearer(parser.power().state);
}

/// One round of `product`: the error of the factor, or what follows the
/// factor once it is joined to what was pending.
pub proof fn lemma_product_round(parser: ParserView, pending: Option<(ExprView, BinOp)>)
    ensures
        parser.product(pending) == match parser.factor().result {
            Err(_) => parser.factor(),
            Ok(tree) => parser.factor().state.product_tail(join(pending, tree)),
        },
{
    lemma_factor_nearer(parser);
    lemma_advance_nearer(parser.factor().state);
}

/// One round of `sum`: the error of the term, or what follows the term once
/// it is joined to what was pending.
pub proof fn lemma_sum_round(parser: ParserView, pending: Option<(ExprView, BinOp)>)
    ensures
        parser.sum(pending) == match parser.term().result {
            Err(_) => parser.term(),
            Ok(tree) => parser.term().state.sum_tail(join(pending, tree)),
        },
{
    lemma_term_nearer(parser);
    lemma_advance_nearer(parser.term().state);
}

/// No rule of the grammar raises the weight.
pub proof fn lemma_primary_nearer(parser: ParserView)
    ensures
        parser.primary().state.weight() <= parser.weight(),
    decreases parser.weight(), 0nat,
{
    lemma_advance_nearer(parser);
    let next = parser.advance().1;
    if parser.token is LeftParen && parser.advance().0 is Ok {
        lemma_expression_nearer(next);
        lemma_advance_nearer(next.expression().state);
    }
}

/// No rule of the grammar raises the weight.
pub proof fn lemma_power_nearer(parser: ParserView)
    ensures
        parser.power().state.weight() <= parser.weight(),
    decreases parser.weight(), 1nat,
{
    lemma_advance_nearer(parser);
    if parser.token is Subtract {
        if parser.advance().0 is Ok {
            lemma_primary_nearer(parser.advance().1);
        }
    } else {
        lemma_primary_nearer(parser);
    }
}

/// No rule of the grammar raises the weight.
pub proof fn lemma_factor_nearer(parser: ParserView)
    ensures
        parser.factor().state.weight() <= parser.weight(),
    decreases parser.weight(), 2nat,
{
    lemma_power_nearer(parser);
    let base = parser.power();
    lemma_advance_nearer(base.state);
    if base.result is Ok && base.state.token is Caret && base.state.advance().0 is Ok {
        lemma_factor_nearer(base.state.advance().1);
    }
}

/// No rule of the grammar raises the weight.
pub proof fn lemma_product_nearer(parser: ParserView, pending: Option<(ExprView, BinOp)>)
    ensures
        parser.product(pending).state.weight() <= parser.weight(),
    decreases parser.weight(), 3nat,
{
    lemma_factor_nearer(parser);
    let operand = parser.factor();
    lemma_advance_nearer(operand.state);
    if let Ok(tree) = operand.result {
        if let Some(op) = multiplicative(operand.state.token) {
            if operand.state.advance().0 is Ok {
                lemma_product_nearer(operand.state.advance().1, Some((join(pending, tree), op)));
            }
        }
    }
}

/// No rule of the grammar raises the weight.
pub proof fn lemma_term_nearer(parser: ParserView)
    ensures
        parser.term().state.weight() <= parser.weight(),
    decreases parser.weight(), 4nat,
{
    lemma_product_nearer(parser, None);
}

/// No rule of the grammar raises the weight.
pub proof fn lemma_sum_nearer(parser: ParserView, pending: Option<(ExprView, BinOp)>)
    ensures
        parser.sum(pending).state.weight() <= parser.weight(),
    decreases parser.weight(), 5nat,
{
    lemma_term_nearer(parser);
    let operand = parser.term();
    lemma_advance_nearer(operand.state);
    if let Ok(tree) = operand.result {
        if let Some(op) = additive(operand.state.token) {
            if operand.state.advance().0 is Ok {
                lemma_sum_nearer(operand.state.advance().1, Some((join(pending, tree), op)));
            }
        }
    }
}

/// No rule of the grammar raises the weight.
pub proof fn lemma_expression_nearer(parser: ParserView)
    ensures
        parser.expression().state.weight() <= parser.weight(),
    decreases parser.weight(), 6nat,
{
    lemma_sum_nearer(parser, None);
}

} // verus!
