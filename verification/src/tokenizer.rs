//! Splitting the text of an expression into tokens.
//!
//! Blanks (space, tab, line feed, carriage return) separate tokens and are
//! dropped. A number is a digit followed by the longest run of digits and
//! decimal points; it is refused when it holds more than one point, and when
//! an opening parenthesis follows it directly (a product is always written
//! with `*`).

use vstd::prelude::*;
use crate::token::{Number, Token, TokenView, count_points, is_digit, is_literal};

verus! {

/// `c` is a blank: it separates tokens and is no token itself.
pub open spec fn is_blank(c: char) -> bool {
    c == ' ' || c == '\t' || c == '\n' || c == '\r'
}

/// `c` may continue a number that has begun.
pub open spec fn in_number(c: char) -> bool {
    is_digit(c) || c == '.'
}

/// `text` without the blanks that it begins with.
pub open spec fn trim_start(text: Seq<char>) -> Seq<char>
    decreases text.len(),
{
    if text.len() > 0 && is_blank(text[0]) {
        trim_start(text.drop_first())
    } else {
        text
    }
}

/// The length of the longest prefix of `text` made of digits and points.
pub open spec fn literal_len(text: Seq<char>) -> nat
    decreases text.len(),
{
    if text.len() > 0 && in_number(text[0]) {
        1 + literal_len(text.drop_first())
    } else {
        0
    }
}

/// The token that the single character `c` stands for, if any.
pub open spec fn symbol(c: char) -> Option<TokenView> {
    if c == '+' {
        Some(TokenView::Add)
    } else if c == '-' {
        Some(TokenView::Subtract)
    } else if c == '*' {
        Some(TokenView::Multiply)
    } else if c == '/' {
        Some(TokenView::Divide)
    } else if c == '^' {
        Some(TokenView::Caret)
    } else if c == '(' {
        Some(TokenView::LeftParen)
    } else if c == ')' {
        Some(TokenView::RightParen)
    } else {
        None
    }
}

/// Why a text has no next token.
#[derive(Clone, Copy, Debug, PartialEq, Eq, Structural)]
pub enum LexError {
    /// A character that begins no token.
    InvalidCharacter,
    /// A number with more than one decimal point.
    MalformedNumber,
    /// A number directly followed by an opening parenthesis.
    MissingOperator,
}

/// The first token of `text` and the text behind it, or the reason why there
/// is none. At the end of the text the token is `EOF`.
#[verifier::opaque]
pub open spec fn lex(text: Seq<char>) -> Result<(TokenView, Seq<char>), LexError> {
    let rest = trim_start(text);
    if rest.len() == 0 {
        Ok((TokenView::EOF, rest))
    } else if is_digit(rest[0]) {
        let len = literal_len(rest) as int;
        let literal = rest.take(len);
        let behind = rest.skip(len);
        if behind.len() > 0 && behind[0] == '(' {
            Err(LexError::MissingOperator)
        } else if count_points(literal) > 1 {
            Err(LexError::MalformedNumber)
        } else {
            Ok((TokenView::Num(literal), behind))
        }
    } else {
        match symbol(rest[0]) {
            Some(token) => Ok((token, rest.drop_first())),
            None => Err(LexError::InvalidCharacter),
        }
    }
}

/// Where a tokenizer stands.
#[derive(Clone, Copy, Debug, PartialEq, Eq, Structural)]
pub enum Status {
    /// The next pull reads the text.
    Active,
    /// `EOF` has been handed out: there is nothing more to pull.
    Finished,
    /// A pull has failed: every later pull fails too.
    Failed(LexError),
}

/// What a tokenizer is to the contracts: the text not yet read, and where it
/// stands.
pub struct TokenizerView {
    pub remaining: Seq<char>,
    pub status: Status,
}

impl TokenizerView {
    /// A tokenizer that has read nothing of `text` yet.
    pub open spec fn start(text: Seq<char>) -> TokenizerView {
        TokenizerView { remaining: text, status: Status::Active }
    }

    /// One pull: the token handed out, if any, and the tokenizer after it.
    ///
    /// `EOF` is handed out once, when the text is used up; after it, and
    /// after a failure, nothing is handed out and nothing changes.
    pub open spec fn pull(self) -> (Option<TokenView>, TokenizerView) {
        match self.status {
            Status::Active => match lex(self.remaining) {
                Ok((token, rest)) => (
                    Some(token),
                    TokenizerView {
                        remaining: rest,
                        status: if token is EOF {
                            Status::Finished
                        } else {
                            Status::Active
                        },
                    },
                ),
                Err(error) => (
                    None,
                    TokenizerView { remaining: self.remaining, status: Status::Failed(error) },
                ),
            },
            _ => (None, self),
        }
    }

    /// The tokenizer after `count` pulls.
    pub open spec fn after(self, count: nat) -> TokenizerView
        decreases count,
    {
        if count == 0 {
            self
        } else {
            self.pull().1.after((count - 1) as nat)
        }
    }

    /// What the first `count` pulls hand out, in order.
    pub open spec fn pulls(self, count: nat) -> Seq<Option<TokenView>> {
        Seq::new(count, |i: int| self.after(i as nat).pull().0)
    }
}

/// Dropping the first `count` characters of `text` drops exactly its leading
/// blanks when those characters are blank and the next one is not.
pub proof fn lemma_trim_start(text: Seq<char>, count: int)
    requires
        0 <= count <= text.len(),
        forall|i: int| 0 <= i < count ==> is_blank(#[trigger] text[i]),
        count < text.len() ==> !is_blank(text[count]),
    ensures
        trim_start(text) == text.skip(count),
    decreases count,
{
    if count == 0 {
        assert(text.skip(0) =~= text);
    } else {
        let tail = text.drop_first();
        assert forall|i: int| 0 <= i < count - 1 implies is_blank(#[trigger] tail[i]) by {
            assert(tail[i] == text[i + 1]);
        }
        lemma_trim_start(tail, count - 1);
        assert(tail.skip(count - 1) =~= text.skip(count));
    }
}

/// The longest prefix of digits and points has `count` characters when the
/// first `count` characters are such and the next one is not.
pub proof fn lemma_literal_len(text: Seq<char>, count: int)
    requires
        0 <= count <= text.len(),
        forall|i: int| 0 <= i < count ==> in_number(#[trigger] text[i]),
        count < text.len() ==> !in_number(text[count]),
    ensures
        literal_len(text) == count,
    decreases count,
{
    if count > 0 {
        let tail = text.drop_first();
        assert forall|i: int| 0 <= i < count - 1 implies in_number(#[trigger] tail[i]) by {
            assert(tail[i] == text[i + 1]);
        }
        lemma_literal_len(tail, count - 1);
    }
}

/// Blanks in front of a text change nothing: the first token and what is
/// left behind it are those of the text without them.
pub proof fn lemma_blanks_are_dropped(blanks: Seq<char>, text: Seq<char>)
    requires
        forall|i: int| 0 <= i < blanks.len() ==> is_blank(#[trigger] blanks[i]),
    ensures
        trim_start(blanks + text) == trim_start(text),
        lex(blanks + text) == lex(text),
    decreases blanks.len(),
{
    reveal(lex);
    if blanks.len() == 0 {
        assert(blanks + text =~= text);
    } else {
        let whole = blanks + text;
        assert(whole[0] == blanks[0]);
        assert(whole.drop_first() =~= blanks.drop_first() + text);
        assert forall|i: int| 0 <= i < blanks.drop_first().len() implies is_blank(
            #[trigger] blanks.drop_first()[i],
        ) by {
            assert(blanks.drop_first()[i] == blanks[i + 1]);
        }
        lemma_blanks_are_dropped(blanks.drop_first(), text);
    }
}

/// Blanks are dropped from the front only: what is left is no longer than
/// the text.
pub proof fn lemma_trim_start_shorter(text: Seq<char>)
    ensures
        trim_start(text).len() <= text.len(),
    decreases text.len(),
{
    if text.len() > 0 && is_blank(text[0]) {
        lemma_trim_start_shorter(text.drop_first());
    }
}

/// The longest prefix of digits and points is a prefix, and it is not empty
/// where the text begins with a digit or a point.
pub proof fn lemma_literal_len_bounds(text: Seq<char>)
    ensures
        literal_len(text) <= text.len(),
        text.len() > 0 && in_number(text[0]) ==> literal_len(text) >= 1,
    decreases text.len(),
{
    if text.len() > 0 && in_number(text[0]) {
        lemma_literal_len_bounds(text.drop_first());
    }
}

/// A token is cut from the front of the text, and every token but `EOF`
/// takes at least one character.
pub proof fn lemma_lex_consumes(text: Seq<char>)
    ensures
        match lex(text) {
            Ok((token, rest)) => rest.len() <= text.len() && (!(token is EOF) ==> rest.len()
                < text.len()),
            Err(_) => true,
        },
{
    reveal(lex);
    lemma_trim_start_shorter(text);
    lemma_literal_len_bounds(trim_start(text));
}

/// A literal is read whole, and as one token, whatever follows it, unless a
/// digit, a point or an opening parenthesis follows it directly.
pub proof fn lemma_literal_is_one_token(text: Seq<char>, rest: Seq<char>)
    requires
        is_literal(text),
        rest.len() > 0 ==> !in_number(rest[0]) && rest[0] != '(',
    ensures
        lex(text + rest) == Ok::<(TokenView, Seq<char>), LexError>((TokenView::Num(text), rest)),
{
    reveal(lex);
    let whole = text + rest;
    assert(whole[0] == text[0]);
    assert(trim_start(whole) == whole);
    assert forall|i: int| 0 <= i < text.len() implies in_number(#[trigger] whole[i]) by {
        assert(whole[i] == text[i]);
    }
    if rest.len() > 0 {
        assert(whole[text.len() as int] == rest[0]);
    }
    lemma_literal_len(whole, text.len() as int);
    assert(whole.take(text.len() as int) =~= text);
    assert(whole.skip(text.len() as int) =~= rest);
}

/// A character that is a token by itself is read as that token.
pub proof fn lemma_symbol_is_one_token(c: char, rest: Seq<char>)
    requires
        symbol(c) is Some,
    ensures
        lex(seq![c] + rest) == Ok::<(TokenView, Seq<char>), LexError>((symbol(c)->0, rest)),
{
    reveal(lex);
    let whole = seq![c] + rest;
    assert(whole[0] == c);
    assert(trim_start(whole) == whole);
    assert(whole.drop_first() =~= rest);
}

/// At the end of a text stands `EOF`.
pub proof fn lemma_end_is_one_token()
    ensures
        lex(Seq::<char>::empty()) == Ok::<(TokenView, Seq<char>), LexError>(
            (TokenView::EOF, Seq::<char>::empty()),
        ),
{
    reveal(lex);
    assert(trim_start(Seq::<char>::empty()) == Seq::<char>::empty());
}

/// Every character of the longest prefix of digits and points is a digit or
/// a point.
pub proof fn lemma_literal_len_holds(text: Seq<char>)
    ensures
        forall|i: int| 0 <= i < literal_len(text) ==> in_number(#[trigger] text[i]),
    decreases text.len(),
{
    lemma_literal_len_bounds(text);
    if text.len() > 0 && in_number(text[0]) {
        let tail = text.drop_first();
        lemma_literal_len_holds(tail);
        lemma_literal_len_bounds(tail);
        assert forall|i: int| 0 <= i < literal_len(text) implies in_number(#[trigger] text[i]) by {
            if i > 0 {
                assert(text[i] == tail[i - 1]);
            }
        }
    }
}

/// The text of a number token is a literal.
pub proof fn lemma_lex_literal(text: Seq<char>)
    ensures
        match lex(text) {
            Ok((TokenView::Num(literal), _)) => is_literal(literal),
            _ => true,
        },
{
    reveal(lex);
    let rest = trim_start(text);
    lemma_literal_len_bounds(rest);
    lemma_literal_len_holds(rest);
}

/// A forward cursor over the characters of an expression, which hands out
/// its tokens one by one.
pub struct Tokenizer {
    chars: Vec<char>,
    pos: usize,
    status: Status,
}

impl View for Tokenizer {
    type V = TokenizerView;

    closed spec fn view(&self) -> TokenizerView {
        TokenizerView { remaining: self.chars@.skip(self.pos as int), status: self.status }
    }
}

/// The characters of `text`, one by one.
fn characters(text: &str) -> (chars: Vec<char>)
    ensures
        chars@ == text@,
{
    broadcast use vstd::string::axiom_spec_iter;

    let mut chars: Vec<char> = Vec::new();
    let all = text.chars();
    for c in it: all
        invariant
            it.seq() == text@,
            chars@ == text@.take(it.index()),
    {
        chars.push(c);
    }
    chars
}

/// Whether `c` is a blank.
fn blank(c: char) -> (yes: bool)
    ensures
        yes == is_blank(c),
{
    c == ' ' || c == '\t' || c == '\n' || c == '\r'
}

/// Whether `c` is a decimal digit.
fn digit(c: char) -> (yes: bool)
    ensures
        yes == is_digit(c),
{
    '0' <= c && c <= '9'
}

impl Tokenizer {
    #[verifier::type_invariant]
    spec fn well_formed(&self) -> bool {
        self.pos <= self.chars.len()
    }

    /// A tokenizer at the start of `new_expr`.
    pub fn new(new_expr: &str) -> (tokenizer: Tokenizer)
        ensures
            tokenizer@ == TokenizerView::start(new_expr@),
    {
        let chars = characters(new_expr);
        assert(chars@.skip(0) =~= chars@);
        Tokenizer { chars, pos: 0, status: Status::Active }
    }

    /// Where the tokenizer stands: reading, at its end, or failed and why.
    pub fn status(&self) -> (status: Status)
        ensures
            status == self@.status,
    {
        self.status
    }

    /// Pulls the next token.
    ///
    /// `None` is a failure: the text at the cursor begins no token, or the
    /// tokenizer has already handed out `EOF` or failed. `status` then says
    /// which.
    pub fn next(&mut self) -> (token: Option<Token>)
        ensures
            final(self)@ == old(self)@.pull().1,
            match token {
                Some(token) => old(self)@.pull().0 == Some(token@),
                None => old(self)@.pull().0 is None,
            },
    {
        proof {
            use_type_invariant(&*self);
            reveal(lex);
        }
        match self.status {
            Status::Active => {},
            _ => {
                return None;
            },
        }
        let len: usize = self.chars.len();
        let ghost before = self.chars@.skip(self.pos as int);
        let mut start: usize = self.pos;
        while start < len && blank(self.chars[start])
            invariant
                self.pos <= start <= len,
                len == self.chars.len(),
                forall|i: int| self.pos <= i < start ==> is_blank(#[trigger] self.chars[i]),
            decreases len - start,
        {
            start += 1;
        }
        let ghost rest = self.chars@.skip(start as int);
        proof {
            assert forall|i: int| 0 <= i < start - self.pos implies is_blank(
                #[trigger] before[i],
            ) by {
                assert(before[i] == self.chars[self.pos + i]);
            }
            lemma_trim_start(before, start - self.pos);
            assert(before.skip(start - self.pos) =~= rest);
        }
        if start >= len {
            self.pos = len;
            self.status = Status::Finished;
            return Some(Token::EOF);
        }
        let first: char = self.chars[start];
        assert(first == rest[0]);
        if digit(first) {
            let mut text: Vec<char> = Vec::new();
            text.push(first);
            let mut points: usize = 0;
            let mut end: usize = start + 1;
            assert(text@.drop_last() =~= Seq::<char>::empty());
            assert(count_points(text@) == 0) by {
                assert(count_points(text@.drop_last()) == 0);
            }
            while end < len && (digit(self.chars[end]) || self.chars[end] == '.')
                invariant
                    start < end <= len,
                    len == self.chars.len(),
                    text@ == self.chars@.subrange(start as int, end as int),
                    points == count_points(text@),
                    points <= text.len(),
                    forall|i: int| start <= i < end ==> in_number(#[trigger] self.chars[i]),
                decreases len - end,
            {
                let c: char = self.chars[end];
                let ghost shorter = text@;
                text.push(c);
                assert(text@.drop_last() =~= shorter);
                if c == '.' {
                    points += 1;
                }
                end += 1;
                assert(text@ =~= self.chars@.subrange(start as int, end as int));
            }
            proof {
                assert forall|i: int| 0 <= i < end - start implies in_number(#[trigger] rest[i]) by {
                    assert(rest[i] == self.chars[start + i]);
                }
                lemma_literal_len(rest, end - start);
                assert(rest.take(end - start) =~= text@);
                assert(rest.skip(end - start) =~= self.chars@.skip(end as int));
            }
            if end < len && self.chars[end] == '(' {
                self.status = Status::Failed(LexError::MissingOperator);
                None
            } else if points > 1 {
                self.status = Status::Failed(LexError::MalformedNumber);
                None
            } else {
                self.pos = end;
                Some(Token::Num(Number::from_chars(text)))
            }
        } else {
            let token = if first == '+' {
                Token::Add
            } else if first == '-' {
                Token::Subtract
            } else if first == '*' {
                Token::Multiply
            } else if first == '/' {
                Token::Divide
            } else if first == '^' {
                Token::Caret
            } else if first == '(' {
                Token::LeftParen
            } else if first == ')' {
                Token::RightParen
            } else {
                self.status = Status::Failed(LexError::InvalidCharacter);
                return None;
            };
            assert(rest.drop_first() =~= self.chars@.skip(start + 1));
            self.pos = start + 1;
            Some(token)
        }
    }
}

} // verus!
