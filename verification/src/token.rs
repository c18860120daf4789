//! The lexical units of an expression, and the decimal literal that a number
//! token carries.

use vstd::prelude::*;

verus! {

/// `c` is one of the ten decimal digits.
pub open spec fn is_digit(c: char) -> bool {
    '0' <= c && c <= '9'
}

/// The number of decimal points in `text`.
pub open spec fn count_points(text: Seq<char>) -> nat
    decreases text.len(),
{
    if text.len() == 0 {
        0
    } else {
        count_points(text.drop_last()) + if text.last() == '.' {
            1nat
        } else {
            0nat
        }
    }
}

/// `text` is a decimal literal: it starts with a digit, holds digits and
/// decimal points only, and at most one point.
pub open spec fn is_literal(text: Seq<char>) -> bool {
    &&& text.len() > 0
    &&& is_digit(text[0])
    &&& forall|i: int| 0 <= i < text.len() ==> is_digit(#[trigger] text[i]) || text[i] == '.'
    &&& count_points(text) <= 1
}

/// The number that the digit `c` stands for.
pub open spec fn digit_value(c: char) -> nat {
    (c as int - '0' as int) as nat
}

/// The digits of `text` read as one decimal number, the point left out:
/// 345 for `34.5`.
pub open spec fn mantissa(text: Seq<char>) -> nat
    decreases text.len(),
{
    if text.len() == 0 {
        0
    } else if text.last() == '.' {
        mantissa(text.drop_last())
    } else {
        mantissa(text.drop_last()) * 10 + digit_value(text.last())
    }
}

/// The number of digits behind the point: 1 for `34.5`, 0 for `34.` and `34`.
/// The literal `text` denotes `mantissa(text) / 10^scale(text)`.
pub open spec fn scale(text: Seq<char>) -> nat
    decreases text.len(),
{
    if text.len() == 0 || text.last() == '.' || count_points(text) == 0 {
        0
    } else {
        scale(text.drop_last()) + 1
    }
}

/// A decimal literal, kept as it was written.
#[derive(Debug, PartialEq)]
pub struct Number {
    text: Vec<char>,
}

impl View for Number {
    type V = Seq<char>;

    closed spec fn view(&self) -> Seq<char> {
        self.text@
    }
}

impl Number {
    #[verifier::type_invariant]
    spec fn well_formed(&self) -> bool {
        is_literal(self.text@)
    }

    /// Builds the literal from characters already known to form one.
    pub(crate) fn from_chars(text: Vec<char>) -> (number: Number)
        requires
            is_literal(text@),
        ensures
            number@ == text@,
    {
        Number { text }
    }

    /// The characters of the literal, in the order in which they were written.
    pub fn text(&self) -> (text: &Vec<char>)
        ensures
            text@ == self@,
            is_literal(self@),
    {
        proof {
            use_type_invariant(self);
        }
        &self.text
    }
}

impl Clone for Number {
    fn clone(&self) -> (copy: Number)
        ensures
            copy@ == self@,
    {
        proof {
            use_type_invariant(self);
        }
        let mut text: Vec<char> = Vec::new();
        let mut i: usize = 0;
        while i < self.text.len()
            invariant
                i <= self.text.len(),
                text@ == self.text@.take(i as int),
            decreases self.text.len() - i,
        {
            text.push(self.text[i]);
            i += 1;
            assert(text@ =~= self.text@.take(i as int));
        }
        assert(text@ =~= self.text@);
        Number { text }
    }
}

/// A lexical unit of an expression.
#[derive(Debug, PartialEq)]
pub enum Token {
    Num(Number),
    Add,
    Subtract,
    Multiply,
    Divide,
    Caret,
    LeftParen,
    RightParen,
    EOF,
}

/// What a token is to the contracts: its kind and, for a number, the text of
/// the literal.
pub enum TokenView {
    Num(Seq<char>),
    Add,
    Subtract,
    Multiply,
    Divide,
    Caret,
    LeftParen,
    RightParen,
    EOF,
}

impl View for Token {
    type V = TokenView;

    open spec fn view(&self) -> TokenView {
        match self {
            Token::Num(number) => TokenView::Num(number@),
            Token::Add => TokenView::Add,
            Token::Subtract => TokenView::Subtract,
            Token::Multiply => TokenView::Multiply,
            Token::Divide => TokenView::Divide,
            Token::Caret => TokenView::Caret,
            Token::LeftParen => TokenView::LeftParen,
            Token::RightParen => TokenView::RightParen,
            Token::EOF => TokenView::EOF,
        }
    }
}

} // verus!
