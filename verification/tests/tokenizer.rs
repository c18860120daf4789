use parsemath::token::Token;
use parsemath::tokenizer::{LexError, Status, Tokenizer};

/// The value of a number token, as the text of its literal gives it.
fn num(token: Token) -> f64 {
    match token {
        Token::Num(number) => number.text().iter().collect::<String>().parse::<f64>().unwrap(),
        other => panic!("not a number: {:?}", other),
    }
}

#[test]
fn test_positive_integer() {
    let mut tokenizer = Tokenizer::new("34");
    assert_eq!(num(tokenizer.next().unwrap()), 34.0)
}

#[test]
fn test_operator_add_sign() {
    let mut tokenizer = Tokenizer::new("+");
    assert_eq!(tokenizer.next().unwrap(), Token::Add)
}

#[test]
fn test_operator_mixed_chars() {
    let mut tokenizer = Tokenizer::new("3+4");
    assert_eq!(num(tokenizer.next().unwrap()), 3.0);
    assert_eq!(tokenizer.next().unwrap(), Token::Add);
    assert_eq!(num(tokenizer.next().unwrap()), 4.0)
}

#[test]
fn test_decimal_number() {
    let mut tokenizer = Tokenizer::new("34.5");
    assert_eq!(num(tokenizer.next().unwrap()), 34.5)
}

#[test]
fn decimal_number_keeps_its_text() {
    let mut tokenizer = Tokenizer::new("34.5");
    match tokenizer.next().unwrap() {
        Token::Num(number) => assert_eq!(number.text(), &vec!['3', '4', '.', '5']),
        other => panic!("not a number: {:?}", other),
    }
    assert_eq!(tokenizer.next(), Some(Token::EOF));
}

#[test]
fn every_single_character_token() {
    let mut tokenizer = Tokenizer::new("+-*/^()");
    assert_eq!(tokenizer.next(), Some(Token::Add));
    assert_eq!(tokenizer.next(), Some(Token::Subtract));
    assert_eq!(tokenizer.next(), Some(Token::Multiply));
    assert_eq!(tokenizer.next(), Some(Token::Divide));
    assert_eq!(tokenizer.next(), Some(Token::Caret));
    assert_eq!(tokenizer.next(), Some(Token::LeftParen));
    assert_eq!(tokenizer.next(), Some(Token::RightParen));
    assert_eq!(tokenizer.next(), Some(Token::EOF));
}

#[test]
fn end_of_input_is_handed_out_once() {
    let mut tokenizer = Tokenizer::new("");
    assert_eq!(tokenizer.status(), Status::Active);
    assert_eq!(tokenizer.next(), Some(Token::EOF));
    assert_eq!(tokenizer.status(), Status::Finished);
    assert_eq!(tokenizer.next(), None);
    assert_eq!(tokenizer.next(), None);
    assert_eq!(tokenizer.status(), Status::Finished);
}

#[test]
fn invalid_character_fails_and_stays_failed() {
    let mut tokenizer = Tokenizer::new("#1");
    assert_eq!(tokenizer.next(), None);
    assert_eq!(tokenizer.status(), Status::Failed(LexError::InvalidCharacter));
    assert_eq!(tokenizer.next(), None);
    assert_eq!(tokenizer.status(), Status::Failed(LexError::InvalidCharacter));
}

#[test]
fn lone_decimal_point_is_no_token() {
    let mut tokenizer = Tokenizer::new(".5");
    assert_eq!(tokenizer.next(), None);
    assert_eq!(tokenizer.status(), Status::Failed(LexError::InvalidCharacter));
}

#[test]
fn blanks_are_skipped() {
    let mut tokenizer = Tokenizer::new(" \t1 \n+\r 2  ");
    assert_eq!(num(tokenizer.next().unwrap()), 1.0);
    assert_eq!(tokenizer.next(), Some(Token::Add));
    assert_eq!(num(tokenizer.next().unwrap()), 2.0);
    assert_eq!(tokenizer.next(), Some(Token::EOF));
}

#[test]
fn blank_ends_a_number() {
    let mut tokenizer = Tokenizer::new("1 2");
    assert_eq!(num(tokenizer.next().unwrap()), 1.0);
    assert_eq!(num(tokenizer.next().unwrap()), 2.0);
    assert_eq!(tokenizer.next(), Some(Token::EOF));
}

#[test]
fn second_decimal_point_is_malformed() {
    let mut tokenizer = Tokenizer::new("1.2.3");
    assert_eq!(tokenizer.next(), None);
    assert_eq!(tokenizer.status(), Status::Failed(LexError::MalformedNumber));
    let mut tokenizer = Tokenizer::new("7..");
    assert_eq!(tokenizer.next(), None);
    assert_eq!(tokenizer.status(), Status::Failed(LexError::MalformedNumber));
}

#[test]
fn trailing_decimal_point_is_accepted() {
    let mut tokenizer = Tokenizer::new("34.");
    assert_eq!(num(tokenizer.next().unwrap()), 34.0);
    assert_eq!(tokenizer.next(), Some(Token::EOF));
}

#[test]
fn number_before_parenthesis_fails() {
    let mut tokenizer = Tokenizer::new("2(3+4)");
    assert_eq!(tokenizer.next(), None);
    assert_eq!(tokenizer.status(), Status::Failed(LexError::MissingOperator));
    let mut tokenizer = Tokenizer::new("1.2.3(");
    assert_eq!(tokenizer.next(), None);
    assert_eq!(tokenizer.status(), Status::Failed(LexError::MissingOperator));
}

#[test]
fn number_blank_parenthesis_is_two_tokens() {
    let mut tokenizer = Tokenizer::new("2 (");
    assert_eq!(num(tokenizer.next().unwrap()), 2.0);
    assert_eq!(tokenizer.next(), Some(Token::LeftParen));
}

#[test]
fn letters_and_foreign_digits_are_invalid() {
    for text in ["x", "١", "²", "e5", "_"] {
        let mut tokenizer = Tokenizer::new(text);
        assert_eq!(tokenizer.next(), None);
        assert_eq!(tokenizer.status(), Status::Failed(LexError::InvalidCharacter));
    }
}

#[test]
fn foreign_digit_ends_a_number() {
    let mut tokenizer = Tokenizer::new("1٢");
    assert_eq!(num(tokenizer.next().unwrap()), 1.0);
    assert_eq!(tokenizer.next(), None);
    assert_eq!(tokenizer.status(), Status::Failed(LexError::InvalidCharacter));
}

#[test]
fn long_literal_is_kept_whole() {
    let text = "123456789012345678901234567890.5";
    let mut tokenizer = Tokenizer::new(text);
    match tokenizer.next().unwrap() {
        Token::Num(number) => assert_eq!(number.text().iter().collect::<String>(), text),
        other => panic!("not a number: {:?}", other),
    }
}

#[test]
fn same_text_gives_same_tokens() {
    let text = " (12.5+3)*4^2 - 7/x";
    let mut first = Tokenizer::new(text);
    let mut second = Tokenizer::new(text);
    for _ in 0..16 {
        assert_eq!(first.next(), second.next());
        assert_eq!(first.status(), second.status());
    }
    assert_eq!(first.status(), Status::Failed(LexError::InvalidCharacter));
}

#[test]
fn cloned_number_is_equal() {
    let mut tokenizer = Tokenizer::new("0042.10");
    match tokenizer.next().unwrap() {
        Token::Num(number) => {
            let copy = number.clone();
            assert_eq!(copy, number);
            assert_eq!(copy.text(), &vec!['0', '0', '4', '2', '.', '1', '0']);
        },
        other => panic!("not a number: {:?}", other),
    }
}
