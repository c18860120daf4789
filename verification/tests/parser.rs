use parsemath::expr::{BinOp, Expr};
use parsemath::parser::{parse, ParseError, Parser};
use parsemath::token::{Number, Token};

/// The value of a literal, as its text gives it.
fn literal(number: &Number) -> f64 {
    number.text().iter().collect::<String>().parse::<f64>().unwrap()
}

/// The value of a number token.
fn token_value(token: &Token) -> f64 {
    match token {
        Token::Num(number) => literal(number),
        other => panic!("not a number: {:?}", other),
    }
}

/// The value of a tree in double precision.
fn value(expr: &Expr) -> f64 {
    match expr {
        Expr::Num(number) => literal(number),
        Expr::Negate(inner) => -value(inner),
        Expr::Binary(op, left, right) => {
            let (left, right) = (value(left), value(right));
            match op {
                BinOp::Add => left + right,
                BinOp::Subtract => left - right,
                BinOp::Multiply => left * right,
                BinOp::Divide => left / right,
                BinOp::Power => left.powf(right),
            }
        },
    }
}

/// The shape of a tree, every node in parentheses.
fn shape(expr: &Expr) -> String {
    match expr {
        Expr::Num(number) => number.text().iter().collect::<String>(),
        Expr::Negate(inner) => format!("(neg {})", shape(inner)),
        Expr::Binary(op, left, right) => {
            let sign = match op {
                BinOp::Add => "+",
                BinOp::Subtract => "-",
                BinOp::Multiply => "*",
                BinOp::Divide => "/",
                BinOp::Power => "^",
            };
            format!("({} {} {})", sign, shape(left), shape(right))
        },
    }
}

fn evaluate(text: &str) -> f64 {
    value(&parse(text).unwrap())
}

fn tree(text: &str) -> String {
    shape(&parse(text).unwrap())
}

fn invalid_operator(text: &str) -> String {
    match parse(text) {
        Err(ParseError::InvalidOperator(description)) => description,
        other => panic!("no InvalidOperator: {:?}", other),
    }
}

fn unable_to_parse(text: &str) -> String {
    match parse(text) {
        Err(ParseError::UnableToParse(description)) => description,
        other => panic!("no UnableToParse: {:?}", other),
    }
}

#[test]
fn test_create_parser() {
    let parser = Parser::new("1+2").unwrap();
    assert_eq!(token_value(parser.current_token()), 1.0);
}

#[test]
fn test_get_next_token() {
    let mut parser = Parser::new("1+2").unwrap();
    assert_eq!(token_value(parser.current_token()), 1.0);
    parser.get_next_token().unwrap();
    assert_eq!(parser.current_token(), &Token::Add);
    parser.get_next_token().unwrap();
    assert_eq!(token_value(parser.current_token()), 2.0);
}

#[test]
fn get_next_token_reaches_the_end_once() {
    let mut parser = Parser::new("7").unwrap();
    parser.get_next_token().unwrap();
    assert_eq!(parser.current_token(), &Token::EOF);
    match parser.get_next_token() {
        Err(ParseError::InvalidOperator(description)) => {
            assert_eq!(description, "Unexpected end of input")
        },
        other => panic!("no InvalidOperator: {:?}", other),
    }
    assert_eq!(parser.current_token(), &Token::EOF);
}

#[test]
fn get_next_token_keeps_the_token_on_failure() {
    let mut parser = Parser::new("7 #").unwrap();
    match parser.get_next_token() {
        Err(ParseError::InvalidOperator(description)) => {
            assert_eq!(description, "Invalid character")
        },
        other => panic!("no InvalidOperator: {:?}", other),
    }
    assert_eq!(token_value(parser.current_token()), 7.0);
    assert!(matches!(parser.get_next_token(), Err(ParseError::InvalidOperator(_))));
}

#[test]
fn new_fails_without_a_first_token() {
    for text in ["", "   ", "\t\n"] {
        match Parser::new(text) {
            Err(ParseError::InvalidOperator(description)) => {
                assert_eq!(description, "Empty expression")
            },
            _ => panic!("a parser on {:?}", text),
        }
    }
    for text in ["#", "#$%", ".5", "x+1"] {
        match Parser::new(text) {
            Err(ParseError::InvalidOperator(description)) => {
                assert_eq!(description, "Invalid character")
            },
            _ => panic!("a parser on {:?}", text),
        }
    }
    assert!(Parser::new("+").is_ok());
    assert!(Parser::new(")").is_ok());
}

#[test]
fn integer_literal_is_its_number() {
    assert_eq!(evaluate("0"), 0.0);
    assert_eq!(evaluate("7"), 7.0);
    assert_eq!(evaluate("42"), 42.0);
    assert_eq!(evaluate("007"), 7.0);
    assert_eq!(evaluate("9007199254740993"), 9007199254740992.0);
    assert_eq!(tree("42"), "42");
}

#[test]
fn decimal_literal_is_its_number() {
    assert_eq!(evaluate("34.5"), 34.5);
    assert_eq!(evaluate("34."), 34.0);
    assert_eq!(evaluate("0.1"), 0.1);
}

#[test]
fn one_operator_between_two_numbers() {
    assert_eq!(evaluate("1+2"), 3.0);
    assert_eq!(evaluate("7-10"), -3.0);
    assert_eq!(evaluate("6*7"), 42.0);
    assert_eq!(evaluate("10/4"), 2.5);
    assert_eq!(evaluate("2^3"), 8.0);
    assert_eq!(tree("1+2"), "(+ 1 2)");
    assert_eq!(tree("7-10"), "(- 7 10)");
    assert_eq!(tree("6*7"), "(* 6 7)");
    assert_eq!(tree("10/4"), "(/ 10 4)");
    assert_eq!(tree("2^3"), "(^ 2 3)");
    assert_eq!(tree("1.5*2."), "(* 1.5 2.)");
}

#[test]
fn parentheses_override_precedence() {
    assert_eq!(evaluate("(1+2)*3"), 9.0);
    assert_eq!(evaluate("1+2*3"), 7.0);
    assert_eq!(tree("(1+2)*3"), "(* (+ 1 2) 3)");
    assert_eq!(tree("1+2*3"), "(+ 1 (* 2 3))");
    assert_eq!(tree("2*3+1"), "(+ (* 2 3) 1)");
    assert_eq!(tree("2*3^2"), "(* 2 (^ 3 2))");
    assert_eq!(tree("(2*3)^2"), "(^ (* 2 3) 2)");
}

#[test]
fn caret_groups_to_the_right() {
    assert_eq!(evaluate("2^3^2"), 512.0);
    assert_eq!(tree("2^3^2"), "(^ 2 (^ 3 2))");
    assert_eq!(evaluate("(2^3)^2"), 64.0);
}

#[test]
fn other_operators_group_to_the_left() {
    assert_eq!(evaluate("10-4-3"), 3.0);
    assert_eq!(evaluate("100/10/5"), 2.0);
    assert_eq!(tree("10-4-3"), "(- (- 10 4) 3)");
    assert_eq!(tree("100/10/5"), "(/ (/ 100 10) 5)");
    assert_eq!(tree("1-2+3"), "(+ (- 1 2) 3)");
    assert_eq!(tree("8/4*2"), "(* (/ 8 4) 2)");
    assert_eq!(tree("1+2*3-4/5^6"), "(- (+ 1 (* 2 3)) (/ 4 (^ 5 6)))");
}

#[test]
fn minus_sign_belongs_to_the_primary() {
    assert_eq!(evaluate("-2^2"), 4.0);
    assert_eq!(tree("-2^2"), "(^ (neg 2) 2)");
    assert_eq!(evaluate("2^-1"), 0.5);
    assert_eq!(tree("2^-1"), "(^ 2 (neg 1))");
    assert_eq!(evaluate("2--3"), 5.0);
    assert_eq!(tree("2--3"), "(- 2 (neg 3))");
    assert_eq!(evaluate("-(1+2)"), -3.0);
    assert_eq!(evaluate("-3*-2"), 6.0);
    assert_eq!(evaluate("-(2^2)"), -4.0);
    assert_eq!(
        invalid_operator("--2"),
        "Expected a number or an opening parenthesis"
    );
}

#[test]
fn blanks_between_tokens_are_dropped() {
    assert_eq!(evaluate(" 1 + 2 "), 3.0);
    assert_eq!(evaluate("\t( 1 +\n2 ) * 3\r\n"), 9.0);
    assert_eq!(tree("2 ^ 3 ^ 2"), "(^ 2 (^ 3 2))");
}

#[test]
fn nested_parentheses() {
    assert_eq!(evaluate("((((1))))"), 1.0);
    assert_eq!(evaluate("2*(3+(4-1))"), 12.0);
    assert_eq!(tree("(1)+(2)"), "(+ 1 2)");
}

#[test]
fn division_by_zero_is_a_tree_like_any_other() {
    assert_eq!(tree("1/0"), "(/ 1 0)");
    assert_eq!(evaluate("1/0"), f64::INFINITY);
    assert!(evaluate("0/0").is_nan());
}

#[test]
fn invalid_character_is_a_lexical_error() {
    assert_eq!(invalid_operator("#"), "Invalid character");
    assert_eq!(invalid_operator("1 #"), "Invalid character");
    assert_eq!(invalid_operator("1+#"), "Invalid character");
    assert_eq!(invalid_operator("1+a"), "Invalid character");
    assert_eq!(invalid_operator("(1+2)*x"), "Invalid character");
}

#[test]
fn unbalanced_parenthesis_is_a_structural_error() {
    assert_eq!(unable_to_parse("(1+2"), "Expected a closing parenthesis");
    assert_eq!(unable_to_parse("((1+2)"), "Expected a closing parenthesis");
    assert_eq!(unable_to_parse("(1 2)"), "Expected a closing parenthesis");
    assert_eq!(unable_to_parse("1+2)"), "Unexpected token after the expression");
}

#[test]
fn trailing_token_is_a_structural_error() {
    assert_eq!(unable_to_parse("1 2"), "Unexpected token after the expression");
    assert_eq!(unable_to_parse("1 2 #"), "Unexpected token after the expression");
    assert_eq!(unable_to_parse("(1)(2)"), "Unexpected token after the expression");
    assert_eq!(unable_to_parse("(1) 2"), "Unexpected token after the expression");
}

#[test]
fn token_in_place_of_an_operand() {
    let expected = "Expected a number or an opening parenthesis";
    assert_eq!(invalid_operator("1+"), expected);
    assert_eq!(invalid_operator("1+*2"), expected);
    assert_eq!(invalid_operator("*2"), expected);
    assert_eq!(invalid_operator("()"), expected);
    assert_eq!(invalid_operator(")"), expected);
    assert_eq!(invalid_operator("2^"), expected);
    assert_eq!(invalid_operator("(1+)"), expected);
    assert_eq!(invalid_operator("-"), expected);
}

#[test]
fn empty_text_is_no_expression() {
    assert_eq!(invalid_operator(""), "Empty expression");
    assert_eq!(invalid_operator("  \n"), "Empty expression");
}

#[test]
fn malformed_number_is_a_lexical_error() {
    assert_eq!(invalid_operator("1.2.3"), "Malformed number");
    assert_eq!(invalid_operator("1+2..5"), "Malformed number");
}

#[test]
fn number_before_parenthesis_is_a_lexical_error() {
    assert_eq!(invalid_operator("2(3+4)"), "Missing operator before parenthesis");
    assert_eq!(invalid_operator("1+2(3)"), "Missing operator before parenthesis");
    assert_eq!(evaluate("2*(3+4)"), 14.0);
}

#[test]
fn parser_parses_from_its_current_token() {
    let mut parser = Parser::new("1+2*3").unwrap();
    parser.get_next_token().unwrap();
    parser.get_next_token().unwrap();
    assert_eq!(shape(&parser.parse().unwrap()), "(* 2 3)");
}

#[test]
fn message_of_both_kinds() {
    let error = Parser::new("#").err().unwrap();
    assert_eq!(error.message(), "Error in evaluating Invalid character");
    let error = parse("(1+2").unwrap_err();
    assert_eq!(error.message(), "Error in evaluating Expected a closing parenthesis");
    let error = ParseError::UnableToParse(String::from("x"));
    assert_eq!(error.message(), "Error in evaluating x");
    let error = ParseError::InvalidOperator(String::new());
    assert_eq!(error.message(), "Error in evaluating ");
}

#[test]
fn same_text_gives_same_tree() {
    let text = "-(1.5+2)*3^2^0.5/4";
    assert_eq!(parse(text).unwrap(), parse(text).unwrap());
    assert_eq!(tree(text), "(/ (* (neg (+ 1.5 2)) (^ 3 (^ 2 0.5))) 4)");
}

#[test]
fn long_chain_is_read_to_the_end() {
    let mut text = String::from("1");
    for _ in 0..2000 {
        text.push_str("+1");
    }
    assert_eq!(evaluate(&text), 2001.0);
}

/// The rule that reads a tree without parentheses around it.
fn rank(expr: &Expr) -> u8 {
    match expr {
        Expr::Num(_) => 4,
        Expr::Negate(_) => 3,
        Expr::Binary(BinOp::Power, _, _) => 2,
        Expr::Binary(BinOp::Multiply, _, _) | Expr::Binary(BinOp::Divide, _, _) => 1,
        Expr::Binary(BinOp::Add, _, _) | Expr::Binary(BinOp::Subtract, _, _) => 0,
    }
}

/// The text of a tree where the rule `level` is to read it.
fn fitted(expr: &Expr, level: u8) -> String {
    if rank(expr) >= level {
        written(expr)
    } else {
        format!("({})", written(expr))
    }
}

/// The text of a tree, with no parentheses but those that its shape needs.
fn written(expr: &Expr) -> String {
    match expr {
        Expr::Num(number) => number.text().iter().collect::<String>(),
        Expr::Negate(inner) => format!("-{}", fitted(inner, 4)),
        Expr::Binary(op, left, right) => {
            let (sign, on_left, on_right) = match op {
                BinOp::Add => ('+', 0, 1),
                BinOp::Subtract => ('-', 0, 1),
                BinOp::Multiply => ('*', 1, 2),
                BinOp::Divide => ('/', 1, 2),
                BinOp::Power => ('^', 3, 2),
            };
            format!("{}{}{}", fitted(left, on_left), sign, fitted(right, on_right))
        },
    }
}

#[test]
fn text_of_a_tree_is_read_as_that_tree() {
    let cases = [
        ("7", "7"),
        ("((7))", "7"),
        (" ( 1 + 2 ) * 3 ", "(1+2)*3"),
        ("1+(2*3)", "1+2*3"),
        ("1-(2-3)", "1-(2-3)"),
        ("(1-2)-3", "1-2-3"),
        ("8/(4/2)", "8/(4/2)"),
        ("(2^3)^2", "(2^3)^2"),
        ("2^(3^2)", "2^3^2"),
        ("-(2^2)", "-(2^2)"),
        ("(-2)^2", "-2^2"),
        ("2^(-2)", "2^-2"),
        ("-(-2)", "-(-2)"),
        ("2*(-3)", "2*-3"),
        ("(1.5+2.)*(3-0.25)^(1/2)", "(1.5+2.)*(3-0.25)^(1/2)"),
    ];
    for (text, expected) in cases {
        let tree = parse(text).unwrap();
        let rewritten = written(&tree);
        assert_eq!(rewritten, expected);
        assert_eq!(parse(&rewritten).unwrap(), tree);
    }
}

#[test]
fn blanks_in_front_change_nothing() {
    for text in ["1+2*3", "(1", "#", "", "2(3)"] {
        let blank = format!(" \t\r\n{}", text);
        match (parse(text), parse(&blank)) {
            (Ok(left), Ok(right)) => assert_eq!(left, right),
            (Err(left), Err(right)) => assert_eq!(left.message(), right.message()),
            (left, right) => panic!("{:?} against {:?}", left, right),
        }
    }
}
