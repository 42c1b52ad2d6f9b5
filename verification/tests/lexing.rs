use rpncalc::lexer::{tokenize, reconstruct, LexError};
use rpncalc::ops::Op;
use rpncalc::postfix::{to_postfix, ConvertError};
use rpncalc::eval::{evaluate, EvalError};
use rpncalc::token::{Token, is_number_token};

fn number(s: &str) -> Token {
    Token::Number(s.to_string())
}

#[test]
fn tokens_of_a_mixed_expression() {
    let ts = tokenize("3.5+2*41").unwrap();
    assert_eq!(ts.len(), 5);
    assert!(matches!(&ts[0], Token::Number(s) if s == "3.5"));
    assert!(matches!(&ts[1], Token::Operator(Op::Add)));
    assert!(matches!(&ts[2], Token::Number(s) if s == "2"));
    assert!(matches!(&ts[3], Token::Operator(Op::Mul)));
    assert!(matches!(&ts[4], Token::Number(s) if s == "41"));
}

#[test]
fn trailing_operator_leaves_an_empty_number_token() {
    let ts = tokenize("3+").unwrap();
    assert_eq!(ts.len(), 3);
    assert!(matches!(&ts[0], Token::Number(s) if s == "3"));
    assert!(matches!(&ts[1], Token::Operator(Op::Add)));
    assert!(matches!(&ts[2], Token::Number(s) if s.is_empty()));
}

#[test]
fn lexer_names_the_offending_character() {
    assert_eq!(tokenize("1a2").unwrap_err(), LexError::InvalidToken('a'));
    assert_eq!(tokenize("1%2").unwrap_err(), LexError::InvalidToken('%'));
}

#[test]
fn reconstruction_round_trip() {
    for input in ["3.5+2*41", "-5", "2^3^2", "10/2-3", "7", "3+"] {
        let ts = tokenize(input).unwrap();
        assert_eq!(reconstruct(&ts), input);
    }
}

#[test]
fn number_grammar() {
    assert!(is_number_token("5"));
    assert!(is_number_token("007"));
    assert!(is_number_token("3.5"));
    assert!(is_number_token("3."));
    assert!(!is_number_token(""));
    assert!(!is_number_token(".5"));
    assert!(!is_number_token("3.5.2"));
    assert!(!is_number_token("1e5"));
    assert!(!is_number_token("-3"));
}

#[test]
fn postfix_reorders_by_precedence() {
    let ts = tokenize("3+5*2").unwrap();
    let ps = to_postfix(&ts).unwrap();
    assert_eq!(ps.len(), 5);
    assert!(matches!(&ps[0], Token::Number(s) if s == "3"));
    assert!(matches!(&ps[1], Token::Number(s) if s == "5"));
    assert!(matches!(&ps[2], Token::Number(s) if s == "2"));
    assert!(matches!(&ps[3], Token::Operator(Op::Mul)));
    assert!(matches!(&ps[4], Token::Operator(Op::Add)));
}

#[test]
fn converter_rejects_a_non_numeric_token() {
    let ts = vec![number("abc")];
    assert_eq!(to_postfix(&ts).unwrap_err(), ConvertError::InvalidToken);
}

#[test]
fn evaluator_rejects_two_leftover_values() {
    let ts = vec![number("3"), number("5")];
    assert_eq!(evaluate(&ts).unwrap_err(), EvalError::MalformedExpression);
}

#[test]
fn evaluator_rejects_an_empty_sequence() {
    let ts: Vec<Token> = vec![];
    assert_eq!(evaluate(&ts).unwrap_err(), EvalError::MalformedExpression);
}

#[test]
fn evaluator_rejects_an_invalid_number_token() {
    let ts = vec![number("x1")];
    assert_eq!(evaluate(&ts).unwrap_err(), EvalError::InvalidToken);
}

#[test]
fn evaluator_underflows_on_a_lone_binary_operator() {
    let ts = vec![Token::Operator(Op::Mul)];
    assert_eq!(evaluate(&ts).unwrap_err(), EvalError::MalformedExpression);
}

#[test]
fn evaluator_underflows_on_a_lone_sign() {
    let ts = vec![Token::Operator(Op::Sub)];
    assert_eq!(evaluate(&ts).unwrap_err(), EvalError::MalformedExpression);
}

#[test]
fn precedence_table() {
    assert_eq!(Op::Add.precedence(), 1);
    assert_eq!(Op::Sub.precedence(), 1);
    assert_eq!(Op::Mul.precedence(), 2);
    assert_eq!(Op::Div.precedence(), 2);
    assert_eq!(Op::Pow.precedence(), 3);
}

#[test]
fn operator_symbols_round_trip() {
    for op in [Op::Add, Op::Sub, Op::Mul, Op::Div, Op::Pow] {
        assert_eq!(Op::from_char(op.symbol()), Some(op));
    }
    assert_eq!(Op::from_char('%'), None);
}

#[test]
fn stage_reason_texts() {
    assert_eq!(LexError::InvalidToken('q').message(), "invalid token: q");
    assert_eq!(ConvertError::InvalidToken.message(), "invalid token");
    assert_eq!(EvalError::DivisionByZero.message(), "division by 0");
    assert_eq!(EvalError::InvalidToken.message(), "invalid token");
    assert_eq!(
        EvalError::MalformedExpression.message(),
        "malformed expression"
    );
}
