use rpncalc::compute;
use rpncalc::ComputeError;
use rpncalc::eval::EvalError;
use rpncalc::expr::Expr;
use rpncalc::lexer::LexError;
use rpncalc::ops::Op;
use rpncalc::postfix::ConvertError;

/// Reduces a finished expression tree to a number: the floating-point
/// side of the boundary, outside the verified library.
fn reduce(e: &Expr) -> Result<f64, EvalError> {
    match e {
        Expr::Num(s) => match s.parse::<f64>() {
            Ok(v) => Ok(v),
            Err(_) => Err(EvalError::InvalidToken),
        },
        Expr::Neg(inner) => Ok(-reduce(inner)?),
        Expr::Bin(op, l, r) => {
            let a = reduce(l)?;
            let b = reduce(r)?;
            match op {
                Op::Add => Ok(a + b),
                Op::Sub => Ok(a - b),
                Op::Mul => Ok(a * b),
                Op::Div => {
                    if b.abs() > 1e-10 {
                        Ok(a / b)
                    } else {
                        Err(EvalError::DivisionByZero)
                    }
                }
                Op::Pow => Ok(a.powf(b)),
            }
        }
    }
}

fn run(expr: &str) -> Result<f64, ComputeError> {
    match compute(expr) {
        Ok(e) => reduce(&e).map_err(ComputeError::Eval),
        Err(er) => Err(er),
    }
}

#[test]
fn single_number() {
    assert_eq!(run("5"), Ok(5.0));
    assert_eq!(run("3.5"), Ok(3.5));
    assert_eq!(run("3."), Ok(3.0));
}

#[test]
fn two_operands_each_operator() {
    assert_eq!(run("3+5"), Ok(8.0));
    assert_eq!(run("7-2"), Ok(5.0));
    assert_eq!(run("4*2.5"), Ok(10.0));
    assert_eq!(run("6/3"), Ok(2.0));
    assert_eq!(run("2^10"), Ok(1024.0));
    assert_eq!(run("1.5+2.25"), Ok(3.75));
    assert_eq!(run("10/0.5"), Ok(20.0));
}

#[test]
fn multiplication_binds_tighter_than_addition() {
    assert_eq!(run("3+5*2"), Ok(13.0));
    assert_eq!(run("1+2*3"), Ok(7.0));
}

#[test]
fn equal_precedence_is_left_to_right() {
    assert_eq!(run("10/2-3"), Ok(2.0));
    assert_eq!(run("10-2-3"), Ok(5.0));
}

#[test]
fn power_is_left_associative() {
    assert_eq!(run("2^3^2"), Ok(64.0));
}

#[test]
fn power_groups_as_expression_tree() {
    let e = compute("2^3^2").unwrap();
    match e {
        Expr::Bin(Op::Pow, l, r) => {
            match *l {
                Expr::Bin(Op::Pow, ll, lr) => {
                    assert!(matches!(*ll, Expr::Num(ref s) if s == "2"));
                    assert!(matches!(*lr, Expr::Num(ref s) if s == "3"));
                }
                other => panic!("left operand should be the first power, got {other:?}"),
            }
            assert!(matches!(*r, Expr::Num(ref s) if s == "2"));
        }
        other => panic!("expected a power application, got {other:?}"),
    }
}

#[test]
fn long_alternating_expression() {
    // 2^2 first, then 2*3 and 4/4, then the sums left to right
    assert_eq!(run("1+2*3-4/2^2"), Ok(6.0));
    assert_eq!(run("10-1-2-3"), Ok(4.0));
}

#[test]
fn division_by_zero_is_reported() {
    assert_eq!(run("5/0"), Err(ComputeError::Eval(EvalError::DivisionByZero)));
    assert_eq!(run("1/0.0"), Err(ComputeError::Eval(EvalError::DivisionByZero)));
}

#[test]
fn division_by_near_zero_is_reported() {
    // one ten-billionth is exactly the tolerance, and not above it
    assert_eq!(
        run("5/0.0000000001"),
        Err(ComputeError::Eval(EvalError::DivisionByZero))
    );
}

#[test]
fn leading_unary_minus() {
    assert_eq!(run("-5"), Ok(-5.0));
    assert_eq!(run("-2.5"), Ok(-2.5));
    assert_eq!(run("-3+5"), Ok(2.0));
}

#[test]
fn leading_unary_plus_keeps_operand() {
    // the sign rule for + leaves the single operand unchanged
    assert_eq!(run("+5"), Ok(5.0));
}

#[test]
fn doubled_minus_is_a_sign() {
    // the doubled minus puts two subtractions in postfix order; the
    // first resolves as a sign on the single stacked 5, so the result
    // is (-5) - 3, not 5 - (-3)
    assert_eq!(run("5--3"), Ok(-8.0));
}

#[test]
fn trailing_operator_fails_typed() {
    assert_eq!(
        run("3+"),
        Err(ComputeError::Convert(ConvertError::InvalidToken))
    );
}

#[test]
fn leading_binary_operator_fails_typed() {
    assert_eq!(
        run("*3"),
        Err(ComputeError::Eval(EvalError::MalformedExpression))
    );
}

#[test]
fn empty_input_fails_typed() {
    assert_eq!(run(""), Err(ComputeError::Convert(ConvertError::InvalidToken)));
}

#[test]
fn whitespace_is_rejected() {
    assert_eq!(
        run("1 + 2"),
        Err(ComputeError::Lex(LexError::InvalidToken(' ')))
    );
}

#[test]
fn parentheses_are_rejected() {
    assert_eq!(
        run("(1+2)"),
        Err(ComputeError::Lex(LexError::InvalidToken('(')))
    );
}

#[test]
fn second_decimal_point_is_rejected() {
    assert_eq!(
        run("1..2"),
        Err(ComputeError::Lex(LexError::InvalidToken('.')))
    );
    assert_eq!(
        run("1.2.3"),
        Err(ComputeError::Lex(LexError::InvalidToken('.')))
    );
}

#[test]
fn leading_decimal_point_is_rejected() {
    assert_eq!(run(".5"), Err(ComputeError::Lex(LexError::InvalidToken('.'))));
}

#[test]
fn rerunning_gives_identical_results() {
    let first = run("3+5*2");
    let second = run("3+5*2");
    assert_eq!(first, second);
    let first_err = run("5/0");
    let second_err = run("5/0");
    assert_eq!(first_err, second_err);
}

#[test]
fn error_messages_name_the_stage() {
    let lex = compute("1 + 2").unwrap_err();
    assert_eq!(lex.message(), "Parse Error: invalid token:  ");
    let lex2 = compute("5x").unwrap_err();
    assert_eq!(lex2.message(), "Parse Error: invalid token: x");
    let conv = compute("3+").unwrap_err();
    assert_eq!(conv.message(), "RPN Error: invalid token");
    let eval = compute("*3").unwrap_err();
    assert_eq!(eval.message(), "Calculate Error: malformed expression");
    let div = run("5/0").unwrap_err();
    assert_eq!(div.message(), "Calculate Error: division by 0");
}
