use vstd::prelude::*;
use crate::ops::Op;
use crate::token::{Token, GToken, is_number_text, is_number_token};
use crate::expr::{Expr, GExpr};

verus! {

/// The evaluator's failures. `InvalidToken`: a token that is neither a
/// number of the grammar nor an operator. `MalformedExpression`: the value
/// stack underflows during a pop, or holds anything but exactly one value
/// when the input is exhausted. `DivisionByZero` belongs to the numeric
/// reduction of the finished tree, where a divisor within the tolerance of
/// zero is rejected; the structural pass below never raises it itself, but
/// reducers return it through this same type.
#[derive(Clone, Copy, PartialEq, Eq, Structural, Debug)]
pub enum EvalError {
    InvalidToken,
    DivisionByZero,
    MalformedExpression,
}

impl EvalError {
    /// The reason text of this failure.
    pub open spec fn spec_message(self) -> Seq<char> {
        match self {
            EvalError::InvalidToken => "invalid token"@,
            EvalError::DivisionByZero => "division by 0"@,
            EvalError::MalformedExpression => "malformed expression"@,
        }
    }

    /// Renders the reason text.
    pub fn message(&self) -> (r: String)
        ensures
            r@ == self.spec_message(),
    {
        match self {
            EvalError::InvalidToken => String::from_str("invalid token"),
            EvalError::DivisionByZero => String::from_str("division by 0"),
            EvalError::MalformedExpression => String::from_str("malformed expression"),
        }
    }
}

/// One left-to-right pass of the stack discipline over the remaining
/// postfix tokens. A number is pushed. An operator `+` or `-` that finds
/// fewer than two stacked values acts as a sign on the single available
/// operand — negating it for `-`, leaving it unchanged for `+` — and
/// underflows on an empty stack. Any other operator application pops the
/// right operand first, then the left, and pushes the application. At the
/// end the stack must hold exactly the one resulting value.
pub open spec fn spec_evaluate_rec(rest: Seq<GToken>, stack: Seq<GExpr>) -> Result<
    GExpr,
    EvalError,
>
    decreases rest.len(),
{
    if rest.len() == 0 {
        if stack.len() == 1 {
            Ok(stack[0])
        } else {
            Err(EvalError::MalformedExpression)
        }
    } else {
        match rest[0] {
            GToken::Num(s) => if is_number_text(s) {
                spec_evaluate_rec(rest.drop_first(), stack.push(GExpr::Num(s)))
            } else {
                Err(EvalError::InvalidToken)
            },
            GToken::Op(o) => if (o == Op::Add || o == Op::Sub) && stack.len() < 2 {
                if stack.len() == 0 {
                    Err(EvalError::MalformedExpression)
                } else {
                    let v = stack.last();
                    let signed = if o == Op::Sub {
                        GExpr::Neg(Box::new(v))
                    } else {
                        v
                    };
                    spec_evaluate_rec(rest.drop_first(), stack.drop_last().push(signed))
                }
            } else if stack.len() < 2 {
                Err(EvalError::MalformedExpression)
            } else {
                let right = stack.last();
                let left = stack.drop_last().last();
                spec_evaluate_rec(
                    rest.drop_first(),
                    stack.drop_last().drop_last().push(
                        GExpr::Bin(o, Box::new(left), Box::new(right)),
                    ),
                )
            },
        }
    }
}

/// What evaluating a whole postfix token sequence yields.
pub open spec fn spec_evaluate(ts: Seq<GToken>) -> Result<GExpr, EvalError> {
    spec_evaluate_rec(ts, Seq::empty())
}

/// Runs the value-stack discipline of `spec_evaluate_rec` over a postfix
/// token sequence and returns the expression tree the sequence denotes,
/// or the typed failure; no input makes it panic or read out of range.
pub fn evaluate(tokens: &Vec<Token>) -> (r: Result<Expr, EvalError>)
    ensures
        (match r {
            Ok(e) => spec_evaluate(tokens.deep_view()) == Ok::<GExpr, EvalError>(e.deep_view()),
            Err(er) => spec_evaluate(tokens.deep_view()) == Err::<GExpr, EvalError>(er),
        }),
{
    let n = tokens.len();
    let mut i: usize = 0;
    let mut stack: Vec<Expr> = Vec::new();
    proof {
        assert(tokens.deep_view().skip(0) =~= tokens.deep_view());
        assert(stack.deep_view() =~= Seq::<GExpr>::empty());
    }
    while i < n
        invariant
            n == tokens@.len(),
            0 <= i <= n,
            spec_evaluate(tokens.deep_view()) == spec_evaluate_rec(
                tokens.deep_view().skip(i as int),
                stack.deep_view(),
            ),
        decreases n - i,
    {
        let ghost rest = tokens.deep_view().skip(i as int);
        let ghost stack0 = stack.deep_view();
        proof {
            assert(rest[0] == tokens.deep_view()[i as int]);
            assert(rest.drop_first() =~= tokens.deep_view().skip(i as int + 1));
        }
        match &tokens[i] {
            Token::Number(s) => {
                if is_number_token(s.as_str()) {
                    stack.push(Expr::Num(s.clone()));
                    proof {
                        assert(stack.deep_view() =~= stack0.push(GExpr::Num(s@)));
                    }
                } else {
                    return Err(EvalError::InvalidToken);
                }
            },
            Token::Operator(o) => {
                let o = *o;
                let unary = matches!(o, Op::Add | Op::Sub) && stack.len() < 2;
                if unary {
                    match stack.pop() {
                        None => {
                            return Err(EvalError::MalformedExpression);
                        },
                        Some(v) => {
                            proof {
                                assert(stack.deep_view() =~= stack0.drop_last());
                            }
                            let signed = if matches!(o, Op::Sub) {
                                Expr::Neg(Box::new(v))
                            } else {
                                v
                            };
                            stack.push(signed);
                            proof {
                                assert(stack.deep_view() =~= stack0.drop_last().push(
                                    if o == Op::Sub {
                                        GExpr::Neg(Box::new(stack0.last()))
                                    } else {
                                        stack0.last()
                                    },
                                ));
                            }
                        },
                    }
                } else {
                    if stack.len() < 2 {
                        return Err(EvalError::MalformedExpression);
                    }
                    let right = stack.pop().unwrap();
                    let left = stack.pop().unwrap();
                    stack.push(Expr::Bin(o, Box::new(left), Box::new(right)));
                    proof {
                        assert(stack.deep_view() =~= stack0.drop_last().drop_last().push(
                            GExpr::Bin(
                                o,
                                Box::new(stack0.drop_last().last()),
                                Box::new(stack0.last()),
                            ),
                        ));
                    }
                }
            },
        }
        i = i + 1;
    }
    proof {
        assert(tokens.deep_view().skip(n as int) =~= Seq::<GToken>::empty());
    }
    if stack.len() == 1 {
        let e = stack.pop().unwrap();
        Ok(e)
    } else {
        Err(EvalError::MalformedExpression)
    }
}

} // verus!
