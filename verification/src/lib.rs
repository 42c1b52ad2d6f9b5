//! An arithmetic-expression front end: a single-line string of decimal
//! numbers and the operators `+ - * / ^` is split into tokens, reordered
//! into postfix (reverse-Polish) form by operator precedence, and run
//! through a value-stack pass that yields the expression tree the string
//! denotes, with a typed error from whichever stage rejects the input.
//! There is no grouping operator and no symbol table, and every operator
//! associates to the left, the power operator included. Reducing the
//! finished tree to a machine number is left to the caller, since the
//! numeric type itself is outside what the verifier models; the tree fixes
//! operand order and grouping completely.

use vstd::prelude::*;

pub mod eval;
pub mod expr;
pub mod laws;
pub mod lexer;
pub mod ops;
pub mod postfix;
pub mod token;

use crate::eval::{EvalError, spec_evaluate, evaluate};
use crate::expr::{Expr, GExpr};
use crate::lexer::{LexError, spec_tokenize, tokenize};
use crate::postfix::{ConvertError, spec_to_postfix, to_postfix};

verus! {

/// A pipeline failure, tagged with the stage that produced it.
#[derive(Clone, Copy, PartialEq, Eq, Structural, Debug)]
pub enum ComputeError {
    Lex(LexError),
    Convert(ConvertError),
    Eval(EvalError),
}

impl ComputeError {
    /// The surfaced text of this failure: the stage that produced it,
    /// then its reason.
    pub open spec fn spec_message(self) -> Seq<char> {
        match self {
            ComputeError::Lex(e) => "Parse Error: "@ + e.spec_message(),
            ComputeError::Convert(e) => "RPN Error: "@ + e.spec_message(),
            ComputeError::Eval(e) => "Calculate Error: "@ + e.spec_message(),
        }
    }

    /// Renders the surfaced text, the stage identifiable from its prefix.
    pub fn message(&self) -> (r: String)
        ensures
            r@ == self.spec_message(),
    {
        match self {
            ComputeError::Lex(e) => {
                let mut m = String::from_str("Parse Error: ");
                m.append(e.message().as_str());
                m
            },
            ComputeError::Convert(e) => {
                let mut m = String::from_str("RPN Error: ");
                m.append(e.message().as_str());
                m
            },
            ComputeError::Eval(e) => {
                let mut m = String::from_str("Calculate Error: ");
                m.append(e.message().as_str());
                m
            },
        }
    }
}

/// What the whole pipeline yields on a character sequence: the stages run
/// in order and the first failure wins, tagged with its stage.
pub open spec fn spec_compute(s: Seq<char>) -> Result<GExpr, ComputeError> {
    match spec_tokenize(s) {
        Err(e) => Err(ComputeError::Lex(e)),
        Ok(ts) => match spec_to_postfix(ts) {
            Err(e) => Err(ComputeError::Convert(e)),
            Ok(ps) => match spec_evaluate(ps) {
                Err(e) => Err(ComputeError::Eval(e)),
                Ok(x) => Ok(x),
            },
        },
    }
}

/// The pipeline's entry point: lexes, reorders and evaluates the
/// expression, short-circuiting on the first failure. Each call depends on
/// its argument alone — there is no hidden state — so equal inputs yield
/// equal results.
pub fn compute(expr: &str) -> (r: Result<Expr, ComputeError>)
    ensures
        (match r {
            Ok(e) => spec_compute(expr@) == Ok::<GExpr, ComputeError>(e.deep_view()),
            Err(er) => spec_compute(expr@) == Err::<GExpr, ComputeError>(er),
        }),
{
    let tokens = match tokenize(expr) {
        Ok(ts) => ts,
        Err(e) => {
            return Err(ComputeError::Lex(e));
        },
    };
    let postfix_tokens = match to_postfix(&tokens) {
        Ok(ps) => ps,
        Err(e) => {
            return Err(ComputeError::Convert(e));
        },
    };
    match evaluate(&postfix_tokens) {
        Ok(e) => Ok(e),
        Err(e) => Err(ComputeError::Eval(e)),
    }
}

} // verus!
