use vstd::prelude::*;
use crate::ops::Op;
use crate::token::{Token, GToken, is_number_text, is_number_token};

verus! {

/// The converter's failure: a token that is neither a number of the
/// grammar nor an operator. The lexer's trailing empty number token is the
/// one such token it can produce itself.
#[derive(Clone, Copy, PartialEq, Eq, Structural, Debug)]
pub enum ConvertError {
    InvalidToken,
}

impl ConvertError {
    /// The reason text of this failure.
    pub open spec fn spec_message(self) -> Seq<char> {
        "invalid token"@
    }

    /// Renders the reason text.
    pub fn message(&self) -> (r: String)
        ensures
            r@ == self.spec_message(),
    {
        String::from_str("invalid token")
    }
}

/// Splits the operator stack at an incoming operator `o`: the first
/// component lists, top first, the stacked operators of precedence greater
/// than or equal to `o`'s, as output tokens; the second is what remains.
pub open spec fn split_ge(stack: Seq<Op>, o: Op) -> (Seq<GToken>, Seq<Op>)
    decreases stack.len(),
{
    if stack.len() == 0 {
        (Seq::<GToken>::empty(), stack)
    } else if stack.last().spec_precedence() >= o.spec_precedence() {
        let rec = split_ge(stack.drop_last(), o);
        (seq![GToken::Op(stack.last())] + rec.0, rec.1)
    } else {
        (Seq::<GToken>::empty(), stack)
    }
}

/// The operators still stacked when the input is exhausted, emitted in
/// stack pop order: top of stack first.
pub open spec fn drain_ops(stack: Seq<Op>) -> Seq<GToken>
    decreases stack.len(),
{
    if stack.len() == 0 {
        Seq::<GToken>::empty()
    } else {
        seq![GToken::Op(stack.last())] + drain_ops(stack.drop_last())
    }
}

/// One left-to-right pass of the precedence-pop rule over the remaining
/// tokens: a number goes straight to the output; an operator first pops
/// every stacked operator of greater or equal precedence to the output,
/// then is pushed; an unrecognized token fails. Exhausted input drains the
/// stack onto the output.
pub open spec fn spec_to_postfix_rec(
    rest: Seq<GToken>,
    stack: Seq<Op>,
    out: Seq<GToken>,
) -> Result<Seq<GToken>, ConvertError>
    decreases rest.len(),
{
    if rest.len() == 0 {
        Ok(out + drain_ops(stack))
    } else {
        match rest[0] {
            GToken::Num(s) => if is_number_text(s) {
                spec_to_postfix_rec(rest.drop_first(), stack, out.push(GToken::Num(s)))
            } else {
                Err(ConvertError::InvalidToken)
            },
            GToken::Op(o) => {
                let sp = split_ge(stack, o);
                spec_to_postfix_rec(rest.drop_first(), sp.1.push(o), out + sp.0)
            },
        }
    }
}

/// What converting a whole token sequence to postfix order yields.
pub open spec fn spec_to_postfix(ts: Seq<GToken>) -> Result<Seq<GToken>, ConvertError> {
    spec_to_postfix_rec(ts, Seq::empty(), Seq::empty())
}

/// Reorders an infix token sequence into postfix (reverse-Polish) order by
/// the operator-precedence rule of `spec_to_postfix_rec`. Since equal
/// precedence pops, every operator associates to the left, the power
/// operator included. No operand-count checking happens here; malformed
/// sequences are left to the evaluator.
pub fn to_postfix(tokens: &Vec<Token>) -> (r: Result<Vec<Token>, ConvertError>)
    ensures
        (match r {
            Ok(ps) => spec_to_postfix(tokens.deep_view()) == Ok::<Seq<GToken>, ConvertError>(
                ps.deep_view(),
            ),
            Err(e) => spec_to_postfix(tokens.deep_view()) == Err::<Seq<GToken>, ConvertError>(e),
        }),
{
    let n = tokens.len();
    let mut i: usize = 0;
    let mut stack: Vec<Op> = Vec::new();
    let mut out: Vec<Token> = Vec::new();
    proof {
        assert(tokens.deep_view().skip(0) =~= tokens.deep_view());
        assert(out.deep_view() =~= Seq::<GToken>::empty());
    }
    while i < n
        invariant
            n == tokens@.len(),
            0 <= i <= n,
            spec_to_postfix(tokens.deep_view()) == spec_to_postfix_rec(
                tokens.deep_view().skip(i as int),
                stack@,
                out.deep_view(),
            ),
        decreases n - i,
    {
        let ghost rest = tokens.deep_view().skip(i as int);
        let ghost out0 = out.deep_view();
        proof {
            assert(rest[0] == tokens.deep_view()[i as int]);
            assert(rest.drop_first() =~= tokens.deep_view().skip(i as int + 1));
        }
        match &tokens[i] {
            Token::Number(s) => {
                if is_number_token(s.as_str()) {
                    out.push(Token::Number(s.clone()));
                    proof {
                        assert(out.deep_view() =~= out0.push(GToken::Num(s@)));
                    }
                } else {
                    return Err(ConvertError::InvalidToken);
                }
            },
            Token::Operator(o) => {
                let o = *o;
                let ghost stack0 = stack@;
                while stack.len() > 0 && stack[stack.len() - 1].precedence() >= o.precedence()
                    invariant
                        split_ge(stack0, o).1 == split_ge(stack@, o).1,
                        out0 + split_ge(stack0, o).0 == out.deep_view() + split_ge(stack@, o).0,
                    decreases stack@.len(),
                {
                    let ghost stack_pre = stack@;
                    let ghost out_pre = out.deep_view();
                    let top = stack.pop().unwrap();
                    out.push(Token::Operator(top));
                    proof {
                        assert(stack@ =~= stack_pre.drop_last());
                        assert(out.deep_view() =~= out_pre.push(GToken::Op(top)));
                        assert(out_pre + split_ge(stack_pre, o).0 =~= out.deep_view() + split_ge(
                            stack@,
                            o,
                        ).0);
                    }
                }
                proof {
                    assert(split_ge(stack@, o).0 =~= Seq::<GToken>::empty());
                    assert(out.deep_view() + split_ge(stack@, o).0 =~= out.deep_view());
                    assert(out.deep_view() =~= out0 + split_ge(stack0, o).0);
                }
                stack.push(o);
            },
        }
        i = i + 1;
    }
    proof {
        assert(tokens.deep_view().skip(n as int) =~= Seq::<GToken>::empty());
    }
    while stack.len() > 0
        invariant
            spec_to_postfix(tokens.deep_view()) == Ok::<Seq<GToken>, ConvertError>(
                out.deep_view() + drain_ops(stack@),
            ),
        decreases stack@.len(),
    {
        let ghost stack_pre = stack@;
        let ghost out_pre = out.deep_view();
        let top = stack.pop().unwrap();
        out.push(Token::Operator(top));
        proof {
            assert(stack@ =~= stack_pre.drop_last());
            assert(out.deep_view() =~= out_pre.push(GToken::Op(top)));
            assert(out.deep_view() + drain_ops(stack@) =~= out_pre + drain_ops(stack_pre));
        }
    }
    proof {
        assert(out.deep_view() + drain_ops(stack@) =~= out.deep_view());
    }
    Ok(out)
}

} // verus!
