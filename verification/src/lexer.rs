use vstd::prelude::*;
use crate::ops::{Op, is_op_char, op_of_char};
use crate::token::{Token, GToken, is_digit, digit, push_char};

verus! {

/// Classification of the token under construction while scanning.
#[derive(Clone, Copy, PartialEq, Eq, Structural, Debug)]
pub enum LexState {
    Empty,
    Int,
    Float,
    Operator,
}

/// The lexer's failure: a character that no scanning rule accepts, named.
#[derive(Clone, Copy, PartialEq, Eq, Structural, Debug)]
pub enum LexError {
    InvalidToken(char),
}

impl LexError {
    /// The reason text of this failure, naming the offending character.
    pub open spec fn spec_message(self) -> Seq<char> {
        match self {
            LexError::InvalidToken(c) => "invalid token: "@.push(c),
        }
    }

    /// Renders the reason text.
    pub fn message(&self) -> (r: String)
        ensures
            r@ == self.spec_message(),
    {
        match self {
            LexError::InvalidToken(c) => {
                let mut m = String::from_str("invalid token: ");
                push_char(&mut m, *c);
                m
            },
        }
    }
}

/// One left-to-right pass of the scanning rules over the remaining input.
/// `state` classifies the buffered text `buf`; `acc` holds the tokens
/// already emitted. The rules, in priority order per character: a digit
/// outside the fractional state extends the buffer; an operator symbol
/// flushes a non-empty buffer as a number and is emitted itself; a decimal
/// point after integer text extends the buffer into the fractional state;
/// a digit in the fractional state extends the buffer; anything else is
/// rejected, naming the character. At the end of the input the trailing
/// buffer is emitted as a number token even when it is empty.
pub open spec fn spec_tokenize_rec(
    rest: Seq<char>,
    state: LexState,
    buf: Seq<char>,
    acc: Seq<GToken>,
) -> Result<Seq<GToken>, LexError>
    decreases rest.len(),
{
    if rest.len() == 0 {
        Ok(acc.push(GToken::Num(buf)))
    } else {
        let c = rest[0];
        if state != LexState::Float && is_digit(c) {
            spec_tokenize_rec(rest.drop_first(), LexState::Int, buf.push(c), acc)
        } else if is_op_char(c) {
            let flushed = if buf.len() > 0 {
                acc.push(GToken::Num(buf))
            } else {
                acc
            };
            spec_tokenize_rec(
                rest.drop_first(),
                LexState::Operator,
                Seq::empty(),
                flushed.push(GToken::Op(op_of_char(c))),
            )
        } else if state == LexState::Int && c == '.' {
            spec_tokenize_rec(rest.drop_first(), LexState::Float, buf.push(c), acc)
        } else if state == LexState::Float && is_digit(c) {
            spec_tokenize_rec(rest.drop_first(), LexState::Float, buf.push(c), acc)
        } else {
            Err(LexError::InvalidToken(c))
        }
    }
}

/// What tokenizing a whole character sequence yields.
pub open spec fn spec_tokenize(s: Seq<char>) -> Result<Seq<GToken>, LexError> {
    spec_tokenize_rec(s, LexState::Empty, Seq::empty(), Seq::empty())
}

/// Splits an expression into number and operator tokens by the scanning
/// rules of `spec_tokenize_rec`, or reports the first offending character.
pub fn tokenize(expr: &str) -> (r: Result<Vec<Token>, LexError>)
    ensures
        (match r {
            Ok(ts) => spec_tokenize(expr@) == Ok::<Seq<GToken>, LexError>(ts.deep_view()),
            Err(e) => spec_tokenize(expr@) == Err::<Seq<GToken>, LexError>(e),
        }),
{
    let n = expr.unicode_len();
    let mut i: usize = 0;
    let mut state = LexState::Empty;
    let mut buf = String::new();
    let mut acc: Vec<Token> = Vec::new();
    proof {
        assert(expr@.skip(0) =~= expr@);
        assert(acc.deep_view() =~= Seq::<GToken>::empty());
    }
    while i < n
        invariant
            n == expr@.len(),
            0 <= i <= n,
            spec_tokenize(expr@) == spec_tokenize_rec(
                expr@.skip(i as int),
                state,
                buf@,
                acc.deep_view(),
            ),
        decreases n - i,
    {
        let ghost rest = expr@.skip(i as int);
        let ghost acc0 = acc.deep_view();
        let c = expr.get_char(i);
        proof {
            assert(rest[0] == c);
            assert(rest.drop_first() =~= expr@.skip(i as int + 1));
        }
        if state != LexState::Float && digit(c) {
            push_char(&mut buf, c);
            state = LexState::Int;
        } else {
            match Op::from_char(c) {
                Some(o) => {
                    let ghost buf0 = buf@;
                    if !buf.as_str().is_empty() {
                        acc.push(Token::Number(buf));
                        buf = String::new();
                        proof {
                            assert(acc.deep_view() =~= acc0.push(GToken::Num(buf0)));
                        }
                    } else {
                        proof {
                            assert(buf@ =~= Seq::<char>::empty());
                        }
                    }
                    let ghost flushed = acc.deep_view();
                    acc.push(Token::Operator(o));
                    proof {
                        assert(acc.deep_view() =~= flushed.push(GToken::Op(o)));
                    }
                    state = LexState::Operator;
                },
                None => {
                    if state == LexState::Int && c == '.' {
                        push_char(&mut buf, c);
                        state = LexState::Float;
                    } else if state == LexState::Float && digit(c) {
                        push_char(&mut buf, c);
                    } else {
                        return Err(LexError::InvalidToken(c));
                    }
                },
            }
        }
        i = i + 1;
    }
    proof {
        assert(expr@.skip(n as int) =~= Seq::<char>::empty());
    }
    let ghost accn = acc.deep_view();
    acc.push(Token::Number(buf));
    proof {
        assert(acc.deep_view() =~= accn.push(GToken::Num(buf@)));
    }
    Ok(acc)
}

/// The text a single token stands for: a number's characters, or the
/// operator's symbol.
pub open spec fn token_text(t: GToken) -> Seq<char> {
    match t {
        GToken::Num(s) => s,
        GToken::Op(o) => seq![o.spec_symbol()],
    }
}

/// The texts of all tokens, in order: the character sequence the token
/// sequence stands for.
pub open spec fn spec_reconstruct(ts: Seq<GToken>) -> Seq<char>
    decreases ts.len(),
{
    if ts.len() == 0 {
        Seq::<char>::empty()
    } else {
        token_text(ts[0]) + spec_reconstruct(ts.drop_first())
    }
}

/// Writes a token sequence back out as text: each number's characters and
/// each operator's symbol, in order.
pub fn reconstruct(tokens: &Vec<Token>) -> (r: String)
    ensures
        r@ == spec_reconstruct(tokens.deep_view()),
{
    let n = tokens.len();
    let mut i: usize = 0;
    let mut out = String::new();
    proof {
        assert(tokens.deep_view().skip(0) =~= tokens.deep_view());
        assert(Seq::<char>::empty() + spec_reconstruct(tokens.deep_view()) =~= spec_reconstruct(
            tokens.deep_view(),
        ));
    }
    while i < n
        invariant
            n == tokens@.len(),
            0 <= i <= n,
            spec_reconstruct(tokens.deep_view()) == out@ + spec_reconstruct(
                tokens.deep_view().skip(i as int),
            ),
        decreases n - i,
    {
        let ghost rest = tokens.deep_view().skip(i as int);
        let ghost out0 = out@;
        proof {
            assert(rest[0] == tokens.deep_view()[i as int]);
            assert(rest.drop_first() =~= tokens.deep_view().skip(i as int + 1));
        }
        match &tokens[i] {
            Token::Number(s) => {
                out.append(s.as_str());
            },
            Token::Operator(o) => {
                push_char(&mut out, o.symbol());
                proof {
                    assert(out@ =~= out0 + seq![o.spec_symbol()]);
                }
            },
        }
        proof {
            assert(out0 + (token_text(rest[0]) + spec_reconstruct(rest.drop_first())) =~= out@
                + spec_reconstruct(rest.drop_first()));
        }
        i = i + 1;
    }
    proof {
        assert(tokens.deep_view().skip(n as int) =~= Seq::<GToken>::empty());
        assert(out@ + spec_reconstruct(Seq::<GToken>::empty()) =~= out@);
    }
    out
}

} // verus!
