use vstd::prelude::*;
use crate::eval::{EvalError, spec_evaluate, spec_evaluate_rec};
use crate::expr::{GExpr, wf_gexpr};
use crate::ops::Op;
use crate::postfix::{ConvertError, spec_to_postfix, spec_to_postfix_rec, split_ge, drain_ops};
use crate::lexer::{
    LexState,
    LexError,
    spec_tokenize,
    spec_tokenize_rec,
    spec_reconstruct,
    token_text,
};
use crate::token::{GToken, is_digit, all_digits};
use crate::spec_compute;
use crate::ComputeError;

verus! {

/// Reconstruction splits over concatenation of token sequences.
proof fn lemma_reconstruct_append(a: Seq<GToken>, b: Seq<GToken>)
    ensures
        spec_reconstruct(a + b) == spec_reconstruct(a) + spec_reconstruct(b),
    decreases a.len(),
{
    if a.len() == 0 {
        assert(a + b =~= b);
        assert(spec_reconstruct(a) + spec_reconstruct(b) =~= spec_reconstruct(b));
    } else {
        lemma_reconstruct_append(a.drop_first(), b);
        assert((a + b).drop_first() =~= a.drop_first() + b);
        assert(token_text((a + b)[0]) + (spec_reconstruct(a.drop_first()) + spec_reconstruct(b))
            =~= (token_text(a[0]) + spec_reconstruct(a.drop_first())) + spec_reconstruct(b));
    }
}

/// Reconstruction of one more token appends that token's text.
proof fn lemma_reconstruct_push(a: Seq<GToken>, t: GToken)
    ensures
        spec_reconstruct(a.push(t)) == spec_reconstruct(a) + token_text(t),
{
    lemma_reconstruct_append(a, seq![t]);
    assert(a.push(t) =~= a + seq![t]);
    assert(seq![t].drop_first() =~= Seq::<GToken>::empty());
    assert(spec_reconstruct(Seq::<GToken>::empty()) =~= Seq::<char>::empty());
    assert(seq![t][0] == t);
    assert(spec_reconstruct(seq![t]) =~= token_text(t) + Seq::<char>::empty());
    assert(token_text(t) + Seq::<char>::empty() =~= token_text(t));
}

/// A token is acceptable to the converter: a number within the grammar,
/// or any operator.
pub open spec fn convertible(t: GToken) -> bool {
    match t {
        GToken::Num(s) => crate::token::is_number_text(s),
        GToken::Op(_) => true,
    }
}

/// The precedence-pop pass succeeds on every acceptable remainder,
/// whatever is stacked or already written out.
proof fn lemma_to_postfix_rec_total(rest: Seq<GToken>, stack: Seq<Op>, out: Seq<GToken>)
    requires
        forall|i: int| 0 <= i < rest.len() ==> convertible(#[trigger] rest[i]),
    ensures
        spec_to_postfix_rec(rest, stack, out) is Ok,
    decreases rest.len(),
{
    if rest.len() > 0 {
        assert(convertible(rest[0]));
        assert(forall|i: int| 0 <= i < rest.drop_first().len() ==> convertible(
            #[trigger] rest.drop_first()[i],
        ));
        match rest[0] {
            GToken::Num(s) => {
                lemma_to_postfix_rec_total(rest.drop_first(), stack, out.push(GToken::Num(s)));
            },
            GToken::Op(o) => {
                let sp = split_ge(stack, o);
                lemma_to_postfix_rec_total(rest.drop_first(), sp.1.push(o), out + sp.0);
            },
        }
    }
}

/// The precedence-pop pass stops on the first unacceptable token,
/// whatever is stacked or already written out.
proof fn lemma_to_postfix_rec_partial(rest: Seq<GToken>, stack: Seq<Op>, out: Seq<GToken>)
    requires
        exists|i: int| 0 <= i < rest.len() && !convertible(#[trigger] rest[i]),
    ensures
        spec_to_postfix_rec(rest, stack, out) == Err::<Seq<GToken>, ConvertError>(
            ConvertError::InvalidToken,
        ),
    decreases rest.len(),
{
    let w = choose|i: int| 0 <= i < rest.len() && !convertible(#[trigger] rest[i]);
    if convertible(rest[0]) {
        assert(rest.drop_first()[w - 1] == rest[w]);
        match rest[0] {
            GToken::Num(s) => {
                lemma_to_postfix_rec_partial(rest.drop_first(), stack, out.push(GToken::Num(s)));
            },
            GToken::Op(o) => {
                let sp = split_ge(stack, o);
                lemma_to_postfix_rec_partial(rest.drop_first(), sp.1.push(o), out + sp.0);
            },
        }
    }
}

/// When conversion to postfix order is owed: it succeeds exactly when
/// every token is a number within the grammar or an operator, and its one
/// failure is the unacceptable-token error.
pub proof fn lemma_to_postfix_success(ts: Seq<GToken>)
    ensures
        (forall|i: int| 0 <= i < ts.len() ==> convertible(#[trigger] ts[i])) <==> spec_to_postfix(
            ts,
        ) is Ok,
        !(spec_to_postfix(ts) is Ok) ==> spec_to_postfix(ts) == Err::<Seq<GToken>, ConvertError>(
            ConvertError::InvalidToken,
        ),
{
    if forall|i: int| 0 <= i < ts.len() ==> convertible(#[trigger] ts[i]) {
        lemma_to_postfix_rec_total(ts, Seq::empty(), Seq::empty());
    } else {
        lemma_to_postfix_rec_partial(ts, Seq::empty(), Seq::empty());
    }
}

/// Through every state of the scan, the tokens already emitted, the
/// buffered text and the remaining input together spell the text that a
/// successful scan's tokens will reconstruct.
proof fn lemma_lex_reconstruct(
    rest: Seq<char>,
    state: LexState,
    buf: Seq<char>,
    acc: Seq<GToken>,
    ts: Seq<GToken>,
)
    requires
        spec_tokenize_rec(rest, state, buf, acc) == Ok::<Seq<GToken>, LexError>(ts),
    ensures
        spec_reconstruct(ts) == spec_reconstruct(acc) + buf + rest,
    decreases rest.len(),
{
    if rest.len() == 0 {
        lemma_reconstruct_push(acc, GToken::Num(buf));
        assert(spec_reconstruct(acc) + buf + rest =~= spec_reconstruct(acc) + buf);
    } else {
        let c = rest[0];
        assert(rest =~= seq![c] + rest.drop_first());
        if state != LexState::Float && crate::token::is_digit(c) {
            lemma_lex_reconstruct(rest.drop_first(), LexState::Int, buf.push(c), acc, ts);
            assert(spec_reconstruct(acc) + buf.push(c) + rest.drop_first() =~= spec_reconstruct(
                acc,
            ) + buf + rest);
        } else if crate::ops::is_op_char(c) {
            let o = crate::ops::op_of_char(c);
            let flushed = if buf.len() > 0 {
                acc.push(GToken::Num(buf))
            } else {
                acc
            };
            lemma_lex_reconstruct(
                rest.drop_first(),
                LexState::Operator,
                Seq::empty(),
                flushed.push(GToken::Op(o)),
                ts,
            );
            lemma_reconstruct_push(flushed, GToken::Op(o));
            if buf.len() > 0 {
                lemma_reconstruct_push(acc, GToken::Num(buf));
            } else {
                assert(buf =~= Seq::<char>::empty());
            }
            assert(o.spec_symbol() == c);
            assert(spec_reconstruct(flushed) =~= spec_reconstruct(acc) + buf);
            assert(spec_reconstruct(flushed) + seq![c] + Seq::<char>::empty() + rest.drop_first()
                =~= spec_reconstruct(acc) + buf + rest);
        } else if state == LexState::Int && c == '.' {
            lemma_lex_reconstruct(rest.drop_first(), LexState::Float, buf.push(c), acc, ts);
            assert(spec_reconstruct(acc) + buf.push(c) + rest.drop_first() =~= spec_reconstruct(
                acc,
            ) + buf + rest);
        } else if state == LexState::Float && crate::token::is_digit(c) {
            lemma_lex_reconstruct(rest.drop_first(), LexState::Float, buf.push(c), acc, ts);
            assert(spec_reconstruct(acc) + buf.push(c) + rest.drop_first() =~= spec_reconstruct(
                acc,
            ) + buf + rest);
        }
    }
}

/// Round trip: whatever character sequence the lexer accepts, writing its
/// tokens back out — each number's text and each operator's symbol, in
/// order — reproduces that sequence exactly.
pub proof fn lemma_tokenize_round_trip(s: Seq<char>, ts: Seq<GToken>)
    requires
        spec_tokenize(s) == Ok::<Seq<GToken>, LexError>(ts),
    ensures
        spec_reconstruct(ts) == s,
{
    lemma_lex_reconstruct(s, LexState::Empty, Seq::empty(), Seq::empty(), ts);
    assert(spec_reconstruct(Seq::<GToken>::empty()) + Seq::<char>::empty() + s =~= s);
}

/// Whether the sequence holds a decimal point anywhere.
spec fn has_dot(s: Seq<char>) -> bool {
    exists|i: int| 0 <= i < s.len() && #[trigger] s[i] == '.'
}

/// The scanning state after the lexer has consumed the first `j`
/// characters of a number text, having started in `s0` with an empty
/// buffer.
spec fn lex_state_at(num: Seq<char>, j: int, s0: LexState) -> LexState {
    if j == 0 {
        s0
    } else if has_dot(num.take(j)) {
        LexState::Float
    } else {
        LexState::Int
    }
}

/// A digit is not a decimal point and not an operator symbol.
proof fn lemma_digit_is_plain(c: char)
    requires
        crate::token::is_digit(c),
    ensures
        c != '.',
        !crate::ops::is_op_char(c),
{
}

/// Scanning a valid number text consumes it into the buffer, character by
/// character, whatever started the scan in a non-fractional state: from
/// position `j` onward the scan reaches the same outcome as a scan that
/// already holds the whole number buffered.
proof fn lemma_lex_number_step(
    num: Seq<char>,
    suffix: Seq<char>,
    acc: Seq<GToken>,
    s0: LexState,
    j: int,
)
    requires
        crate::token::is_number_text(num),
        s0 == LexState::Empty || s0 == LexState::Operator,
        0 <= j <= num.len(),
    ensures
        spec_tokenize_rec(num.skip(j) + suffix, lex_state_at(num, j, s0), num.take(j), acc)
            == spec_tokenize_rec(suffix, lex_state_at(num, num.len() as int, s0), num, acc),
    decreases num.len() - j,
{
    if j == num.len() {
        assert(num.skip(j) + suffix =~= suffix);
        assert(num.take(j) =~= num);
    } else {
        let c = num[j];
        let rest = num.skip(j) + suffix;
        assert(rest[0] == c);
        assert(rest.drop_first() =~= num.skip(j + 1) + suffix);
        assert(num.take(j).push(c) =~= num.take(j + 1));
        if all_digits(num) {
            assert(is_digit(c));
            lemma_digit_is_plain(c);
            assert(!has_dot(num.take(j))) by {
                assert(forall|i: int|
                    0 <= i < j ==> is_digit(#[trigger] num.take(j)[i]) && num.take(j)[i] != '.');
            }
            assert(!has_dot(num.take(j + 1))) by {
                assert(forall|i: int|
                    0 <= i < j + 1 ==> is_digit(#[trigger] num.take(j + 1)[i]) && num.take(
                        j + 1,
                    )[i] != '.');
            }
            assert(lex_state_at(num, j, s0) != LexState::Float);
            assert(lex_state_at(num, j + 1, s0) == LexState::Int);
        } else {
            let k = choose|k: int|
                1 <= k < num.len() && #[trigger] num[k] == '.' && all_digits(num.subrange(0, k))
                    && all_digits(num.subrange(k + 1, num.len() as int));
            if j < k {
                assert(is_digit(c)) by {
                    assert(num.subrange(0, k)[j] == c);
                }
                lemma_digit_is_plain(c);
                assert(!has_dot(num.take(j + 1))) by {
                    assert(forall|i: int| 0 <= i < j + 1 ==> #[trigger] num.take(j + 1)[i]
                        == num.subrange(0, k)[i]);
                }
                assert(!has_dot(num.take(j))) by {
                    assert(forall|i: int| 0 <= i < j ==> #[trigger] num.take(j)[i]
                        == num.subrange(0, k)[i]);
                }
                assert(lex_state_at(num, j, s0) != LexState::Float);
                assert(lex_state_at(num, j + 1, s0) == LexState::Int);
            } else if j == k {
                assert(c == '.');
                assert(!crate::ops::is_op_char(c));
                assert(!is_digit(c));
                assert(!has_dot(num.take(j))) by {
                    assert(forall|i: int| 0 <= i < j ==> #[trigger] num.take(j)[i]
                        == num.subrange(0, k)[i]);
                }
                assert(lex_state_at(num, j, s0) == LexState::Int);
                assert(has_dot(num.take(j + 1))) by {
                    assert(num.take(j + 1)[k] == '.');
                }
                assert(lex_state_at(num, j + 1, s0) == LexState::Float);
            } else {
                assert(is_digit(c)) by {
                    assert(num.subrange(k + 1, num.len() as int)[j - k - 1] == c);
                }
                lemma_digit_is_plain(c);
                assert(has_dot(num.take(j))) by {
                    assert(num.take(j)[k] == '.');
                }
                assert(has_dot(num.take(j + 1))) by {
                    assert(num.take(j + 1)[k] == '.');
                }
                assert(lex_state_at(num, j, s0) == LexState::Float);
                assert(lex_state_at(num, j + 1, s0) == LexState::Float);
            }
        }
        lemma_lex_number_step(num, suffix, acc, s0, j + 1);
    }
}

/// Scanning a valid number text from a fresh buffer consumes the whole
/// text into the buffer.
proof fn lemma_lex_number(num: Seq<char>, suffix: Seq<char>, acc: Seq<GToken>, s0: LexState)
    requires
        crate::token::is_number_text(num),
        s0 == LexState::Empty || s0 == LexState::Operator,
    ensures
        spec_tokenize_rec(num + suffix, s0, Seq::empty(), acc) == spec_tokenize_rec(
            suffix,
            lex_state_at(num, num.len() as int, s0),
            num,
            acc,
        ),
{
    assert(num.skip(0) + suffix =~= num + suffix);
    assert(num.take(0) =~= Seq::<char>::empty());
    lemma_lex_number_step(num, suffix, acc, s0, 0);
}

/// A valid number text followed by an operator symbol lexes into the
/// number token, flushed by the symbol, and the operator token.
proof fn lemma_lex_number_then_op(
    num: Seq<char>,
    c: char,
    suffix: Seq<char>,
    acc: Seq<GToken>,
    s0: LexState,
)
    requires
        crate::token::is_number_text(num),
        crate::ops::is_op_char(c),
        s0 == LexState::Empty || s0 == LexState::Operator,
    ensures
        spec_tokenize_rec(num + seq![c] + suffix, s0, Seq::empty(), acc) == spec_tokenize_rec(
            suffix,
            LexState::Operator,
            Seq::empty(),
            acc.push(GToken::Num(num)).push(GToken::Op(crate::ops::op_of_char(c))),
        ),
{
    assert(num + seq![c] + suffix =~= num + (seq![c] + suffix));
    lemma_lex_number(num, seq![c] + suffix, acc, s0);
    let rest = seq![c] + suffix;
    assert(rest[0] == c);
    assert(rest.drop_first() =~= suffix);
    assert(!is_digit(c));
    assert(num.len() > 0);
}

/// A valid number text at the end of the input lexes into one number
/// token, emitted from the trailing buffer.
proof fn lemma_lex_number_end(num: Seq<char>, acc: Seq<GToken>, s0: LexState)
    requires
        crate::token::is_number_text(num),
        s0 == LexState::Empty || s0 == LexState::Operator,
    ensures
        spec_tokenize_rec(num, s0, Seq::empty(), acc) == Ok::<Seq<GToken>, LexError>(
            acc.push(GToken::Num(num)),
        ),
{
    assert(num + Seq::<char>::empty() =~= num);
    lemma_lex_number(num, Seq::empty(), acc, s0);
}

/// For every valid two-operand expression — a number text, one of the
/// five operator symbols, a number text — the pipeline accepts the input
/// and yields exactly the application of that operator to those two
/// operands, in that order.
pub proof fn lemma_two_operand(a: Seq<char>, o: Op, b: Seq<char>)
    requires
        crate::token::is_number_text(a),
        crate::token::is_number_text(b),
    ensures
        spec_compute(a + seq![o.spec_symbol()] + b) == Ok::<GExpr, ComputeError>(
            GExpr::Bin(o, Box::new(GExpr::Num(a)), Box::new(GExpr::Num(b))),
        ),
{
    let c = o.spec_symbol();
    crate::ops::lemma_symbol_of_char(o);
    // lexing: the operator symbol flushes the first number; the second
    // is emitted from the trailing buffer
    lemma_lex_number_then_op(a, c, b, Seq::empty(), LexState::Empty);
    let acc1 = Seq::<GToken>::empty().push(GToken::Num(a)).push(GToken::Op(o));
    lemma_lex_number_end(b, acc1, LexState::Operator);
    let ts = seq![GToken::Num(a), GToken::Op(o), GToken::Num(b)];
    assert(acc1.push(GToken::Num(b)) =~= ts);
    assert(spec_tokenize(a + seq![c] + b) == Ok::<Seq<GToken>, LexError>(ts));
    // conversion: number, operator onto the empty stack, number, drain
    let ts1 = seq![GToken::Op(o), GToken::Num(b)];
    let ts2 = seq![GToken::Num(b)];
    assert(ts.drop_first() =~= ts1);
    assert(ts1.drop_first() =~= ts2);
    assert(ts2.drop_first() =~= Seq::<GToken>::empty());
    let out1 = seq![GToken::Num(a)];
    assert(Seq::<GToken>::empty().push(GToken::Num(a)) =~= out1);
    let stack1 = seq![o];
    assert(split_ge(Seq::<Op>::empty(), o).0 =~= Seq::<GToken>::empty());
    assert(split_ge(Seq::<Op>::empty(), o).1 =~= Seq::<Op>::empty());
    assert(out1 + split_ge(Seq::<Op>::empty(), o).0 =~= out1);
    assert(Seq::<Op>::empty().push(o) =~= stack1);
    let out2 = seq![GToken::Num(a), GToken::Num(b)];
    assert(out1.push(GToken::Num(b)) =~= out2);
    assert(stack1.drop_last() =~= Seq::<Op>::empty());
    assert(drain_ops(Seq::<Op>::empty()) =~= Seq::<GToken>::empty());
    assert(drain_ops(stack1) =~= seq![GToken::Op(o)]);
    let ps = seq![GToken::Num(a), GToken::Num(b), GToken::Op(o)];
    assert(out2 + drain_ops(stack1) =~= ps);
    let e_ops = Seq::<Op>::empty();
    let e_toks = Seq::<GToken>::empty();
    assert(spec_to_postfix_rec(ts, e_ops, e_toks) == spec_to_postfix_rec(ts1, e_ops, out1));
    assert(spec_to_postfix_rec(ts1, e_ops, out1) == spec_to_postfix_rec(ts2, stack1, out1));
    assert(spec_to_postfix_rec(ts2, stack1, out1) == spec_to_postfix_rec(e_toks, stack1, out2));
    assert(spec_to_postfix_rec(e_toks, stack1, out2) == Ok::<Seq<GToken>, ConvertError>(ps));
    assert(spec_to_postfix(ts) == Ok::<Seq<GToken>, ConvertError>(ps));
    // evaluation: two pushes, then the one binary application
    let ps1 = seq![GToken::Num(b), GToken::Op(o)];
    let ps2 = seq![GToken::Op(o)];
    assert(ps.drop_first() =~= ps1);
    assert(ps1.drop_first() =~= ps2);
    assert(ps2.drop_first() =~= Seq::<GToken>::empty());
    let st1 = seq![GExpr::Num(a)];
    assert(Seq::<GExpr>::empty().push(GExpr::Num(a)) =~= st1);
    let st2 = seq![GExpr::Num(a), GExpr::Num(b)];
    assert(st1.push(GExpr::Num(b)) =~= st2);
    assert(st2.last() == GExpr::Num(b));
    assert(st2.drop_last() =~= st1);
    let result = GExpr::Bin(o, Box::new(GExpr::Num(a)), Box::new(GExpr::Num(b)));
    assert(st2.drop_last().drop_last() =~= Seq::<GExpr>::empty());
    let st3 = seq![result];
    assert(st2.drop_last().drop_last().push(result) =~= st3);
    let e_exprs = Seq::<GExpr>::empty();
    assert(spec_evaluate_rec(ps, e_exprs) == spec_evaluate_rec(ps1, st1));
    assert(spec_evaluate_rec(ps1, st1) == spec_evaluate_rec(ps2, st2));
    assert(spec_evaluate_rec(ps2, st2) == spec_evaluate_rec(Seq::<GToken>::empty(), st3));
    assert(spec_evaluate_rec(Seq::<GToken>::empty(), st3) == Ok::<GExpr, EvalError>(result));
    assert(spec_evaluate(ps) == Ok::<GExpr, EvalError>(result));
}

/// A leading `+` or `-` before a number is a sign: the pipeline accepts
/// the input and yields the negated operand for `-`, and the operand
/// unchanged for `+`.
pub proof fn lemma_leading_sign(o: Op, b: Seq<char>)
    requires
        o == Op::Add || o == Op::Sub,
        crate::token::is_number_text(b),
    ensures
        spec_compute(seq![o.spec_symbol()] + b) == Ok::<GExpr, ComputeError>(
            if o == Op::Sub {
                GExpr::Neg(Box::new(GExpr::Num(b)))
            } else {
                GExpr::Num(b)
            },
        ),
{
    let c = o.spec_symbol();
    crate::ops::lemma_symbol_of_char(o);
    // lexing: the sign is emitted with nothing to flush, then the number
    let s = seq![c] + b;
    assert(s[0] == c);
    assert(s.drop_first() =~= b);
    assert(!is_digit(c));
    let acc1 = seq![GToken::Op(o)];
    assert(Seq::<GToken>::empty().push(GToken::Op(o)) =~= acc1);
    lemma_lex_number_end(b, acc1, LexState::Operator);
    let ts = seq![GToken::Op(o), GToken::Num(b)];
    assert(acc1.push(GToken::Num(b)) =~= ts);
    assert(spec_tokenize(s) == Ok::<Seq<GToken>, LexError>(ts));
    // conversion: the operator onto the empty stack, the number, drain
    let ts1 = seq![GToken::Num(b)];
    assert(ts.drop_first() =~= ts1);
    assert(ts1.drop_first() =~= Seq::<GToken>::empty());
    assert(split_ge(Seq::<Op>::empty(), o).0 =~= Seq::<GToken>::empty());
    assert(split_ge(Seq::<Op>::empty(), o).1 =~= Seq::<Op>::empty());
    assert(Seq::<GToken>::empty() + split_ge(Seq::<Op>::empty(), o).0 =~= Seq::<GToken>::empty());
    let stack1 = seq![o];
    assert(Seq::<Op>::empty().push(o) =~= stack1);
    let out1 = seq![GToken::Num(b)];
    assert(Seq::<GToken>::empty().push(GToken::Num(b)) =~= out1);
    assert(stack1.drop_last() =~= Seq::<Op>::empty());
    assert(drain_ops(Seq::<Op>::empty()) =~= Seq::<GToken>::empty());
    assert(drain_ops(stack1) =~= seq![GToken::Op(o)]);
    let ps = seq![GToken::Num(b), GToken::Op(o)];
    assert(out1 + drain_ops(stack1) =~= ps);
    let e_ops = Seq::<Op>::empty();
    let e_toks = Seq::<GToken>::empty();
    assert(spec_to_postfix_rec(ts, e_ops, e_toks) == spec_to_postfix_rec(ts1, stack1, e_toks));
    assert(spec_to_postfix_rec(ts1, stack1, e_toks) == spec_to_postfix_rec(e_toks, stack1, out1));
    assert(spec_to_postfix_rec(e_toks, stack1, out1) == Ok::<Seq<GToken>, ConvertError>(ps));
    assert(spec_to_postfix(ts) == Ok::<Seq<GToken>, ConvertError>(ps));
    // evaluation: one push, then the sign on the single stacked value
    let ps1 = seq![GToken::Op(o)];
    assert(ps.drop_first() =~= ps1);
    assert(ps1.drop_first() =~= Seq::<GToken>::empty());
    let st1 = seq![GExpr::Num(b)];
    assert(Seq::<GExpr>::empty().push(GExpr::Num(b)) =~= st1);
    assert(st1.last() == GExpr::Num(b));
    assert(st1.drop_last() =~= Seq::<GExpr>::empty());
    let signed = if o == Op::Sub {
        GExpr::Neg(Box::new(GExpr::Num(b)))
    } else {
        GExpr::Num(b)
    };
    let st2 = seq![signed];
    assert(st1.drop_last().push(signed) =~= st2);
    let e_exprs = Seq::<GExpr>::empty();
    assert(spec_evaluate_rec(ps, e_exprs) == spec_evaluate_rec(ps1, st1));
    assert(spec_evaluate_rec(ps1, st1) == spec_evaluate_rec(Seq::<GToken>::empty(), st2));
    assert(spec_evaluate_rec(Seq::<GToken>::empty(), st2) == Ok::<GExpr, EvalError>(signed));
    assert(spec_evaluate(ps) == Ok::<GExpr, EvalError>(signed));
}

/// In a three-operand expression whose first operator binds at least as
/// tightly as its second, the first application groups to the left: equal
/// precedence is left-associative for every operator, the power operator
/// included, and a tighter first operator binds its two operands first.
pub proof fn lemma_left_grouping(a: Seq<char>, o1: Op, b: Seq<char>, o2: Op, d: Seq<char>)
    requires
        crate::token::is_number_text(a),
        crate::token::is_number_text(b),
        crate::token::is_number_text(d),
        o1.spec_precedence() >= o2.spec_precedence(),
    ensures
        spec_compute(a + seq![o1.spec_symbol()] + b + seq![o2.spec_symbol()] + d) == Ok::<
            GExpr,
            ComputeError,
        >(
            GExpr::Bin(
                o2,
                Box::new(GExpr::Bin(o1, Box::new(GExpr::Num(a)), Box::new(GExpr::Num(b)))),
                Box::new(GExpr::Num(d)),
            ),
        ),
{
    let c1 = o1.spec_symbol();
    let c2 = o2.spec_symbol();
    crate::ops::lemma_symbol_of_char(o1);
    crate::ops::lemma_symbol_of_char(o2);
    let total = a + seq![c1] + b + seq![c2] + d;
    let ts = lemma_lex_three(a, o1, b, o2, d);
    // conversion: the second operator pops the first, which binds at
    // least as tightly, before taking its place on the stack
    let ts1 = seq![GToken::Op(o1), GToken::Num(b), GToken::Op(o2), GToken::Num(d)];
    let ts2 = seq![GToken::Num(b), GToken::Op(o2), GToken::Num(d)];
    let ts3 = seq![GToken::Op(o2), GToken::Num(d)];
    let ts4 = seq![GToken::Num(d)];
    assert(ts.drop_first() =~= ts1);
    assert(ts1.drop_first() =~= ts2);
    assert(ts2.drop_first() =~= ts3);
    assert(ts3.drop_first() =~= ts4);
    assert(ts4.drop_first() =~= Seq::<GToken>::empty());
    let e_ops = Seq::<Op>::empty();
    let e_toks = Seq::<GToken>::empty();
    let out1 = seq![GToken::Num(a)];
    assert(e_toks.push(GToken::Num(a)) =~= out1);
    let stack1 = seq![o1];
    assert(split_ge(e_ops, o1).0 =~= e_toks);
    assert(split_ge(e_ops, o1).1 =~= e_ops);
    assert(out1 + split_ge(e_ops, o1).0 =~= out1);
    assert(e_ops.push(o1) =~= stack1);
    let out2 = seq![GToken::Num(a), GToken::Num(b)];
    assert(out1.push(GToken::Num(b)) =~= out2);
    assert(stack1.drop_last() =~= e_ops);
    assert(stack1.last() == o1);
    assert(split_ge(e_ops, o2).0 =~= e_toks);
    assert(split_ge(e_ops, o2).1 =~= e_ops);
    assert(seq![GToken::Op(o1)] + e_toks =~= seq![GToken::Op(o1)]);
    assert(split_ge(stack1, o2).0 =~= seq![GToken::Op(o1)]);
    assert(split_ge(stack1, o2).1 =~= e_ops);
    let out3 = seq![GToken::Num(a), GToken::Num(b), GToken::Op(o1)];
    assert(out2 + split_ge(stack1, o2).0 =~= out3);
    let stack2 = seq![o2];
    assert(e_ops.push(o2) =~= stack2);
    let out4 = seq![GToken::Num(a), GToken::Num(b), GToken::Op(o1), GToken::Num(d)];
    assert(out3.push(GToken::Num(d)) =~= out4);
    assert(stack2.drop_last() =~= e_ops);
    assert(drain_ops(e_ops) =~= e_toks);
    assert(drain_ops(stack2) =~= seq![GToken::Op(o2)]);
    let ps = seq![
        GToken::Num(a),
        GToken::Num(b),
        GToken::Op(o1),
        GToken::Num(d),
        GToken::Op(o2),
    ];
    assert(out4 + drain_ops(stack2) =~= ps);
    assert(spec_to_postfix_rec(ts, e_ops, e_toks) == spec_to_postfix_rec(ts1, e_ops, out1));
    assert(spec_to_postfix_rec(ts1, e_ops, out1) == spec_to_postfix_rec(ts2, stack1, out1));
    assert(spec_to_postfix_rec(ts2, stack1, out1) == spec_to_postfix_rec(ts3, stack1, out2));
    assert(spec_to_postfix_rec(ts3, stack1, out2) == spec_to_postfix_rec(ts4, stack2, out3));
    assert(spec_to_postfix_rec(ts4, stack2, out3) == spec_to_postfix_rec(e_toks, stack2, out4));
    assert(spec_to_postfix_rec(e_toks, stack2, out4) == Ok::<Seq<GToken>, ConvertError>(ps));
    assert(spec_to_postfix(ts) == Ok::<Seq<GToken>, ConvertError>(ps));
    // evaluation: the first application happens as soon as its operator
    // arrives, so it takes the two leftmost operands
    let ps1 = seq![GToken::Num(b), GToken::Op(o1), GToken::Num(d), GToken::Op(o2)];
    let ps2 = seq![GToken::Op(o1), GToken::Num(d), GToken::Op(o2)];
    let ps3 = seq![GToken::Num(d), GToken::Op(o2)];
    let ps4 = seq![GToken::Op(o2)];
    assert(ps.drop_first() =~= ps1);
    assert(ps1.drop_first() =~= ps2);
    assert(ps2.drop_first() =~= ps3);
    assert(ps3.drop_first() =~= ps4);
    assert(ps4.drop_first() =~= Seq::<GToken>::empty());
    let e_exprs = Seq::<GExpr>::empty();
    let st1 = seq![GExpr::Num(a)];
    assert(e_exprs.push(GExpr::Num(a)) =~= st1);
    let st2 = seq![GExpr::Num(a), GExpr::Num(b)];
    assert(st1.push(GExpr::Num(b)) =~= st2);
    assert(st2.last() == GExpr::Num(b));
    assert(st2.drop_last() =~= st1);
    assert(st1.last() == GExpr::Num(a));
    let first = GExpr::Bin(o1, Box::new(GExpr::Num(a)), Box::new(GExpr::Num(b)));
    assert(st2.drop_last().drop_last() =~= e_exprs);
    let st3 = seq![first];
    assert(st2.drop_last().drop_last().push(first) =~= st3);
    let st4 = seq![first, GExpr::Num(d)];
    assert(st3.push(GExpr::Num(d)) =~= st4);
    assert(st4.last() == GExpr::Num(d));
    assert(st4.drop_last() =~= st3);
    assert(st3.last() == first);
    let result = GExpr::Bin(o2, Box::new(first), Box::new(GExpr::Num(d)));
    assert(st4.drop_last().drop_last() =~= e_exprs);
    let st5 = seq![result];
    assert(st4.drop_last().drop_last().push(result) =~= st5);
    assert(spec_evaluate_rec(ps, e_exprs) == spec_evaluate_rec(ps1, st1));
    assert(spec_evaluate_rec(ps1, st1) == spec_evaluate_rec(ps2, st2));
    assert(spec_evaluate_rec(ps2, st2) == spec_evaluate_rec(ps3, st3));
    assert(spec_evaluate_rec(ps3, st3) == spec_evaluate_rec(ps4, st4));
    assert(spec_evaluate_rec(ps4, st4) == spec_evaluate_rec(Seq::<GToken>::empty(), st5));
    assert(spec_evaluate_rec(Seq::<GToken>::empty(), st5) == Ok::<GExpr, EvalError>(result));
    assert(spec_evaluate(ps) == Ok::<GExpr, EvalError>(result));
}

/// In a three-operand expression whose second operator binds strictly
/// tighter than its first, the second application groups to the right:
/// the tighter operator takes the two rightmost operands.
pub proof fn lemma_right_grouping(a: Seq<char>, o1: Op, b: Seq<char>, o2: Op, d: Seq<char>)
    requires
        crate::token::is_number_text(a),
        crate::token::is_number_text(b),
        crate::token::is_number_text(d),
        o1.spec_precedence() < o2.spec_precedence(),
    ensures
        spec_compute(a + seq![o1.spec_symbol()] + b + seq![o2.spec_symbol()] + d) == Ok::<
            GExpr,
            ComputeError,
        >(
            GExpr::Bin(
                o1,
                Box::new(GExpr::Num(a)),
                Box::new(GExpr::Bin(o2, Box::new(GExpr::Num(b)), Box::new(GExpr::Num(d)))),
            ),
        ),
{
    let c1 = o1.spec_symbol();
    let c2 = o2.spec_symbol();
    crate::ops::lemma_symbol_of_char(o1);
    crate::ops::lemma_symbol_of_char(o2);
    let ts = lemma_lex_three(a, o1, b, o2, d);
    // conversion: the second operator binds tighter, so it stacks above
    // the first, and the drain emits it first
    let ts1 = seq![GToken::Op(o1), GToken::Num(b), GToken::Op(o2), GToken::Num(d)];
    let ts2 = seq![GToken::Num(b), GToken::Op(o2), GToken::Num(d)];
    let ts3 = seq![GToken::Op(o2), GToken::Num(d)];
    let ts4 = seq![GToken::Num(d)];
    assert(ts.drop_first() =~= ts1);
    assert(ts1.drop_first() =~= ts2);
    assert(ts2.drop_first() =~= ts3);
    assert(ts3.drop_first() =~= ts4);
    assert(ts4.drop_first() =~= Seq::<GToken>::empty());
    let e_ops = Seq::<Op>::empty();
    let e_toks = Seq::<GToken>::empty();
    let out1 = seq![GToken::Num(a)];
    assert(e_toks.push(GToken::Num(a)) =~= out1);
    let stack1 = seq![o1];
    assert(split_ge(e_ops, o1).0 =~= e_toks);
    assert(split_ge(e_ops, o1).1 =~= e_ops);
    assert(out1 + split_ge(e_ops, o1).0 =~= out1);
    assert(e_ops.push(o1) =~= stack1);
    let out2 = seq![GToken::Num(a), GToken::Num(b)];
    assert(out1.push(GToken::Num(b)) =~= out2);
    assert(stack1.last() == o1);
    assert(split_ge(stack1, o2).0 =~= e_toks);
    assert(split_ge(stack1, o2).1 =~= stack1);
    assert(out2 + split_ge(stack1, o2).0 =~= out2);
    let stack2 = seq![o1, o2];
    assert(stack1.push(o2) =~= stack2);
    let out3 = seq![GToken::Num(a), GToken::Num(b), GToken::Num(d)];
    assert(out2.push(GToken::Num(d)) =~= out3);
    assert(stack2.last() == o2);
    assert(stack2.drop_last() =~= stack1);
    assert(stack1.drop_last() =~= e_ops);
    assert(drain_ops(e_ops) =~= e_toks);
    assert(drain_ops(stack1) =~= seq![GToken::Op(o1)]);
    assert(drain_ops(stack2) =~= seq![GToken::Op(o2), GToken::Op(o1)]);
    let ps = seq![
        GToken::Num(a),
        GToken::Num(b),
        GToken::Num(d),
        GToken::Op(o2),
        GToken::Op(o1),
    ];
    assert(out3 + drain_ops(stack2) =~= ps);
    assert(spec_to_postfix_rec(ts, e_ops, e_toks) == spec_to_postfix_rec(ts1, e_ops, out1));
    assert(spec_to_postfix_rec(ts1, e_ops, out1) == spec_to_postfix_rec(ts2, stack1, out1));
    assert(spec_to_postfix_rec(ts2, stack1, out1) == spec_to_postfix_rec(ts3, stack1, out2));
    assert(spec_to_postfix_rec(ts3, stack1, out2) == spec_to_postfix_rec(ts4, stack2, out2));
    assert(spec_to_postfix_rec(ts4, stack2, out2) == spec_to_postfix_rec(e_toks, stack2, out3));
    assert(spec_to_postfix_rec(e_toks, stack2, out3) == Ok::<Seq<GToken>, ConvertError>(ps));
    assert(spec_to_postfix(ts) == Ok::<Seq<GToken>, ConvertError>(ps));
    // evaluation: three pushes, then the tight application on the two
    // rightmost operands, then the loose one
    let ps1 = seq![GToken::Num(b), GToken::Num(d), GToken::Op(o2), GToken::Op(o1)];
    let ps2 = seq![GToken::Num(d), GToken::Op(o2), GToken::Op(o1)];
    let ps3 = seq![GToken::Op(o2), GToken::Op(o1)];
    let ps4 = seq![GToken::Op(o1)];
    assert(ps.drop_first() =~= ps1);
    assert(ps1.drop_first() =~= ps2);
    assert(ps2.drop_first() =~= ps3);
    assert(ps3.drop_first() =~= ps4);
    assert(ps4.drop_first() =~= Seq::<GToken>::empty());
    let e_exprs = Seq::<GExpr>::empty();
    let st1 = seq![GExpr::Num(a)];
    assert(e_exprs.push(GExpr::Num(a)) =~= st1);
    let st2 = seq![GExpr::Num(a), GExpr::Num(b)];
    assert(st1.push(GExpr::Num(b)) =~= st2);
    let st3 = seq![GExpr::Num(a), GExpr::Num(b), GExpr::Num(d)];
    assert(st2.push(GExpr::Num(d)) =~= st3);
    // the tighter operator never acts as a sign: its precedence exceeds
    // the first operator's, so it is not + or -, and three values stand
    assert(st3.len() == 3);
    assert(st3.last() == GExpr::Num(d));
    assert(st3.drop_last() =~= st2);
    assert(st2.last() == GExpr::Num(b));
    let inner = GExpr::Bin(o2, Box::new(GExpr::Num(b)), Box::new(GExpr::Num(d)));
    assert(st3.drop_last().drop_last() =~= st1);
    let st4 = seq![GExpr::Num(a), inner];
    assert(st3.drop_last().drop_last().push(inner) =~= st4);
    assert(st4.last() == inner);
    assert(st4.drop_last() =~= st1);
    assert(st1.last() == GExpr::Num(a));
    let result = GExpr::Bin(o1, Box::new(GExpr::Num(a)), Box::new(inner));
    assert(st4.drop_last().drop_last() =~= e_exprs);
    let st5 = seq![result];
    assert(st4.drop_last().drop_last().push(result) =~= st5);
    assert(spec_evaluate_rec(ps, e_exprs) == spec_evaluate_rec(ps1, st1));
    assert(spec_evaluate_rec(ps1, st1) == spec_evaluate_rec(ps2, st2));
    assert(spec_evaluate_rec(ps2, st2) == spec_evaluate_rec(ps3, st3));
    assert(spec_evaluate_rec(ps3, st3) == spec_evaluate_rec(ps4, st4));
    assert(spec_evaluate_rec(ps4, st4) == spec_evaluate_rec(Seq::<GToken>::empty(), st5));
    assert(spec_evaluate_rec(Seq::<GToken>::empty(), st5) == Ok::<GExpr, EvalError>(result));
    assert(spec_evaluate(ps) == Ok::<GExpr, EvalError>(result));
}

/// Lexes a three-operand expression into its five tokens.
proof fn lemma_lex_three(a: Seq<char>, o1: Op, b: Seq<char>, o2: Op, d: Seq<char>) -> (ts: Seq<
    GToken,
>)
    requires
        crate::token::is_number_text(a),
        crate::token::is_number_text(b),
        crate::token::is_number_text(d),
    ensures
        ts == seq![GToken::Num(a), GToken::Op(o1), GToken::Num(b), GToken::Op(o2), GToken::Num(d)],
        spec_tokenize(a + seq![o1.spec_symbol()] + b + seq![o2.spec_symbol()] + d) == Ok::<
            Seq<GToken>,
            LexError,
        >(ts),
{
    let c1 = o1.spec_symbol();
    let c2 = o2.spec_symbol();
    crate::ops::lemma_symbol_of_char(o1);
    crate::ops::lemma_symbol_of_char(o2);
    let total = a + seq![c1] + b + seq![c2] + d;
    let suffix1 = b + seq![c2] + d;
    assert(a + seq![c1] + suffix1 =~= total);
    lemma_lex_number_then_op(a, c1, suffix1, Seq::empty(), LexState::Empty);
    let acc1 = Seq::<GToken>::empty().push(GToken::Num(a)).push(GToken::Op(o1));
    lemma_lex_number_then_op(b, c2, d, acc1, LexState::Operator);
    let acc2 = acc1.push(GToken::Num(b)).push(GToken::Op(o2));
    lemma_lex_number_end(d, acc2, LexState::Operator);
    let ts = seq![GToken::Num(a), GToken::Op(o1), GToken::Num(b), GToken::Op(o2), GToken::Num(d)];
    assert(acc2.push(GToken::Num(d)) =~= ts);
    ts
}

/// The stack discipline of `spec_evaluate_rec` run partway: what the
/// value stack holds after the given tokens, with no end-of-input check,
/// or nothing where a token is rejected or the stack underflows.
spec fn eval_steps(ts: Seq<GToken>, stack: Seq<GExpr>) -> Option<Seq<GExpr>>
    decreases ts.len(),
{
    if ts.len() == 0 {
        Some(stack)
    } else {
        match ts[0] {
            GToken::Num(s) => if crate::token::is_number_text(s) {
                eval_steps(ts.drop_first(), stack.push(GExpr::Num(s)))
            } else {
                None
            },
            GToken::Op(o) => if (o == Op::Add || o == Op::Sub) && stack.len() < 2 {
                if stack.len() == 0 {
                    None
                } else {
                    let v = stack.last();
                    let signed = if o == Op::Sub {
                        GExpr::Neg(Box::new(v))
                    } else {
                        v
                    };
                    eval_steps(ts.drop_first(), stack.drop_last().push(signed))
                }
            } else if stack.len() < 2 {
                None
            } else {
                let right = stack.last();
                let left = stack.drop_last().last();
                eval_steps(
                    ts.drop_first(),
                    stack.drop_last().drop_last().push(
                        GExpr::Bin(o, Box::new(left), Box::new(right)),
                    ),
                )
            },
        }
    }
}

/// A full evaluation runs through any successful partial run: after the
/// prefix the discipline continues from the stack the prefix left.
proof fn lemma_eval_steps_prefix(a: Seq<GToken>, b: Seq<GToken>, st: Seq<GExpr>, st2: Seq<GExpr>)
    requires
        eval_steps(a, st) == Some(st2),
    ensures
        spec_evaluate_rec(a + b, st) == spec_evaluate_rec(b, st2),
    decreases a.len(),
{
    if a.len() == 0 {
        assert(a + b =~= b);
    } else {
        assert((a + b)[0] == a[0]);
        assert((a + b).drop_first() =~= a.drop_first() + b);
        match a[0] {
            GToken::Num(s) => {
                lemma_eval_steps_prefix(a.drop_first(), b, st.push(GExpr::Num(s)), st2);
            },
            GToken::Op(o) => {
                if (o == Op::Add || o == Op::Sub) && st.len() < 2 {
                    let signed = if o == Op::Sub {
                        GExpr::Neg(Box::new(st.last()))
                    } else {
                        st.last()
                    };
                    lemma_eval_steps_prefix(a.drop_first(), b, st.drop_last().push(signed), st2);
                } else {
                    let applied = GExpr::Bin(
                        o,
                        Box::new(st.drop_last().last()),
                        Box::new(st.last()),
                    );
                    lemma_eval_steps_prefix(
                        a.drop_first(),
                        b,
                        st.drop_last().drop_last().push(applied),
                        st2,
                    );
                }
            },
        }
    }
}

/// Partial runs compose: a successful run of the prefix continues into
/// the rest.
proof fn lemma_eval_steps_append(a: Seq<GToken>, b: Seq<GToken>, st: Seq<GExpr>, st2: Seq<GExpr>)
    requires
        eval_steps(a, st) == Some(st2),
    ensures
        eval_steps(a + b, st) == eval_steps(b, st2),
    decreases a.len(),
{
    if a.len() == 0 {
        assert(a + b =~= b);
    } else {
        assert((a + b)[0] == a[0]);
        assert((a + b).drop_first() =~= a.drop_first() + b);
        match a[0] {
            GToken::Num(s) => {
                lemma_eval_steps_append(a.drop_first(), b, st.push(GExpr::Num(s)), st2);
            },
            GToken::Op(o) => {
                if (o == Op::Add || o == Op::Sub) && st.len() < 2 {
                    let signed = if o == Op::Sub {
                        GExpr::Neg(Box::new(st.last()))
                    } else {
                        st.last()
                    };
                    lemma_eval_steps_append(a.drop_first(), b, st.drop_last().push(signed), st2);
                } else {
                    let applied = GExpr::Bin(
                        o,
                        Box::new(st.drop_last().last()),
                        Box::new(st.last()),
                    );
                    lemma_eval_steps_append(
                        a.drop_first(),
                        b,
                        st.drop_last().drop_last().push(applied),
                        st2,
                    );
                }
            },
        }
    }
}

/// Draining the operator stack applies one binary operator per stacked
/// operator: a value stack deep enough never underflows, and shrinks by
/// exactly the number of operators drained.
proof fn lemma_eval_drain(stack: Seq<Op>, v: Seq<GExpr>) -> (v2: Seq<GExpr>)
    requires
        v.len() >= stack.len() + 1,
    ensures
        eval_steps(drain_ops(stack), v) == Some(v2),
        v2.len() == v.len() - stack.len(),
    decreases stack.len(),
{
    if stack.len() == 0 {
        v
    } else {
        let o = stack.last();
        let applied = GExpr::Bin(o, Box::new(v.drop_last().last()), Box::new(v.last()));
        let v1 = v.drop_last().drop_last().push(applied);
        assert(drain_ops(stack)[0] == GToken::Op(o));
        assert(drain_ops(stack).drop_first() =~= drain_ops(stack.drop_last()));
        lemma_eval_drain(stack.drop_last(), v1)
    }
}

/// The operators an incoming operator pops are applied the same way: a
/// value stack deep enough never underflows, and shrinks by exactly the
/// number of operators popped.
proof fn lemma_eval_split(stack: Seq<Op>, o: Op, v: Seq<GExpr>) -> (v2: Seq<GExpr>)
    requires
        v.len() >= stack.len() + 1,
    ensures
        eval_steps(split_ge(stack, o).0, v) == Some(v2),
        split_ge(stack, o).1.len() <= stack.len(),
        v2.len() == v.len() - (stack.len() - split_ge(stack, o).1.len()),
    decreases stack.len(),
{
    if stack.len() == 0 || stack.last().spec_precedence() < o.spec_precedence() {
        assert(split_ge(stack, o).0 =~= Seq::<GToken>::empty());
        v
    } else {
        let top = stack.last();
        let applied = GExpr::Bin(top, Box::new(v.drop_last().last()), Box::new(v.last()));
        let v1 = v.drop_last().drop_last().push(applied);
        assert(split_ge(stack, o).0[0] == GToken::Op(top));
        assert(split_ge(stack, o).0.drop_first() =~= split_ge(stack.drop_last(), o).0);
        assert(split_ge(stack, o).1 == split_ge(stack.drop_last(), o).1);
        lemma_eval_split(stack.drop_last(), o, v1)
    }
}

/// Through the stack discipline, a stack of well-formed trees only ever
/// grows by well-formed trees: pushed numbers pass the grammar check, and
/// signs and applications build from stacked values.
proof fn lemma_evaluate_rec_wf(rest: Seq<GToken>, stack: Seq<GExpr>, e: GExpr)
    requires
        spec_evaluate_rec(rest, stack) == Ok::<GExpr, EvalError>(e),
        forall|i: int| 0 <= i < stack.len() ==> wf_gexpr(#[trigger] stack[i]),
    ensures
        wf_gexpr(e),
    decreases rest.len(),
{
    if rest.len() == 0 {
        assert(wf_gexpr(stack[0]));
    } else {
        match rest[0] {
            GToken::Num(s) => {
                let stack2 = stack.push(GExpr::Num(s));
                assert(forall|i: int| 0 <= i < stack2.len() ==> wf_gexpr(#[trigger] stack2[i]));
                lemma_evaluate_rec_wf(rest.drop_first(), stack2, e);
            },
            GToken::Op(o) => {
                if (o == Op::Add || o == Op::Sub) && stack.len() < 2 {
                    let v = stack.last();
                    let signed = if o == Op::Sub {
                        GExpr::Neg(Box::new(v))
                    } else {
                        v
                    };
                    let stack2 = stack.drop_last().push(signed);
                    assert(wf_gexpr(v));
                    assert(forall|i: int| 0 <= i < stack2.len() ==> wf_gexpr(
                        #[trigger] stack2[i],
                    ));
                    lemma_evaluate_rec_wf(rest.drop_first(), stack2, e);
                } else {
                    let right = stack.last();
                    let left = stack.drop_last().last();
                    assert(wf_gexpr(right));
                    assert(wf_gexpr(left));
                    let stack2 = stack.drop_last().drop_last().push(
                        GExpr::Bin(o, Box::new(left), Box::new(right)),
                    );
                    assert(forall|i: int| 0 <= i < stack2.len() ==> wf_gexpr(
                        #[trigger] stack2[i],
                    ));
                    lemma_evaluate_rec_wf(rest.drop_first(), stack2, e);
                }
            },
        }
    }
}

/// Every tree the pipeline yields is reducible: each of its number texts
/// lies within the number grammar, so a reduction pass over the tree can
/// read every leaf as a number.
pub proof fn lemma_compute_yields_wf(s: Seq<char>, e: GExpr)
    requires
        spec_compute(s) == Ok::<GExpr, ComputeError>(e),
    ensures
        wf_gexpr(e),
{
    let ts = spec_tokenize(s).unwrap();
    let ps = spec_to_postfix(ts).unwrap();
    lemma_evaluate_rec_wf(ps, Seq::empty(), e);
}

/// The text of an alternating expression: each leading operand followed
/// by its operator's symbol, then the final operand.
pub open spec fn flatten_expr(pairs: Seq<(Seq<char>, Op)>, last: Seq<char>) -> Seq<char>
    decreases pairs.len(),
{
    if pairs.len() == 0 {
        last
    } else {
        pairs[0].0 + seq![pairs[0].1.spec_symbol()] + flatten_expr(pairs.drop_first(), last)
    }
}

/// The token sequence of an alternating expression.
pub open spec fn alt_tokens(pairs: Seq<(Seq<char>, Op)>, last: Seq<char>) -> Seq<GToken>
    decreases pairs.len(),
{
    if pairs.len() == 0 {
        seq![GToken::Num(last)]
    } else {
        seq![GToken::Num(pairs[0].0), GToken::Op(pairs[0].1)] + alt_tokens(
            pairs.drop_first(),
            last,
        )
    }
}

/// Every leading operand of the alternating expression lies within the
/// number grammar.
pub open spec fn pairs_valid(pairs: Seq<(Seq<char>, Op)>) -> bool {
    forall|i: int| 0 <= i < pairs.len() ==> crate::token::is_number_text(#[trigger] pairs[i].0)
}

/// Lexing an alternating expression yields its tokens, whatever stands
/// accumulated already.
proof fn lemma_lex_alternating(
    pairs: Seq<(Seq<char>, Op)>,
    last: Seq<char>,
    acc: Seq<GToken>,
    s0: LexState,
)
    requires
        pairs_valid(pairs),
        crate::token::is_number_text(last),
        s0 == LexState::Empty || s0 == LexState::Operator,
    ensures
        spec_tokenize_rec(flatten_expr(pairs, last), s0, Seq::empty(), acc) == Ok::<
            Seq<GToken>,
            LexError,
        >(acc + alt_tokens(pairs, last)),
    decreases pairs.len(),
{
    if pairs.len() == 0 {
        lemma_lex_number_end(last, acc, s0);
        assert(acc + alt_tokens(pairs, last) =~= acc.push(GToken::Num(last)));
    } else {
        let num = pairs[0].0;
        let o = pairs[0].1;
        let c = o.spec_symbol();
        crate::ops::lemma_symbol_of_char(o);
        assert(crate::token::is_number_text(num));
        let rest_flat = flatten_expr(pairs.drop_first(), last);
        lemma_lex_number_then_op(num, c, rest_flat, acc, s0);
        let acc2 = acc.push(GToken::Num(num)).push(GToken::Op(o));
        assert(pairs_valid(pairs.drop_first())) by {
            assert(forall|i: int| 0 <= i < pairs.drop_first().len() ==> #[trigger] pairs.drop_first()[i] == pairs[i + 1]);
        }
        lemma_lex_alternating(pairs.drop_first(), last, acc2, LexState::Operator);
        assert(acc2 + alt_tokens(pairs.drop_first(), last) =~= acc + alt_tokens(pairs, last));
    }
}

/// Through the conversion of an alternating expression, the tokens
/// already written out always evaluate to one more stacked value than
/// there are stacked operators just before each operand, so conversion
/// and evaluation both run to completion.
proof fn lemma_convert_eval_alternating(
    pairs: Seq<(Seq<char>, Op)>,
    last: Seq<char>,
    s: Seq<Op>,
    out: Seq<GToken>,
    v: Seq<GExpr>,
)
    requires
        pairs_valid(pairs),
        crate::token::is_number_text(last),
        eval_steps(out, Seq::empty()) == Some(v),
        v.len() == s.len(),
    ensures
        spec_to_postfix_rec(alt_tokens(pairs, last), s, out) is Ok,
        spec_evaluate(spec_to_postfix_rec(alt_tokens(pairs, last), s, out).unwrap()) is Ok,
    decreases pairs.len(),
{
    let toks = alt_tokens(pairs, last);
    if pairs.len() == 0 {
        // the final operand joins the output, then the stack drains
        let out1 = out.push(GToken::Num(last));
        assert(toks[0] == GToken::Num(last));
        assert(toks.drop_first() =~= Seq::<GToken>::empty());
        let finished = out1 + drain_ops(s);
        assert(spec_to_postfix_rec(toks, s, out) == spec_to_postfix_rec(
            Seq::<GToken>::empty(),
            s,
            out1,
        ));
        assert(spec_to_postfix_rec(toks, s, out) == Ok::<Seq<GToken>, ConvertError>(finished));
        assert(out1 =~= out + seq![GToken::Num(last)]);
        let single = seq![GToken::Num(last)];
        assert(single.drop_first() =~= Seq::<GToken>::empty());
        let v1 = v.push(GExpr::Num(last));
        assert(eval_steps(Seq::<GToken>::empty(), v1) == Some(v1));
        assert(eval_steps(single, v) == Some(v1));
        lemma_eval_steps_append(out, single, Seq::empty(), v);
        assert(eval_steps(out1, Seq::empty()) == Some(v1));
        let v2 = lemma_eval_drain(s, v1);
        lemma_eval_steps_prefix(out1, drain_ops(s), Seq::empty(), v1);
        lemma_eval_steps_prefix(drain_ops(s), Seq::<GToken>::empty(), v1, v2);
        assert(drain_ops(s) + Seq::<GToken>::empty() =~= drain_ops(s));
        assert(v2.len() == 1);
        assert(spec_evaluate_rec(Seq::<GToken>::empty(), v2) == Ok::<GExpr, EvalError>(v2[0]));
        assert(spec_evaluate(finished) == Ok::<GExpr, EvalError>(v2[0]));
    } else {
        // the operand joins the output; its operator pops what binds at
        // least as tightly, which applies cleanly to the values so far
        let num = pairs[0].0;
        let o = pairs[0].1;
        assert(crate::token::is_number_text(num));
        assert(toks[0] == GToken::Num(num));
        let mid = seq![GToken::Op(o)] + alt_tokens(pairs.drop_first(), last);
        assert(toks.drop_first() =~= mid);
        assert(mid[0] == GToken::Op(o));
        assert(mid.drop_first() =~= alt_tokens(pairs.drop_first(), last));
        let out1 = out.push(GToken::Num(num));
        let sp = split_ge(s, o);
        let out2 = out1 + sp.0;
        let s2 = sp.1.push(o);
        assert(spec_to_postfix_rec(toks, s, out) == spec_to_postfix_rec(mid, s, out1));
        assert(spec_to_postfix_rec(mid, s, out1) == spec_to_postfix_rec(
            alt_tokens(pairs.drop_first(), last),
            s2,
            out2,
        ));
        // the values written out so far follow the same pops
        let single = seq![GToken::Num(num)];
        assert(single.drop_first() =~= Seq::<GToken>::empty());
        let v1 = v.push(GExpr::Num(num));
        assert(eval_steps(Seq::<GToken>::empty(), v1) == Some(v1));
        assert(eval_steps(single, v) == Some(v1));
        lemma_eval_steps_append(out, single, Seq::empty(), v);
        assert(out1 =~= out + single);
        assert(eval_steps(out1, Seq::empty()) == Some(v1));
        let v2 = lemma_eval_split(s, o, v1);
        lemma_eval_steps_append(out1, sp.0, Seq::empty(), v1);
        assert(eval_steps(out2, Seq::empty()) == Some(v2));
        assert(v2.len() == s2.len());
        assert(pairs_valid(pairs.drop_first())) by {
            assert(forall|i: int| 0 <= i < pairs.drop_first().len() ==> #[trigger] pairs.drop_first()[i] == pairs[i + 1]);
        }
        lemma_convert_eval_alternating(pairs.drop_first(), last, s2, out2, v2);
    }
}

/// Success is owed on every well-formed expression: numbers of the
/// grammar alternating with operators, ending in a number, always lex,
/// convert and evaluate; the pipeline yields a tree for them all.
pub proof fn lemma_alternating_expression_computes(pairs: Seq<(Seq<char>, Op)>, last: Seq<char>)
    requires
        pairs_valid(pairs),
        crate::token::is_number_text(last),
    ensures
        spec_compute(flatten_expr(pairs, last)) is Ok,
{
    lemma_lex_alternating(pairs, last, Seq::empty(), LexState::Empty);
    let toks = alt_tokens(pairs, last);
    assert(Seq::<GToken>::empty() + toks =~= toks);
    assert(spec_tokenize(flatten_expr(pairs, last)) == Ok::<Seq<GToken>, LexError>(toks));
    assert(eval_steps(Seq::<GToken>::empty(), Seq::<GExpr>::empty()) == Some(
        Seq::<GExpr>::empty(),
    ));
    lemma_convert_eval_alternating(
        pairs,
        last,
        Seq::empty(),
        Seq::empty(),
        Seq::empty(),
    );
}

/// The pipeline carries no state between calls: its result is a function
/// of the input characters alone. `compute` pins its result to
/// `spec_compute` of its input's view, so any two calls on equal strings
/// return equal results.
pub proof fn lemma_compute_deterministic(
    s1: Seq<char>,
    s2: Seq<char>,
    r1: Result<GExpr, ComputeError>,
    r2: Result<GExpr, ComputeError>,
)
    requires
        s1 == s2,
        r1 == spec_compute(s1),
        r2 == spec_compute(s2),
    ensures
        r1 == r2,
{
}

} // verus!
