use vstd::prelude::*;
use crate::ops::Op;

verus! {

/// A lexical unit of an expression: a number literal, kept as the text the
/// lexer accumulated for it, or one of the five operator symbols.
#[derive(Debug)]
pub enum Token {
    Number(String),
    Operator(Op),
}

/// The mathematical shape of a token: the number's character sequence, or
/// the operator. Contracts throughout the crate speak of this form.
pub enum GToken {
    Num(Seq<char>),
    Op(Op),
}

impl View for Token {
    type V = GToken;

    open spec fn view(&self) -> GToken {
        match self {
            Token::Number(s) => GToken::Num(s@),
            Token::Operator(o) => GToken::Op(*o),
        }
    }
}

impl DeepView for Token {
    type V = GToken;

    open spec fn deep_view(&self) -> GToken {
        self.view()
    }
}

/// Relies on String::push: appends a single character at the end.
#[verifier::external_body]
pub(crate) fn push_char(s: &mut String, c: char)
    ensures
        final(s)@ == old(s)@.push(c),
{
    s.push(c);
}

/// Whether a character is a decimal digit.
pub open spec fn is_digit(c: char) -> bool {
    '0' <= c && c <= '9'
}

/// Executable decimal-digit test.
pub fn digit(c: char) -> (b: bool)
    ensures
        b == is_digit(c),
{
    '0' <= c && c <= '9'
}

/// Every character of the sequence is a decimal digit.
pub open spec fn all_digits(s: Seq<char>) -> bool {
    forall|i: int| 0 <= i < s.len() ==> is_digit(#[trigger] s[i])
}

/// The texts the number grammar accepts: one or more digits, optionally
/// followed by a decimal point and any number (possibly zero) of further
/// digits. This is exactly the shape the lexer can accumulate for a number.
pub open spec fn is_number_text(s: Seq<char>) -> bool {
    s.len() > 0 && (all_digits(s) || (exists|k: int|
        1 <= k < s.len() && #[trigger] s[k] == '.' && all_digits(s.subrange(0, k)) && all_digits(
            s.subrange(k + 1, s.len() as int),
        )))
}

/// Executable test for `is_number_text`: scans the text once, allowing
/// digits everywhere and at most one decimal point, not in first position.
pub fn is_number_token(s: &str) -> (b: bool)
    ensures
        b == is_number_text(s@),
{
    let n = s.unicode_len();
    if n == 0 {
        return false;
    }
    let mut i: usize = 0;
    let mut dot: Option<usize> = None;
    while i < n
        invariant
            n == s@.len(),
            0 <= i <= n,
            match dot {
                None => all_digits(s@.subrange(0, i as int)),
                Some(k) => 1 <= k < i && s@[k as int] == '.' && all_digits(
                    s@.subrange(0, k as int),
                ) && all_digits(s@.subrange(k as int + 1, i as int)),
            },
        decreases n - i,
    {
        let c = s.get_char(i);
        if digit(c) {
            proof {
                match dot {
                    None => {
                        assert(s@.subrange(0, i as int + 1) =~= s@.subrange(0, i as int).push(c));
                    },
                    Some(k) => {
                        assert(s@.subrange(k as int + 1, i as int + 1) =~= s@.subrange(
                            k as int + 1,
                            i as int,
                        ).push(c));
                    },
                }
            }
        } else if c == '.' && i > 0 && dot.is_none() {
            proof {
                assert(s@.subrange(i as int + 1, i as int + 1) =~= Seq::<char>::empty());
            }
            dot = Some(i);
        } else {
            proof {
                lemma_scan_reject(s@, i as int, dot);
            }
            return false;
        }
        i = i + 1;
    }
    proof {
        if dot is None {
            assert(s@.subrange(0, n as int) =~= s@);
        }
    }
    true
}

/// A scan that stops at position `i` on a character that is neither a digit
/// nor an acceptable decimal point has found a text outside the grammar.
proof fn lemma_scan_reject(s: Seq<char>, i: int, dot: Option<usize>)
    requires
        0 <= i < s.len(),
        !is_digit(s[i]),
        match dot {
            None => all_digits(s.subrange(0, i)) && !(s[i] == '.' && i > 0),
            Some(k) => 1 <= k < i && s[k as int] == '.' && all_digits(s.subrange(0, k as int))
                && all_digits(s.subrange(k as int + 1, i)),
        },
    ensures
        !is_number_text(s),
{
    assert(!all_digits(s)) by {
        assert(!is_digit(s[i]));
    }
    assert forall|k: int|
        1 <= k < s.len() && #[trigger] s[k] == '.' implies !(all_digits(s.subrange(0, k))
        && all_digits(s.subrange(k + 1, s.len() as int))) by {
        match dot {
            None => {
                if s[i] == '.' {
                    // then i == 0, so any dot position k >= 1 leaves the
                    // leading dot inside one of the two digit runs
                    if k > i {
                        assert(s.subrange(0, k)[i] == s[i]);
                        assert(!all_digits(s.subrange(0, k)));
                    }
                } else {
                    // the offending character is no digit and no dot
                    if k < i {
                        assert(s.subrange(k + 1, s.len() as int)[i - k - 1] == s[i]);
                        assert(!all_digits(s.subrange(k + 1, s.len() as int)));
                    } else if k == i {
                        assert(false);
                    } else {
                        assert(s.subrange(0, k)[i] == s[i]);
                        assert(!all_digits(s.subrange(0, k)));
                    }
                }
            },
            Some(d) => {
                // a dot was already seen at position d < i; whichever
                // position is the witness, a non-digit lands in a digit run
                let d = d as int;
                if k < d {
                    assert(s.subrange(k + 1, s.len() as int)[d - k - 1] == s[d]);
                    assert(!all_digits(s.subrange(k + 1, s.len() as int)));
                } else if k == d {
                    assert(s.subrange(k + 1, s.len() as int)[i - k - 1] == s[i]);
                    assert(!all_digits(s.subrange(k + 1, s.len() as int)));
                } else {
                    assert(s.subrange(0, k)[d] == s[d]);
                    assert(!is_digit(s[d]));
                    assert(!all_digits(s.subrange(0, k)));
                }
            },
        }
    }
}

} // verus!
