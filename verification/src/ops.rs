use vstd::prelude::*;

verus! {

/// The closed set of binary operator symbols the expression grammar knows:
/// `+`, `-`, `*`, `/` and `^`.
#[derive(Clone, Copy, PartialEq, Eq, Structural, Debug)]
pub enum Op {
    Add,
    Sub,
    Mul,
    Div,
    Pow,
}

impl Op {
    /// Binding strength of the operator: `+`/`-` bind weakest (1),
    /// `*`/`/` bind tighter (2), `^` binds tightest (3).
    pub open spec fn spec_precedence(self) -> u8 {
        match self {
            Op::Add => 1,
            Op::Sub => 1,
            Op::Mul => 2,
            Op::Div => 2,
            Op::Pow => 3,
        }
    }

    /// Precedence lookup; a static table, never mutated.
    pub fn precedence(self) -> (p: u8)
        ensures
            p == self.spec_precedence(),
    {
        match self {
            Op::Add => 1,
            Op::Sub => 1,
            Op::Mul => 2,
            Op::Div => 2,
            Op::Pow => 3,
        }
    }

    /// The character that writes this operator in an expression.
    pub open spec fn spec_symbol(self) -> char {
        match self {
            Op::Add => '+',
            Op::Sub => '-',
            Op::Mul => '*',
            Op::Div => '/',
            Op::Pow => '^',
        }
    }

    /// Symbol lookup, the inverse direction of `from_char`.
    pub fn symbol(self) -> (c: char)
        ensures
            c == self.spec_symbol(),
    {
        match self {
            Op::Add => '+',
            Op::Sub => '-',
            Op::Mul => '*',
            Op::Div => '/',
            Op::Pow => '^',
        }
    }

    /// Which operator, if any, a character denotes.
    pub fn from_char(c: char) -> (r: Option<Op>)
        ensures
            r == if is_op_char(c) {
                Some(op_of_char(c))
            } else {
                None::<Op>
            },
    {
        if c == '+' {
            Some(Op::Add)
        } else if c == '-' {
            Some(Op::Sub)
        } else if c == '*' {
            Some(Op::Mul)
        } else if c == '/' {
            Some(Op::Div)
        } else if c == '^' {
            Some(Op::Pow)
        } else {
            None
        }
    }
}

/// Whether a character is one of the five operator symbols.
pub open spec fn is_op_char(c: char) -> bool {
    c == '+' || c == '-' || c == '*' || c == '/' || c == '^'
}

/// The operator a character denotes; meaningful only under `is_op_char`.
pub open spec fn op_of_char(c: char) -> Op {
    if c == '+' {
        Op::Add
    } else if c == '-' {
        Op::Sub
    } else if c == '*' {
        Op::Mul
    } else if c == '/' {
        Op::Div
    } else {
        Op::Pow
    }
}

/// Round trip between an operator and the character that writes it.
pub proof fn lemma_symbol_of_char(o: Op)
    ensures
        is_op_char(o.spec_symbol()),
        op_of_char(o.spec_symbol()) == o,
{
}

} // verus!
