use vstd::prelude::*;
use crate::ops::Op;

verus! {

/// The value a well-formed postfix sequence denotes, as a closed tree:
/// a number literal, kept as its text; a negated operand (from a unary
/// minus); or a binary application. Reducing the tree to a machine number
/// is the caller's side of the boundary, since the numeric type itself is
/// outside what the verifier models; the tree fixes the operand order and
/// grouping completely, so that reduction is a single structural pass.
#[derive(Debug)]
pub enum Expr {
    Num(String),
    Neg(Box<Expr>),
    Bin(Op, Box<Expr>, Box<Expr>),
}

/// The mathematical shape of an expression tree, with number texts as
/// character sequences. Contracts speak of this form.
pub enum GExpr {
    Num(Seq<char>),
    Neg(Box<GExpr>),
    Bin(Op, Box<GExpr>, Box<GExpr>),
}

impl Expr {
    /// The mathematical shape of this tree.
    pub open spec fn to_ghost(self) -> GExpr
        decreases self,
    {
        match self {
            Expr::Num(s) => GExpr::Num(s@),
            Expr::Neg(e) => GExpr::Neg(Box::new(e.to_ghost())),
            Expr::Bin(o, l, r) => GExpr::Bin(o, Box::new(l.to_ghost()), Box::new(r.to_ghost())),
        }
    }
}

/// Every number text in the tree lies within the number grammar, so a
/// reduction pass over the tree can read each leaf as a number.
pub open spec fn wf_gexpr(e: GExpr) -> bool
    decreases e,
{
    match e {
        GExpr::Num(s) => crate::token::is_number_text(s),
        GExpr::Neg(inner) => wf_gexpr(*inner),
        GExpr::Bin(_, l, r) => wf_gexpr(*l) && wf_gexpr(*r),
    }
}

impl View for Expr {
    type V = GExpr;

    open spec fn view(&self) -> GExpr {
        self.to_ghost()
    }
}

impl DeepView for Expr {
    type V = GExpr;

    open spec fn deep_view(&self) -> GExpr {
        self.view()
    }
}

} // verus!
