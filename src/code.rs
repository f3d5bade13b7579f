//! Expressions and statements of generated backward code.
//!
//! Derivative templates and the code that the solver emits share one
//! expression language: a template refers to the upstream gradient and to the
//! operands of an operation through slots, which the emitted code binds with
//! `let` statements in a nested scope.
use vstd::prelude::*;

verus! {

/// A binary arithmetic operator.
#[derive(PartialEq, Eq, Structural, Clone, Copy, Debug)]
pub enum BinOp {
    Add,
    Sub,
    Mul,
    Div,
}

/// Mathematical form of an [`Expr`].
pub enum Term {
    Grad,
    Operand(nat),
    Temp(nat),
    Path(Seq<char>),
    Neg(Box<Term>),
    Ref(Box<Term>),
    Binary(BinOp, Box<Term>, Box<Term>),
    Call(Box<Term>, Seq<char>, Seq<Term>),
}

/// An expression of generated code.
#[derive(Debug, PartialEq)]
pub enum Expr {
    /// The upstream-gradient slot, bound at the start of each scope.
    Grad,
    /// The slot of operand `i` (0 is the receiver).
    Operand(usize),
    /// The intermediate variable with the given number.
    Temp(u64),
    /// A variable, a field path or a literal, as text.
    Path(String),
    /// Arithmetic negation.
    Neg(Box<Expr>),
    /// A shared borrow.
    Ref(Box<Expr>),
    /// A binary arithmetic operation.
    Binary(BinOp, Box<Expr>, Box<Expr>),
    /// A method call: receiver, method name, arguments.
    Call(Box<Expr>, String, Vec<Expr>),
}

impl Term {
    /// Whether the term refers to the slot of operand `i`.
    pub open spec fn uses_operand(self, i: nat) -> bool
        decreases self,
    {
        match self {
            Term::Operand(k) => k == i,
            Term::Neg(e) => e.uses_operand(i),
            Term::Ref(e) => e.uses_operand(i),
            Term::Binary(_, a, b) => a.uses_operand(i) || b.uses_operand(i),
            Term::Call(r, _, args) => r.uses_operand(i) || exists|k: int|
                #![trigger args[k]]
                0 <= k < args.len() && args[k].uses_operand(i),
            _ => false,
        }
    }
}

/// The left-to-right sum of a non-empty list of terms.
pub open spec fn sum_of(s: Seq<Term>) -> Term
    decreases s.len(),
{
    if s.len() <= 1 {
        s[0]
    } else {
        Term::Binary(BinOp::Add, Box::new(sum_of(s.drop_last())), Box::new(s.last()))
    }
}

/// The views of a sequence of expressions.
pub open spec fn views(v: Seq<Expr>) -> Seq<Term> {
    Seq::new(v.len(), |i: int| v[i]@)
}

impl Expr {
    pub open spec fn view(&self) -> Term
        decreases self,
    {
        match self {
            Expr::Grad => Term::Grad,
            Expr::Operand(i) => Term::Operand(*i as nat),
            Expr::Temp(k) => Term::Temp(*k as nat),
            Expr::Path(s) => Term::Path(s@),
            Expr::Neg(e) => Term::Neg(Box::new(e.view())),
            Expr::Ref(e) => Term::Ref(Box::new(e.view())),
            Expr::Binary(o, a, b) => Term::Binary(*o, Box::new(a.view()), Box::new(b.view())),
            Expr::Call(r, m, args) => Term::Call(
                Box::new(r.view()),
                m@,
                Seq::new(
                    args.len() as nat,
                    |i: int|
                        if 0 <= i < args.len() {
                            args@[i].view()
                        } else {
                            Term::Grad
                        },
                ),
            ),
        }
    }

    /// A copy of the expression, node for node.
    pub fn duplicate(&self) -> (r: Expr)
        ensures
            r@ == self@,
        decreases self,
    {
        match self {
            Expr::Grad => Expr::Grad,
            Expr::Operand(i) => Expr::Operand(*i),
            Expr::Temp(k) => Expr::Temp(*k),
            Expr::Path(s) => Expr::Path(s.clone()),
            Expr::Neg(e) => Expr::Neg(Box::new(e.duplicate())),
            Expr::Ref(e) => Expr::Ref(Box::new(e.duplicate())),
            Expr::Binary(o, a, b) => Expr::Binary(*o, Box::new(a.duplicate()), Box::new(b.duplicate())),
            Expr::Call(recv, m, args) => {
                let mut out: Vec<Expr> = Vec::new();
                let mut i: usize = 0;
                #[verifier::loop_isolation(false)]
                while i < args.len()
                    invariant
                        i <= args.len(),
                        out.len() == i,
                        forall|k: int| 0 <= k < i ==> (#[trigger] out@[k])@ == args@[k]@,
                    decreases args.len() - i,
                {
                    assert(decreases_to!(self => args@[i as int]));
                    out.push(args[i].duplicate());
                    i += 1;
                }
                let r = Expr::Call(Box::new(recv.duplicate()), m.clone(), out);
                assert(r@ =~= self@) by {
                    assert(r@->Call_2 =~= self@->Call_2);
                }
                r
            },
        }
    }

    /// Whether the expression refers to the slot of operand `i`.
    pub fn uses_operand(&self, i: usize) -> (r: bool)
        ensures
            r == self@.uses_operand(i as nat),
        decreases self,
    {
        match self {
            Expr::Operand(k) => *k == i,
            Expr::Neg(e) => e.uses_operand(i),
            Expr::Ref(e) => e.uses_operand(i),
            Expr::Binary(_, a, b) => a.uses_operand(i) || b.uses_operand(i),
            Expr::Call(recv, _, args) => {
                if recv.uses_operand(i) {
                    return true;
                }
                let mut k: usize = 0;
                #[verifier::loop_isolation(false)]
                while k < args.len()
                    invariant
                        k <= args.len(),
                        forall|j: int| 0 <= j < k ==> !args@[j]@.uses_operand(i as nat),
                    decreases args.len() - k,
                {
                    assert(decreases_to!(self => args@[k as int]));
                    if args[k].uses_operand(i) {
                        assert(self@->Call_2[k as int] == args@[k as int]@);
                        assert(self@->Call_2[k as int].uses_operand(i as nat));
                        return true;
                    }
                    k += 1;
                }
                assert forall|j: int| 0 <= j < self@->Call_2.len() implies !(
                #[trigger] self@->Call_2[j]).uses_operand(i as nat) by {
                    assert(self@->Call_2[j] == args@[j]@);
                }
                false
            },
            _ => false,
        }
    }
}

} // verus!
