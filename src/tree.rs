//! The expression tree of a forward computation.
use crate::code::{BinOp, Expr, Term};
use vstd::prelude::*;
use vstd::string::*;

verus! {

/// Mathematical form of an [`Arg`]. The operands of `Op` start with the
/// receiver (operand 0), followed by the explicit arguments.
pub enum Node {
    Empty,
    Leaf(Seq<char>),
    Op(Seq<char>, Seq<Node>),
}

/// A node of the expression tree.
#[derive(Debug, PartialEq)]
pub enum Arg {
    /// An absent node; reaching one while differentiating is an error.
    Empty,
    /// A compound node.
    Operation(Box<Operation>),
    /// A literal or a variable, parameter or field path, as written in the
    /// forward code (it may carry `&`).
    Terminal(String),
}

/// A named operation applied to a receiver and further operands.
#[derive(Debug, PartialEq)]
pub struct Operation {
    pub receiver: Arg,
    pub method: String,
    pub args: Vec<Arg>,
}

/// The name that a terminal stands for: its text without any `&`.
pub open spec fn canonical(s: Seq<char>) -> Seq<char>
    decreases s.len(),
{
    if s.len() == 0 {
        s
    } else if s.last() == '&' {
        canonical(s.drop_last())
    } else {
        canonical(s.drop_last()).push(s.last())
    }
}

/// The binary operator that an operation of the given name and operand count
/// is written with, if any.
pub open spec fn binary_op(m: Seq<char>, n: nat) -> Option<BinOp> {
    if n != 2 {
        None
    } else if m == "add"@ {
        Some(BinOp::Add)
    } else if m == "sub"@ {
        Some(BinOp::Sub)
    } else if m == "mul"@ {
        Some(BinOp::Mul)
    } else if m == "div"@ {
        Some(BinOp::Div)
    } else {
        None
    }
}

/// How an operation with the given name and operand terms is written.
pub open spec fn compose(m: Seq<char>, ts: Seq<Term>) -> Term {
    match binary_op(m, ts.len()) {
        Some(o) => Term::Binary(o, Box::new(ts[0]), Box::new(ts[1])),
        None => if m == "neg"@ && ts.len() == 1 {
            Term::Neg(Box::new(ts[0]))
        } else {
            Term::Call(Box::new(ts[0]), m, ts.drop_first())
        },
    }
}

impl Node {
    /// Whether a terminal of this subtree stands for the name `t`.
    pub open spec fn mentions(self, t: Seq<char>) -> bool
        decreases self,
    {
        match self {
            Node::Empty => false,
            Node::Leaf(s) => canonical(s) == t,
            Node::Op(_, ops) => exists|k: int| #![trigger ops[k]] 0 <= k < ops.len() && ops[k].mentions(t),
        }
    }

    /// The code that computes this subtree's forward value, where a terminal
    /// that stands for `input` is borrowed; `None` if an empty node is in it.
    pub open spec fn term(self, input: Seq<char>) -> Option<Term>
        decreases self,
    {
        match self {
            Node::Empty => None,
            Node::Leaf(s) => Some(
                if canonical(s) == input {
                    Term::Ref(Box::new(Term::Path(input)))
                } else {
                    Term::Path(s)
                },
            ),
            Node::Op(m, ops) => if ops.len() > 0 && forall|k: int| #![trigger ops[k]]
                0 <= k < ops.len() ==> ops[k].term(input) is Some {
                Some(compose(m, operand_terms(ops, input)))
            } else {
                None
            },
        }
    }
}

/// The forward-value code of each operand.
pub open spec fn operand_terms(ops: Seq<Node>, input: Seq<char>) -> Seq<Term>
    decreases ops,
{
    Seq::new(
        ops.len(),
        |k: int|
            if 0 <= k < ops.len() {
                ops[k].term(input).unwrap()
            } else {
                Term::Grad
            },
    )
}

/// Number of terminals in `ops[0..k]` and below that stand for `t`.
pub open spec fn occurrences_in(ops: Seq<Node>, t: Seq<char>, k: nat) -> nat
    decreases ops, k,
{
    if k == 0 || k > ops.len() {
        0
    } else {
        occurrences_in(ops, t, (k - 1) as nat) + occurrences(ops[k - 1], t)
    }
}

/// Number of terminals of the tree that stand for `t`.
pub open spec fn occurrences(n: Node, t: Seq<char>) -> nat
    decreases n, 0nat,
{
    match n {
        Node::Empty => 0,
        Node::Leaf(s) => if canonical(s) == t {
            1
        } else {
            0
        },
        Node::Op(_, ops) => occurrences_in(ops, t, ops.len()),
    }
}

impl Arg {
    pub open spec fn view(&self) -> Node
        decreases self,
    {
        match self {
            Arg::Empty => Node::Empty,
            Arg::Terminal(s) => Node::Leaf(s@),
            Arg::Operation(op) => Node::Op(
                op.method@,
                seq![op.receiver.view()] + Seq::new(
                    op.args.len() as nat,
                    |i: int|
                        if 0 <= i < op.args.len() {
                            op.args@[i].view()
                        } else {
                            Node::Empty
                        },
                ),
            ),
        }
    }
}

impl Operation {
    pub fn new(receiver: Arg, method: String, args: Vec<Arg>) -> (r: Operation)
        ensures
            r.receiver == receiver,
            r.method == method,
            r.args == args,
    {
        Operation { receiver, method, args }
    }
}

impl Default for Arg {
    fn default() -> (r: Arg)
        ensures
            r is Empty,
    {
        Arg::Empty
    }
}

impl Arg {
    /// Moves the node out, leaving an empty node in its place.
    pub fn take(&mut self) -> (r: Arg)
        ensures
            r == *old(self),
            *final(self) is Empty,
    {
        let mut r = Arg::Empty;
        std::mem::swap(self, &mut r);
        r
    }
}

/// Whether two texts are equal.
pub fn same_text(a: &str, b: &str) -> (r: bool)
    ensures
        r == (a@ == b@),
{
    let n = a.unicode_len();
    if n != b.unicode_len() {
        return false;
    }
    let mut i: usize = 0;
    while i < n
        invariant
            n == a@.len(),
            n == b@.len(),
            i <= n,
            forall|j: int| 0 <= j < i ==> a@[j] == b@[j],
        decreases n - i,
    {
        if a.get_char(i) != b.get_char(i) {
            return false;
        }
        i += 1;
    }
    assert(a@ =~= b@);
    true
}

proof fn lemma_canonical_concat(a: Seq<char>, b: Seq<char>)
    ensures
        canonical(a + b) == canonical(a) + canonical(b),
    decreases b.len(),
{
    if b.len() == 0 {
        assert(a + b =~= a);
        assert(canonical(b) =~= seq![]);
        assert(canonical(a) + canonical(b) =~= canonical(a));
    } else {
        lemma_canonical_concat(a, b.drop_last());
        assert((a + b).drop_last() =~= a + b.drop_last());
        assert((a + b).last() == b.last());
        if b.last() != '&' {
            assert(canonical(a) + canonical(b.drop_last()).push(b.last()) =~= (canonical(a)
                + canonical(b.drop_last())).push(b.last()));
        }
    }
}

/// Whether the terminal text `s` stands for the name `t`.
pub fn stands_for(s: &str, t: &str) -> (r: bool)
    ensures
        r == (canonical(s@) == t@),
{
    let n = s.unicode_len();
    let m = t.unicode_len();
    let mut i: usize = 0;
    let mut j: usize = 0;
    while i < n
        invariant
            n == s@.len(),
            m == t@.len(),
            i <= n,
            j <= m,
            canonical(s@.subrange(0, i as int)) == t@.subrange(0, j as int),
        decreases n - i,
    {
        let c = s.get_char(i);
        assert(s@.subrange(0, i + 1).drop_last() =~= s@.subrange(0, i as int));
        if c == '&' {
        } else if j < m && t.get_char(j) == c {
            assert(t@.subrange(0, j + 1) =~= t@.subrange(0, j as int).push(c));
            j += 1;
        } else {
            proof {
                let pre = s@.subrange(0, i + 1);
                let rest = s@.subrange(i + 1, n as int);
                assert(s@ =~= pre + rest);
                lemma_canonical_concat(pre, rest);
                let cp = canonical(pre);
                assert(cp == t@.subrange(0, j as int).push(c));
                if canonical(s@) == t@ {
                    assert(t@.subrange(0, cp.len() as int) =~= cp);
                    assert(t@[j as int] == cp[j as int]);
                }
            }
            return false;
        }
        i += 1;
    }
    assert(s@.subrange(0, n as int) =~= s@);
    if j == m {
        assert(t@.subrange(0, j as int) =~= t@);
        true
    } else {
        false
    }
}

/// The binary operator that an operation is written with, if any.
fn binary_op_of(m: &str, n: usize) -> (r: Option<BinOp>)
    ensures
        r == binary_op(m@, n as nat + 1),
{
    if n != 1 {
        None
    } else if same_text(m, "add") {
        Some(BinOp::Add)
    } else if same_text(m, "sub") {
        Some(BinOp::Sub)
    } else if same_text(m, "mul") {
        Some(BinOp::Mul)
    } else if same_text(m, "div") {
        Some(BinOp::Div)
    } else {
        None
    }
}

/// The code of an operation, given the code of its receiver and arguments.
fn compose_expr(m: &String, recv: Expr, rest: Vec<Expr>) -> (r: Expr)
    ensures
        r@ == compose(m@, seq![recv@] + crate::code::views(rest@)),
{
    let ghost ts = seq![recv@] + crate::code::views(rest@);
    assert(ts.len() == rest.len() + 1);
    let mut rest = rest;
    match binary_op_of(m.as_str(), rest.len()) {
        Some(o) => {
            let second = rest.pop().unwrap();
            assert(ts[1] == second@);
            Expr::Binary(o, Box::new(recv), Box::new(second))
        },
        None => {
            if rest.len() == 0 && same_text(m.as_str(), "neg") {
                Expr::Neg(Box::new(recv))
            } else {
                let r = Expr::Call(Box::new(recv), m.clone(), rest);
                assert(r@->Call_2 =~= ts.drop_first());
                r
            }
        },
    }
}

impl Arg {
    /// Whether a terminal of this subtree stands for the name `t`.
    pub fn mentions(&self, t: &str) -> (r: bool)
        ensures
            r == self@.mentions(t@),
        decreases self,
    {
        match self {
            Arg::Empty => false,
            Arg::Terminal(s) => stands_for(s.as_str(), t),
            Arg::Operation(op) => {
                if op.receiver.mentions(t) {
                    assert(self@->Op_1[0] == op.receiver@);
                    return true;
                }
                let mut k: usize = 0;
                #[verifier::loop_isolation(false)]
                while k < op.args.len()
                    invariant
                        k <= op.args.len(),
                        forall|j: int| 0 <= j < k ==> !(#[trigger] op.args@[j])@.mentions(t@),
                    decreases op.args.len() - k,
                {
                    assert(decreases_to!(self => op.args@[k as int]));
                    if op.args[k].mentions(t) {
                        assert(self@->Op_1[k + 1] == op.args@[k as int]@);
                        return true;
                    }
                    k += 1;
                }
                assert forall|j: int| 0 <= j < self@->Op_1.len() implies !(
                #[trigger] self@->Op_1[j]).mentions(t@) by {
                    if j > 0 {
                        assert(self@->Op_1[j] == op.args@[j - 1]@);
                    }
                }
                false
            },
        }
    }

    /// The code that computes this subtree's forward value, with a terminal
    /// that stands for `input` borrowed; `None` if an empty node is in it.
    pub fn to_expr(&self, input: &str) -> (r: Option<Expr>)
        ensures
            match self@.term(input@) {
                Some(t) => r is Some && r->Some_0@ == t,
                None => r is None,
            },
        decreases self,
    {
        match self {
            Arg::Empty => None,
            Arg::Terminal(s) => {
                if stands_for(s.as_str(), input) {
                    let p = Expr::Path(input.to_owned());
                    assert(p@ == Term::Path(input@));
                    let r = Expr::Ref(Box::new(p));
                    Some(r)
                } else {
                    Some(Expr::Path(s.clone()))
                }
            },
            Arg::Operation(op) => {
                let ghost ops = self@->Op_1;
                assert(ops[0] == op.receiver@);
                let recv = match op.receiver.to_expr(input) {
                    Some(e) => e,
                    None => {
                        return None;
                    },
                };
                let mut rest: Vec<Expr> = Vec::new();
                let mut k: usize = 0;
                #[verifier::loop_isolation(false)]
                while k < op.args.len()
                    invariant
                        k <= op.args.len(),
                        rest.len() == k,
                        forall|j: int|
                            0 <= j < k ==> (#[trigger] ops[j + 1]).term(input@) is Some
                                && ops[j + 1].term(input@).unwrap() == rest@[j]@,
                    decreases op.args.len() - k,
                {
                    assert(decreases_to!(self => op.args@[k as int]));
                    assert(ops[k + 1] == op.args@[k as int]@);
                    match op.args[k].to_expr(input) {
                        Some(e) => {
                            rest.push(e);
                        },
                        None => {
                                return None;
                        },
                    }
                    k += 1;
                }
                let ghost ts = seq![recv@] + crate::code::views(rest@);
                assert forall|j: int| 0 <= j < ops.len() implies (#[trigger] ops[j]).term(input@) is Some
                    && ops[j].term(input@).unwrap() == ts[j] by {
                    if j > 0 {
                        assert(ops[(j - 1) + 1] == ops[j]);
                    }
                }
                assert(operand_terms(ops, input@) =~= ts);
                let r = compose_expr(&op.method, recv, rest);
                Some(r)
            },
        }
    }
}

impl Arg {
    /// A copy of the tree, node for node.
    pub fn duplicate(&self) -> (r: Arg)
        ensures
            r@ == self@,
        decreases self,
    {
        match self {
            Arg::Empty => Arg::Empty,
            Arg::Terminal(s) => Arg::Terminal(s.clone()),
            Arg::Operation(op) => {
                let mut args: Vec<Arg> = Vec::new();
                let mut i: usize = 0;
                #[verifier::loop_isolation(false)]
                while i < op.args.len()
                    invariant
                        i <= op.args.len(),
                        args.len() == i,
                        forall|k: int| 0 <= k < i ==> (#[trigger] args@[k])@ == op.args@[k]@,
                    decreases op.args.len() - i,
                {
                    assert(decreases_to!(self => op.args@[i as int]));
                    args.push(op.args[i].duplicate());
                    i += 1;
                }
                let r = Arg::Operation(
                    Box::new(Operation::new(op.receiver.duplicate(), op.method.clone(), args)),
                );
                assert(r@ =~= self@) by {
                    assert(r@->Op_1 =~= self@->Op_1);
                }
                r
            },
        }
    }
}

/// The text of a tree for diagnostics: `name(receiver, arg, ...)` for an
/// operation, the terminal's own text, nothing for an empty node.
pub open spec fn text_of(n: Node) -> Seq<char>
    decreases n, 1nat,
{
    match n {
        Node::Empty => Seq::empty(),
        Node::Leaf(s) => s,
        Node::Op(m, ops) => m + "("@ + list_text(ops, ops.len()) + ")"@,
    }
}

/// The texts of `ops[0..k]`, separated by `", "`.
pub open spec fn list_text(ops: Seq<Node>, k: nat) -> Seq<char>
    decreases ops, k,
{
    if k == 0 || k > ops.len() {
        Seq::empty()
    } else if k == 1 {
        text_of(ops[0])
    } else {
        list_text(ops, (k - 1) as nat) + ", "@ + text_of(ops[k - 1])
    }
}

impl Arg {
    /// The text of the tree for diagnostics.
    pub fn to_text(&self) -> (r: String)
        ensures
            r@ == text_of(self@),
        decreases self,
    {
        match self {
            Arg::Empty => String::new(),
            Arg::Terminal(s) => s.clone(),
            Arg::Operation(op) => {
                let ghost ops = self@->Op_1;
                let mut r = op.method.clone();
                r.append("(");
                let first = op.receiver.to_text();
                r.append(first.as_str());
                assert(ops[0] == op.receiver@);
                let mut k: usize = 0;
                #[verifier::loop_isolation(false)]
                while k < op.args.len()
                    invariant
                        k <= op.args.len(),
                        r@ == op.method@ + "("@ + list_text(ops, (k + 1) as nat),
                    decreases op.args.len() - k,
                {
                    assert(decreases_to!(self => op.args@[k as int]));
                    assert(ops[k + 1] == op.args@[k as int]@);
                    let ghost before = r@;
                    r.append(", ");
                    let t = op.args[k].to_text();
                    r.append(t.as_str());
                    assert(r@ =~= op.method@ + "("@ + list_text(ops, (k + 2) as nat));
                    k += 1;
                }
                r.append(")");
                r
            },
        }
    }
}

} // verus!
