//! The derivative rule table.
//!
//! Each operation name maps to one template per operand position (the
//! receiver first): the partial derivative of the operation's result with
//! respect to that operand, written over the gradient slot and the operand
//! slots.
use crate::code::{views, BinOp, Expr, Term};
use crate::error::{Fault, SolveError};
use crate::tree::same_text;
use vstd::prelude::*;
use vstd::string::*;

verus! {

/// The templates registered for one operation.
pub struct Rule {
    pub method: String,
    pub templates: Vec<Expr>,
}

/// The rule table. A later registration of a name replaces an earlier one.
pub struct AutoDiff {
    rules: Vec<Rule>,
}

/// The table that a list of registrations, in order, builds.
pub open spec fn rule_map(rs: Seq<Rule>) -> Map<Seq<char>, Seq<Term>>
    decreases rs.len(),
{
    if rs.len() == 0 {
        Map::empty()
    } else {
        rule_map(rs.drop_last()).insert(rs.last().method@, views(rs.last().templates@))
    }
}

proof fn lemma_rule_map_lookup(rs: Seq<Rule>, m: Seq<char>, k: int)
    requires
        -1 <= k < rs.len(),
        k >= 0 ==> rs[k].method@ == m,
        forall|j: int| k < j < rs.len() ==> (#[trigger] rs[j]).method@ != m,
    ensures
        k >= 0 ==> rule_map(rs).contains_key(m) && rule_map(rs)[m] == views(rs[k].templates@),
        k < 0 ==> !rule_map(rs).contains_key(m),
    decreases rs.len(),
{
    if rs.len() > 0 && k < rs.len() - 1 {
        assert forall|j: int| k < j < rs.drop_last().len() implies (
        #[trigger] rs.drop_last()[j]).method@ != m by {
            assert(rs.drop_last()[j] == rs[j]);
        }
        lemma_rule_map_lookup(rs.drop_last(), m, k);
        if k >= 0 {
            assert(rs.drop_last()[k] == rs[k]);
        }
    }
}

impl Term {
    pub open spec fn times(a: Term, b: Term) -> Term {
        Term::Binary(BinOp::Mul, Box::new(a), Box::new(b))
    }

    pub open spec fn over(a: Term, b: Term) -> Term {
        Term::Binary(BinOp::Div, Box::new(a), Box::new(b))
    }

    pub open spec fn negated(a: Term) -> Term {
        Term::Neg(Box::new(a))
    }

    pub open spec fn borrowed(a: Term) -> Term {
        Term::Ref(Box::new(a))
    }

    pub open spec fn call(recv: Term, m: Seq<char>, args: Seq<Term>) -> Term {
        Term::Call(Box::new(recv), m, args)
    }

    /// `x.powi(2)`.
    pub open spec fn squared(x: Term) -> Term {
        Term::call(x, "powi"@, seq![Term::Path("2"@)])
    }
}

/// The rules of the arithmetic operators.
pub open spec fn arithmetic_rules() -> Map<Seq<char>, Seq<Term>> {
    let g = Term::Grad;
    let a = Term::Operand(0);
    let b = Term::Operand(1);
    map![
        "add"@ => seq![g, g],
        "sub"@ => seq![g, Term::negated(g)],
        "mul"@ => seq![
            Term::times(g, Term::call(b, "transpose"@, seq![])),
            Term::times(Term::call(a, "transpose"@, seq![]), g),
        ],
        "div"@ => seq![
            Term::over(g, b),
            Term::over(Term::negated(Term::times(g, a)), Term::squared(b)),
        ],
        "neg"@ => seq![Term::negated(g)],
    ]
}

/// The rules of the elementary functions, the clamps and `clone`.
pub open spec fn function_rules() -> Map<Seq<char>, Seq<Term>> {
    let g = Term::Grad;
    let a = Term::Operand(0);
    let b = Term::Operand(1);
    let c = Term::Operand(2);
    map![
        "sin"@ => seq![Term::times(g, Term::call(a, "cos"@, seq![]))],
        "cos"@ => seq![Term::times(g, Term::negated(Term::call(a, "sin"@, seq![])))],
        "tan"@ => seq![Term::over(g, Term::squared(Term::call(a, "cos"@, seq![])))],
        "sinh"@ => seq![Term::times(g, Term::call(a, "cosh"@, seq![]))],
        "cosh"@ => seq![Term::times(g, Term::call(a, "sinh"@, seq![]))],
        "tanh"@ => seq![Term::over(g, Term::squared(Term::call(a, "cosh"@, seq![])))],
        "exp"@ => seq![Term::times(g, Term::borrowed(Term::call(a, "exp"@, seq![])))],
        "ln"@ => seq![Term::over(g, a)],
        "clamp"@ => seq![
            Term::times(g, Term::borrowed(Term::call(a, "is_between"@, seq![b, c]))),
            Term::times(g, Term::borrowed(Term::call(a, "is_smaller"@, seq![b]))),
            Term::times(g, Term::borrowed(Term::call(a, "is_bigger"@, seq![c]))),
        ],
        "clamp_min"@ => seq![
            Term::times(g, Term::borrowed(Term::call(a, "is_bigger"@, seq![b]))),
            Term::times(g, Term::borrowed(Term::call(a, "is_smaller"@, seq![b]))),
        ],
        "clamp_max"@ => seq![
            Term::times(g, Term::borrowed(Term::call(a, "is_smaller"@, seq![b]))),
            Term::times(g, Term::borrowed(Term::call(a, "is_bigger"@, seq![b]))),
        ],
        "clone"@ => seq![g],
    ]
}

/// The primitive operation set.
pub open spec fn primitive_rules() -> Map<Seq<char>, Seq<Term>> {
    arithmetic_rules().union_prefer_right(function_rules())
}

/// Registering templates under a name makes the table hold exactly those
/// templates for it, one per operand position, and leaves every other name
/// as it was.
pub proof fn law_registration_is_exact(
    table: Map<Seq<char>, Seq<Term>>,
    m: Seq<char>,
    ts: Seq<Term>,
    other: Seq<char>,
)
    ensures
        table.insert(m, ts).contains_key(m),
        table.insert(m, ts)[m] == ts,
        table.insert(m, ts)[m].len() == ts.len(),
        other != m ==> table.insert(m, ts).contains_key(other) == table.contains_key(other),
        other != m && table.contains_key(other) ==> table.insert(m, ts)[other] == table[other],
{
}

impl AutoDiff {
    pub closed spec fn view(&self) -> Map<Seq<char>, Seq<Term>> {
        rule_map(self.rules@)
    }

    /// A table with no rules.
    pub fn empty() -> (r: AutoDiff)
        ensures
            r@ == Map::<Seq<char>, Seq<Term>>::empty(),
    {
        AutoDiff { rules: Vec::new() }
    }

    /// The table of the primitive operations.
    pub fn new() -> (r: AutoDiff)
        ensures
            r@ == primitive_rules(),
    {
        let mut s = AutoDiff::empty();
        s.init();
        assert(s@ =~= primitive_rules());
        s
    }

    /// Registers `expressions` as the templates of `method`, one per operand
    /// position, replacing any earlier registration of that name.
    pub fn add_diff(&mut self, method: String, expressions: Vec<Expr>)
        ensures
            final(self)@ == old(self)@.insert(method@, views(expressions@)),
    {
        let ghost before = self.rules@;
        self.rules.push(Rule { method, templates: expressions });
        assert(self.rules@.drop_last() =~= before);
    }

    /// The templates of `method`.
    pub fn get_expressions(&self, method: &str) -> (r: Result<&Vec<Expr>, SolveError>)
        ensures
            match r {
                Ok(v) => self@.contains_key(method@) && views(v@) == self@[method@],
                Err(e) => !self@.contains_key(method@) && e@ == Fault::UnsupportedOperation(
                    method@,
                ),
            },
    {
        let mut i: usize = self.rules.len();
        while i > 0
            invariant
                i <= self.rules@.len(),
                forall|j: int| i <= j < self.rules@.len() ==> (#[trigger] self.rules@[j]).method@ != method@,
            decreases i,
        {
            i -= 1;
            if same_text(self.rules[i].method.as_str(), method) {
                proof {
                    lemma_rule_map_lookup(self.rules@, method@, i as int);
                }
                return Ok(&self.rules[i].templates);
            }
        }
        proof {
            lemma_rule_map_lookup(self.rules@, method@, -1);
        }
        Err(SolveError::UnsupportedOperation(method.to_owned()))
    }

    /// Registers the rules of the arithmetic operators.
    fn add_arithmetic(&mut self)
        ensures
            final(self)@ == old(self)@.union_prefer_right(arithmetic_rules()),
    {
        let ghost start = self@;
        self.add_diff(String::from_str("add"), pair(Expr::Grad, Expr::Grad));
        self.add_diff(String::from_str("sub"), pair(Expr::Grad, Expr::negated(Expr::Grad)));
        self.add_diff(
            String::from_str("mul"),
            pair(
                Expr::times(Expr::Grad, Expr::call0(Expr::Operand(1), "transpose")),
                Expr::times(Expr::call0(Expr::Operand(0), "transpose"), Expr::Grad),
            ),
        );
        self.add_diff(
            String::from_str("div"),
            pair(
                Expr::over(Expr::Grad, Expr::Operand(1)),
                Expr::over(
                    Expr::negated(Expr::times(Expr::Grad, Expr::Operand(0))),
                    Expr::squared(Expr::Operand(1)),
                ),
            ),
        );
        self.add_diff(String::from_str("neg"), one(Expr::negated(Expr::Grad)));
        assert(self@ =~= start.union_prefer_right(arithmetic_rules()));
    }

    /// Registers the rules of the primitive operation set.
    pub fn init(&mut self)
        ensures
            final(self)@ == old(self)@.union_prefer_right(primitive_rules()),
    {
        let ghost start = self@;
        self.add_arithmetic();
        self.add_diff(
            String::from_str("sin"),
            one(Expr::times(Expr::Grad, Expr::call0(Expr::Operand(0), "cos"))),
        );
        self.add_diff(
            String::from_str("cos"),
            one(Expr::times(Expr::Grad, Expr::negated(Expr::call0(Expr::Operand(0), "sin")))),
        );
        self.add_diff(
            String::from_str("tan"),
            one(Expr::over(Expr::Grad, Expr::squared(Expr::call0(Expr::Operand(0), "cos")))),
        );
        self.add_diff(
            String::from_str("sinh"),
            one(Expr::times(Expr::Grad, Expr::call0(Expr::Operand(0), "cosh"))),
        );
        self.add_diff(
            String::from_str("cosh"),
            one(Expr::times(Expr::Grad, Expr::call0(Expr::Operand(0), "sinh"))),
        );
        self.add_diff(
            String::from_str("tanh"),
            one(Expr::over(Expr::Grad, Expr::squared(Expr::call0(Expr::Operand(0), "cosh")))),
        );
        self.add_diff(
            String::from_str("exp"),
            one(Expr::times(Expr::Grad, Expr::borrowed(Expr::call0(Expr::Operand(0), "exp")))),
        );
        self.add_diff(String::from_str("ln"), one(Expr::over(Expr::Grad, Expr::Operand(0))));
        self.add_diff(
            String::from_str("clamp"),
            three(
                Expr::times(
                    Expr::Grad,
                    Expr::borrowed(
                        Expr::call2(Expr::Operand(0), "is_between", Expr::Operand(1), Expr::Operand(2)),
                    ),
                ),
                Expr::times(
                    Expr::Grad,
                    Expr::borrowed(Expr::call1(Expr::Operand(0), "is_smaller", Expr::Operand(1))),
                ),
                Expr::times(
                    Expr::Grad,
                    Expr::borrowed(Expr::call1(Expr::Operand(0), "is_bigger", Expr::Operand(2))),
                ),
            ),
        );
        self.add_diff(
            String::from_str("clamp_min"),
            pair(
                Expr::times(
                    Expr::Grad,
                    Expr::borrowed(Expr::call1(Expr::Operand(0), "is_bigger", Expr::Operand(1))),
                ),
                Expr::times(
                    Expr::Grad,
                    Expr::borrowed(Expr::call1(Expr::Operand(0), "is_smaller", Expr::Operand(1))),
                ),
            ),
        );
        self.add_diff(
            String::from_str("clamp_max"),
            pair(
                Expr::times(
                    Expr::Grad,
                    Expr::borrowed(Expr::call1(Expr::Operand(0), "is_smaller", Expr::Operand(1))),
                ),
                Expr::times(
                    Expr::Grad,
                    Expr::borrowed(Expr::call1(Expr::Operand(0), "is_bigger", Expr::Operand(1))),
                ),
            ),
        );
        self.add_diff(String::from_str("clone"), one(Expr::Grad));
        assert(self@ =~= start.union_prefer_right(primitive_rules()));
    }
}

/// A table holding the rules of the arithmetic operators only.
pub fn start() -> (r: AutoDiff)
    ensures
        r@ == arithmetic_rules(),
{
    let mut s = AutoDiff::empty();
    s.add_arithmetic();
    assert(s@ =~= arithmetic_rules());
    s
}

fn one(a: Expr) -> (r: Vec<Expr>)
    ensures
        views(r@) == seq![a@],
{
    let mut r: Vec<Expr> = Vec::new();
    r.push(a);
    assert(views(r@) =~= seq![r@[0]@]);
    r
}

fn pair(a: Expr, b: Expr) -> (r: Vec<Expr>)
    ensures
        views(r@) == seq![a@, b@],
{
    let mut r: Vec<Expr> = Vec::new();
    r.push(a);
    r.push(b);
    assert(views(r@) =~= seq![r@[0]@, r@[1]@]);
    r
}

fn three(a: Expr, b: Expr, c: Expr) -> (r: Vec<Expr>)
    ensures
        views(r@) == seq![a@, b@, c@],
{
    let mut r: Vec<Expr> = Vec::new();
    r.push(a);
    r.push(b);
    r.push(c);
    assert(views(r@) =~= seq![r@[0]@, r@[1]@, r@[2]@]);
    r
}

impl Expr {
    fn times(a: Expr, b: Expr) -> (r: Expr)
        ensures
            r@ == Term::times(a@, b@),
    {
        Expr::Binary(BinOp::Mul, Box::new(a), Box::new(b))
    }

    fn over(a: Expr, b: Expr) -> (r: Expr)
        ensures
            r@ == Term::over(a@, b@),
    {
        Expr::Binary(BinOp::Div, Box::new(a), Box::new(b))
    }

    fn negated(a: Expr) -> (r: Expr)
        ensures
            r@ == Term::negated(a@),
    {
        Expr::Neg(Box::new(a))
    }

    fn borrowed(a: Expr) -> (r: Expr)
        ensures
            r@ == Term::borrowed(a@),
    {
        Expr::Ref(Box::new(a))
    }

    fn call0(recv: Expr, m: &str) -> (r: Expr)
        ensures
            r@ == Term::call(recv@, m@, seq![]),
    {
        let r = Expr::Call(Box::new(recv), m.to_owned(), Vec::new());
        assert(r@->Call_2 =~= seq![]);
        r
    }

    fn call1(recv: Expr, m: &str, x: Expr) -> (r: Expr)
        ensures
            r@ == Term::call(recv@, m@, seq![x@]),
    {
        let r = Expr::Call(Box::new(recv), m.to_owned(), one(x));
        assert(r@->Call_2 =~= seq![x@]);
        r
    }

    fn call2(recv: Expr, m: &str, x: Expr, y: Expr) -> (r: Expr)
        ensures
            r@ == Term::call(recv@, m@, seq![x@, y@]),
    {
        let r = Expr::Call(Box::new(recv), m.to_owned(), pair(x, y));
        assert(r@->Call_2 =~= seq![x@, y@]);
        r
    }

    fn squared(x: Expr) -> (r: Expr)
        ensures
            r@ == Term::squared(x@),
    {
        let two = Expr::Path(String::from_str("2"));
        Expr::call1(x, "powi", two)
    }
}

} // verus!
