//! The gradient solver: reverse-mode differentiation of an expression tree
//! into backward code.
//!
//! The solver walks the tree from the root. At each operation it decides which
//! operands hold a target, binds the forward values that the needed
//! derivative templates read, assigns each needed partial derivative to a
//! fresh intermediate variable, and goes on into the needed operands with that
//! intermediate as their upstream gradient. A terminal that stands for a target
//! adds its upstream gradient to that target's contributions. At the end each
//! target's contributions are summed.
use crate::code::{sum_of, views, BinOp, Expr, Term};
use crate::error::{Fault, SolveError};
use crate::rules::{primitive_rules, AutoDiff};
use crate::tree::{canonical, same_text, stands_for, Arg, Node, Operation};
use vstd::prelude::*;
use vstd::string::*;

verus! {

/// `let <operand slot> = value;`
#[derive(Debug, PartialEq)]
pub struct Binding {
    pub slot: usize,
    pub value: Expr,
}

/// `<intermediate> = value;`
#[derive(Debug, PartialEq)]
pub struct Assignment {
    pub temp: u64,
    pub value: Expr,
}

/// The code emitted for one operation: the intermediates of `assignments`
/// are declared before a nested scope that binds the gradient slot to `grad`,
/// binds the operand slots, and makes the assignments.
#[derive(Debug, PartialEq)]
pub struct Level {
    pub grad: Expr,
    pub bindings: Vec<Binding>,
    pub assignments: Vec<Assignment>,
}

/// A target's gradient slot is set to `value`.
#[derive(Debug, PartialEq)]
pub struct Update {
    pub target: String,
    pub value: Expr,
}

/// Generated backward code: the levels in order, then the updates of the
/// targets' gradient slots, then the gradient of the input, if it has one.
#[derive(Debug, PartialEq)]
pub struct Backward {
    pub levels: Vec<Level>,
    pub updates: Vec<Update>,
    pub result: Option<Expr>,
}

/// One target of the accumulation map and its gradient contributions.
pub struct Entry {
    pub target: String,
    pub grads: Vec<Expr>,
}

/// Mathematical form of a [`Level`].
pub struct LevelModel {
    pub grad: Term,
    pub bindings: Seq<(nat, Term)>,
    pub assignments: Seq<(nat, Term)>,
}

/// Mathematical form of a [`Backward`].
pub struct BackwardModel {
    pub levels: Seq<LevelModel>,
    pub updates: Seq<(Seq<char>, Term)>,
    pub result: Option<Term>,
}

/// What a traversal has produced so far: the levels, the accumulation map and
/// the number of the next intermediate.
pub struct State {
    pub levels: Seq<LevelModel>,
    pub accum: Seq<(Seq<char>, Seq<Term>)>,
    pub next: nat,
}

impl Operation {
    pub open spec fn view(&self) -> Node {
        Arg::Operation(Box::new(*self)).view()
    }
}

impl Level {
    pub open spec fn view(&self) -> LevelModel {
        LevelModel {
            grad: self.grad@,
            bindings: bindings_view(self.bindings@),
            assignments: assignments_view(self.assignments@),
        }
    }
}

impl Backward {
    pub open spec fn view(&self) -> BackwardModel {
        BackwardModel {
            levels: levels_view(self.levels@),
            updates: updates_view(self.updates@),
            result: match self.result {
                Some(e) => Some(e@),
                None => None,
            },
        }
    }
}

pub open spec fn bindings_view(v: Seq<Binding>) -> Seq<(nat, Term)> {
    Seq::new(v.len(), |i: int| (v[i].slot as nat, v[i].value@))
}

pub open spec fn assignments_view(v: Seq<Assignment>) -> Seq<(nat, Term)> {
    Seq::new(v.len(), |i: int| (v[i].temp as nat, v[i].value@))
}

pub open spec fn updates_view(v: Seq<Update>) -> Seq<(Seq<char>, Term)> {
    Seq::new(v.len(), |i: int| (v[i].target@, v[i].value@))
}

pub open spec fn levels_view(v: Seq<Level>) -> Seq<LevelModel> {
    Seq::new(v.len(), |i: int| v[i]@)
}

pub open spec fn accum_view(v: Seq<Entry>) -> Seq<(Seq<char>, Seq<Term>)> {
    Seq::new(v.len(), |i: int| (v[i].target@, views(v[i].grads@)))
}

pub open spec fn texts(v: Seq<String>) -> Seq<Seq<char>> {
    Seq::new(v.len(), |i: int| v[i]@)
}

/// The names of the accumulation map.
pub open spec fn keys(accum: Seq<(Seq<char>, Seq<Term>)>) -> Seq<Seq<char>> {
    Seq::new(accum.len(), |i: int| accum[i].0)
}

/// The names of `s` without repetition, in order of first appearance.
pub open spec fn distinct(s: Seq<Seq<char>>) -> Seq<Seq<char>>
    decreases s.len(),
{
    if s.len() == 0 {
        s
    } else if distinct(s.drop_last()).contains(s.last()) {
        distinct(s.drop_last())
    } else {
        distinct(s.drop_last()).push(s.last())
    }
}

/// Whether a terminal of `n` stands for one of `targets`.
pub open spec fn holds_target(n: Node, targets: Seq<Seq<char>>) -> bool {
    exists|j: int| 0 <= j < targets.len() && n.mentions(#[trigger] targets[j])
}

/// Whether the value of operand `i` is read by the template of a needed
/// operand.
pub open spec fn bound(ops: Seq<Node>, templates: Seq<Term>, targets: Seq<Seq<char>>, i: nat) -> bool {
    exists|j: int| 0 <= j < ops.len() && holds_target(#[trigger] ops[j], targets) && templates[j].uses_operand(i)
}

/// The operand bindings among operands `0..k`.
pub open spec fn bindings(
    ops: Seq<Node>,
    templates: Seq<Term>,
    targets: Seq<Seq<char>>,
    input: Seq<char>,
    k: nat,
) -> Seq<(nat, Term)>
    decreases k,
{
    if k == 0 {
        seq![]
    } else {
        let prev = bindings(ops, templates, targets, input, (k - 1) as nat);
        if bound(ops, templates, targets, (k - 1) as nat) {
            prev.push(((k - 1) as nat, ops[k - 1].term(input).unwrap()))
        } else {
            prev
        }
    }
}

/// Whether every operand whose value is read can be written as code.
pub open spec fn bindable(ops: Seq<Node>, templates: Seq<Term>, targets: Seq<Seq<char>>, input: Seq<char>) -> bool {
    forall|i: nat| i < ops.len() && bound(ops, templates, targets, i) ==> (#[trigger] ops[i as int]).term(input) is Some
}

/// Number of needed operands among operands `0..k`.
pub open spec fn needed_before(ops: Seq<Node>, targets: Seq<Seq<char>>, k: nat) -> nat
    decreases k,
{
    if k == 0 {
        0
    } else {
        needed_before(ops, targets, (k - 1) as nat) + if holds_target(ops[k - 1], targets) {
            1nat
        } else {
            0nat
        }
    }
}

/// The assignments of the needed operands among `0..k`, numbered from
/// `first`.
pub open spec fn assignments(
    ops: Seq<Node>,
    templates: Seq<Term>,
    targets: Seq<Seq<char>>,
    first: nat,
    k: nat,
) -> Seq<(nat, Term)>
    decreases k,
{
    if k == 0 {
        seq![]
    } else {
        let prev = assignments(ops, templates, targets, first, (k - 1) as nat);
        if holds_target(ops[k - 1], targets) {
            prev.push((first + needed_before(ops, targets, (k - 1) as nat), templates[k - 1]))
        } else {
            prev
        }
    }
}

/// `g` added to the contributions of the target `name`.
pub open spec fn contribute(accum: Seq<(Seq<char>, Seq<Term>)>, name: Seq<char>, g: Term) -> Seq<(Seq<char>, Seq<Term>)> {
    Seq::new(
        accum.len(),
        |j: int|
            if accum[j].0 == name {
                (accum[j].0, accum[j].1.push(g))
            } else {
                accum[j]
            },
    )
}

/// The traversal of `n` with upstream gradient `g`.
pub open spec fn visit(
    n: Node,
    g: Term,
    targets: Seq<Seq<char>>,
    st: State,
    rules: Map<Seq<char>, Seq<Term>>,
    input: Seq<char>,
) -> Result<State, Fault>
    decreases n, 0nat,
{
    match n {
        Node::Empty => Err(Fault::MalformedTree),
        Node::Leaf(s) => Ok(State { accum: contribute(st.accum, canonical(s), g), ..st }),
        Node::Op(m, ops) => {
            if !rules.contains_key(m) {
                Err(Fault::UnsupportedOperation(m))
            } else if rules[m].len() != ops.len() {
                Err(Fault::ArityMismatch(m))
            } else if !bindable(ops, rules[m], targets, input) {
                Err(Fault::MalformedTree)
            } else if st.next + needed_before(ops, targets, ops.len()) > u64::MAX {
                Err(Fault::TooManyIntermediates)
            } else {
                let level = LevelModel {
                    grad: g,
                    bindings: bindings(ops, rules[m], targets, input, ops.len()),
                    assignments: assignments(ops, rules[m], targets, st.next, ops.len()),
                };
                let st1 = State {
                    levels: st.levels.push(level),
                    accum: st.accum,
                    next: st.next + needed_before(ops, targets, ops.len()),
                };
                visit_operands(ops, st.next, 0, targets, st1, rules, input)
            }
        },
    }
}

/// The traversal of the needed operands among `ops[k..]`; the needed operand
/// `i` has upstream gradient `first + needed_before(ops, targets, i)`.
pub open spec fn visit_operands(
    ops: Seq<Node>,
    first: nat,
    k: nat,
    targets: Seq<Seq<char>>,
    st: State,
    rules: Map<Seq<char>, Seq<Term>>,
    input: Seq<char>,
) -> Result<State, Fault>
    decreases ops, ops.len() - k,
{
    if k >= ops.len() {
        Ok(st)
    } else if holds_target(ops[k as int], targets) {
        match visit(
            ops[k as int],
            Term::Temp(first + needed_before(ops, targets, k)),
            targets,
            st,
            rules,
            input,
        ) {
            Ok(st2) => visit_operands(ops, first, k + 1, targets, st2, rules, input),
            Err(f) => Err(f),
        }
    } else {
        visit_operands(ops, first, k + 1, targets, st, rules, input)
    }
}

/// The updates of the targets other than `input` that have contributions.
pub open spec fn updates_of(accum: Seq<(Seq<char>, Seq<Term>)>, input: Seq<char>) -> Seq<(Seq<char>, Term)>
    decreases accum.len(),
{
    if accum.len() == 0 {
        seq![]
    } else {
        let prev = updates_of(accum.drop_last(), input);
        let e = accum.last();
        if e.0 != input && e.1.len() > 0 {
            prev.push((e.0, sum_of(e.1)))
        } else {
            prev
        }
    }
}

/// The summed contributions of `input`, if it has any.
pub open spec fn result_of(accum: Seq<(Seq<char>, Seq<Term>)>, input: Seq<char>) -> Option<Term>
    decreases accum.len(),
{
    if accum.len() == 0 {
        None
    } else if accum.last().0 == input && accum.last().1.len() > 0 {
        Some(sum_of(accum.last().1))
    } else {
        result_of(accum.drop_last(), input)
    }
}

/// The accumulation map with no contributions yet.
pub open spec fn initial_accum(targets: Seq<Seq<char>>) -> Seq<(Seq<char>, Seq<Term>)> {
    Seq::new(distinct(targets).len(), |j: int| (distinct(targets)[j], Seq::<Term>::empty()))
}

/// The backward code for tree `n`, upstream gradient `g` and the targets,
/// with intermediates numbered from `next`, and the number after the last
/// one used.
pub open spec fn solution(
    n: Node,
    g: Term,
    targets: Seq<Seq<char>>,
    rules: Map<Seq<char>, Seq<Term>>,
    input: Seq<char>,
    next: nat,
) -> Result<(BackwardModel, nat), Fault> {
    let st0 = State { levels: seq![], accum: initial_accum(targets), next };
    match visit(n, g, distinct(targets), st0, rules, input) {
        Ok(st) => Ok(
            (
                BackwardModel {
                    levels: st.levels,
                    updates: updates_of(st.accum, input),
                    result: result_of(st.accum, input),
                },
                st.next,
            ),
        ),
        Err(f) => Err(f),
    }
}


proof fn lemma_visit_keys(
    n: Node,
    g: Term,
    targets: Seq<Seq<char>>,
    st: State,
    rules: Map<Seq<char>, Seq<Term>>,
    input: Seq<char>,
)
    ensures
        visit(n, g, targets, st, rules, input) is Ok ==> keys(
            visit(n, g, targets, st, rules, input)->Ok_0.accum,
        ) == keys(st.accum),
    decreases n, 0nat,
{
    match n {
        Node::Leaf(s) => {
            assert(keys(contribute(st.accum, canonical(s), g)) =~= keys(st.accum));
        },
        Node::Op(m, ops) => {
            if rules.contains_key(m) && rules[m].len() == ops.len() {
                let st1 = State {
                    levels: st.levels,
                    accum: st.accum,
                    next: st.next + needed_before(ops, targets, ops.len()),
                };
                let st1 = State { levels: st.levels.push(LevelModel {
                    grad: g,
                    bindings: bindings(ops, rules[m], targets, input, ops.len()),
                    assignments: assignments(ops, rules[m], targets, st.next, ops.len()),
                }), ..st1 };
                lemma_visit_operands_keys(ops, st.next, 0, targets, st1, rules, input);
            }
        },
        Node::Empty => {},
    }
}

proof fn lemma_visit_operands_keys(
    ops: Seq<Node>,
    first: nat,
    k: nat,
    targets: Seq<Seq<char>>,
    st: State,
    rules: Map<Seq<char>, Seq<Term>>,
    input: Seq<char>,
)
    ensures
        visit_operands(ops, first, k, targets, st, rules, input) is Ok ==> keys(
            visit_operands(ops, first, k, targets, st, rules, input)->Ok_0.accum,
        ) == keys(st.accum),
    decreases ops, ops.len() - k,
{
    if k < ops.len() {
        if holds_target(ops[k as int], targets) {
            let g = Term::Temp(first + needed_before(ops, targets, k));
            lemma_visit_keys(ops[k as int], g, targets, st, rules, input);
            match visit(ops[k as int], g, targets, st, rules, input) {
                Ok(st2) => {
                    lemma_visit_operands_keys(ops, first, k + 1, targets, st2, rules, input);
                },
                Err(_) => {},
            }
        } else {
            lemma_visit_operands_keys(ops, first, k + 1, targets, st, rules, input);
        }
    }
}

proof fn lemma_needed_before_mono(ops: Seq<Node>, targets: Seq<Seq<char>>, j: nat, k: nat)
    requires
        j <= k,
    ensures
        needed_before(ops, targets, j) <= needed_before(ops, targets, k),
        needed_before(ops, targets, k) <= k,
    decreases k,
{
    if k > 0 {
        if j < k {
            lemma_needed_before_mono(ops, targets, j, (k - 1) as nat);
        } else {
            lemma_needed_before_mono(ops, targets, (k - 1) as nat, (k - 1) as nat);
        }
    }
}

/// Whether a terminal of `arg` stands for a name of the map.
fn holds_any(arg: &Arg, accum: &Vec<Entry>) -> (r: bool)
    ensures
        r == holds_target(arg@, keys(accum_view(accum@))),
{
    let ghost ks = keys(accum_view(accum@));
    let mut j: usize = 0;
    while j < accum.len()
        invariant
            j <= accum.len(),
            ks == keys(accum_view(accum@)),
            forall|i: int| 0 <= i < j ==> !arg@.mentions(#[trigger] ks[i]),
        decreases accum.len() - j,
    {
        assert(ks[j as int] == accum@[j as int].target@);
        if arg.mentions(accum[j].target.as_str()) {
            return true;
        }
        j += 1;
    }
    false
}

/// Operand `i` of an operation.
fn operand_of(op: &Operation, i: usize) -> (r: &Arg)
    requires
        i <= op.args.len(),
    ensures
        r@ == op@->Op_1[i as int],
{
    if i == 0 {
        &op.receiver
    } else {
        &op.args[i - 1]
    }
}

/// For each operand, whether it holds a target.
fn get_needed_expressions(operation: &Operation, accum: &Vec<Entry>) -> (r: Vec<bool>)
    requires
        operation.args.len() < usize::MAX,
    ensures
        r@.len() == operation@->Op_1.len(),
        forall|i: int|
            0 <= i < r@.len() ==> r@[i] == holds_target(
                #[trigger] operation@->Op_1[i],
                keys(accum_view(accum@)),
            ),
{
    let ghost ops = operation@->Op_1;
    let mut r: Vec<bool> = Vec::new();
    let mut i: usize = 0;
    while i <= operation.args.len()
        invariant
            i <= operation.args.len() + 1,
            operation.args.len() < usize::MAX,
            ops == operation@->Op_1,
            ops.len() == operation.args.len() + 1,
            r@.len() == i,
            forall|k: int| 0 <= k < i ==> r@[k] == holds_target(#[trigger] ops[k], keys(accum_view(accum@))),
        decreases operation.args.len() + 1 - i,
    {
        r.push(holds_any(operand_of(operation, i), accum));
        i += 1;
    }
    r
}

/// Whether the template of some needed operand reads operand `i`.
fn reads_operand(templates: &Vec<Expr>, needed: &Vec<bool>, i: usize, Ghost(ops): Ghost<Seq<Node>>, Ghost(targets): Ghost<Seq<Seq<char>>>) -> (r: bool)
    requires
        templates.len() == ops.len(),
        needed.len() == ops.len(),
        forall|j: int| 0 <= j < ops.len() ==> needed@[j] == holds_target(#[trigger] ops[j], targets),
    ensures
        r == bound(ops, views(templates@), targets, i as nat),
{
    let mut j: usize = 0;
    while j < templates.len()
        invariant
            j <= templates.len(),
            templates.len() == ops.len(),
            needed.len() == ops.len(),
            forall|k: int| 0 <= k < ops.len() ==> needed@[k] == holds_target(#[trigger] ops[k], targets),
            forall|k: int|
                0 <= k < j ==> !(holds_target(#[trigger] ops[k], targets) && templates@[k]@.uses_operand(i as nat)),
        decreases templates.len() - j,
    {
        if needed[j] && templates[j].uses_operand(i) {
            assert(views(templates@)[j as int] == templates@[j as int]@);
            assert(holds_target(ops[j as int], targets));
            return true;
        }
        j += 1;
    }
    assert forall|k: int| 0 <= k < ops.len() implies !(holds_target(#[trigger] ops[k], targets)
        && views(templates@)[k].uses_operand(i as nat)) by {
        assert(views(templates@)[k] == templates@[k]@);
    }
    false
}

/// The bindings of the operand values that the needed templates read.
fn define_inputs(
    operation: &Operation,
    templates: &Vec<Expr>,
    needed: &Vec<bool>,
    input: &str,
    Ghost(targets): Ghost<Seq<Seq<char>>>,
) -> (r: Result<Vec<Binding>, SolveError>)
    requires
        operation.args.len() < usize::MAX,
        templates.len() == operation@->Op_1.len(),
        needed.len() == operation@->Op_1.len(),
        forall|j: int|
            0 <= j < operation@->Op_1.len() ==> needed@[j] == holds_target(
                #[trigger] operation@->Op_1[j],
                targets,
            ),
    ensures
        match r {
            Ok(v) => bindable(operation@->Op_1, views(templates@), targets, input@) && bindings_view(v@)
                == bindings(
                operation@->Op_1,
                views(templates@),
                targets,
                input@,
                operation@->Op_1.len(),
            ),
            Err(e) => !bindable(operation@->Op_1, views(templates@), targets, input@) && e@
                == Fault::MalformedTree,
        },
{
    let ghost ops = operation@->Op_1;
    let ghost tv = views(templates@);
    let mut out: Vec<Binding> = Vec::new();
    let mut i: usize = 0;
    while i <= operation.args.len()
        invariant
            i <= operation.args.len() + 1,
            operation.args.len() < usize::MAX,
            ops == operation@->Op_1,
            tv == views(templates@),
            ops.len() == operation.args.len() + 1,
            templates.len() == ops.len(),
            needed.len() == ops.len(),
            forall|j: int| 0 <= j < ops.len() ==> needed@[j] == holds_target(#[trigger] ops[j], targets),
            bindings_view(out@) == bindings(ops, tv, targets, input@, i as nat),
            forall|k: nat| k < i && bound(ops, tv, targets, k) ==> (#[trigger] ops[k as int]).term(input@) is Some,
        decreases operation.args.len() + 1 - i,
    {
        let ghost before = out@;
        if reads_operand(templates, needed, i, Ghost(ops), Ghost(targets)) {
            match operand_of(operation, i).to_expr(input) {
                Some(e) => {
                    out.push(Binding { slot: i, value: e });
                    assert(bindings_view(out@) =~= bindings_view(before).push((i as nat, ops[i as int].term(input@).unwrap())));
                },
                None => {
                    assert(bound(ops, tv, targets, i as nat));
                    assert(!bindable(ops, tv, targets, input@));
                    return Err(SolveError::MalformedTree);
                },
            }
        }
        i += 1;
    }
    Ok(out)
}

/// The assignments of the needed templates to fresh intermediates, numbered
/// from `*next` on.
fn define_expressions(
    templates: &Vec<Expr>,
    needed: &Vec<bool>,
    next: &mut u64,
    Ghost(ops): Ghost<Seq<Node>>,
    Ghost(targets): Ghost<Seq<Seq<char>>>,
) -> (r: Result<Vec<Assignment>, SolveError>)
    requires
        templates.len() == ops.len(),
        needed.len() == ops.len(),
        forall|j: int| 0 <= j < ops.len() ==> needed@[j] == holds_target(#[trigger] ops[j], targets),
    ensures
        match r {
            Ok(v) => *old(next) + needed_before(ops, targets, ops.len()) <= u64::MAX && assignments_view(v@)
                == assignments(ops, views(templates@), targets, *old(next) as nat, ops.len()) && *final(next)
                == *old(next) + needed_before(ops, targets, ops.len()),
            Err(e) => *old(next) + needed_before(ops, targets, ops.len()) > u64::MAX && e@
                == Fault::TooManyIntermediates,
        },
{
    let ghost tv = views(templates@);
    let first = *next;
    let mut count: u64 = 0;
    let mut j: usize = 0;
    while j < needed.len()
        invariant
            j <= needed.len(),
            needed.len() == ops.len(),
            forall|k: int| 0 <= k < ops.len() ==> needed@[k] == holds_target(#[trigger] ops[k], targets),
            count == needed_before(ops, targets, j as nat),
            count <= j,
        decreases needed.len() - j,
    {
        if needed[j] {
            count += 1;
        }
        j += 1;
    }
    if count > u64::MAX - first {
        return Err(SolveError::TooManyIntermediates);
    }
    let mut out: Vec<Assignment> = Vec::new();
    let mut j: usize = 0;
    while j < templates.len()
        invariant
            j <= templates.len(),
            templates.len() == ops.len(),
            needed.len() == ops.len(),
            tv == views(templates@),
            forall|k: int| 0 <= k < ops.len() ==> needed@[k] == holds_target(#[trigger] ops[k], targets),
            first + needed_before(ops, targets, ops.len()) <= u64::MAX,
            *next == first + needed_before(ops, targets, j as nat),
            assignments_view(out@) == assignments(ops, tv, targets, first as nat, j as nat),
        decreases templates.len() - j,
    {
        proof {
            lemma_needed_before_mono(ops, targets, (j + 1) as nat, ops.len());
        }
        if needed[j] {
            let ghost before = out@;
            out.push(Assignment { temp: *next, value: templates[j].duplicate() });
            assert(assignments_view(out@) =~= assignments_view(before).push(
                ((first + needed_before(ops, targets, j as nat)) as nat, tv[j as int]),
            ));
            *next = *next + 1;
        }
        j += 1;
    }
    Ok(out)
}

/// Adds `grad` to the contributions of the target that `item` stands for.
fn add_contribution(accum: &mut Vec<Entry>, item: &str, grad: Expr)
    ensures
        accum_view(final(accum)@) == contribute(accum_view(old(accum)@), canonical(item@), grad@),
{
    let ghost start = accum_view(accum@);
    let ghost want = contribute(start, canonical(item@), grad@);
    let mut j: usize = 0;
    while j < accum.len()
        invariant
            j <= accum.len(),
            accum.len() == start.len(),
            want == contribute(start, canonical(item@), grad@),
            forall|i: int| 0 <= i < j ==> accum_view(accum@)[i] == want[i],
            forall|i: int| j <= i < accum.len() ==> accum_view(accum@)[i] == start[i],
        decreases accum.len() - j,
    {
        assert(accum_view(accum@)[j as int] == start[j as int]);
        if stands_for(item, accum[j].target.as_str()) {
            let ghost before = accum@;
            let mut e = accum.remove(j);
            let ghost old_grads = e.grads@;
            e.grads.push(grad.duplicate());
            assert(views(e.grads@) =~= views(old_grads).push(grad@));
            accum.insert(j, e);
            assert forall|i: int| 0 <= i < accum.len() && i != j implies accum@[i] == before[i] by {}
        }
        j += 1;
    }
    assert(accum_view(accum@) =~= want);
}


pub proof fn lemma_needed_before_bound(ops: Seq<Node>, targets: Seq<Seq<char>>, k: nat)
    ensures
        needed_before(ops, targets, k) <= k,
{
    lemma_needed_before_mono(ops, targets, k, k);
}

/// Whether an executable outcome agrees with the modelled one.
pub open spec fn agrees(
    res: Result<State, Fault>,
    r: Result<(), SolveError>,
    levels: Seq<Level>,
    accum: Seq<Entry>,
    next: u64,
) -> bool {
    match res {
        Ok(st) => r is Ok && levels_view(levels) == st.levels && accum_view(accum) == st.accum && next
            as nat == st.next,
        Err(f) => r is Err && r->Err_0@ == f,
    }
}

pub open spec fn state_of(levels: Seq<Level>, accum: Seq<Entry>, next: u64) -> State {
    State { levels: levels_view(levels), accum: accum_view(accum), next: next as nat }
}

/// The left-to-right sum of a non-empty list of expressions.
fn sum_exprs(grads: Vec<Expr>) -> (r: Expr)
    requires
        grads.len() > 0,
    ensures
        r@ == sum_of(views(grads@)),
{
    let ghost all = views(grads@);
    let n = grads.len();
    let mut rest = grads;
    let mut acc = rest.remove(0);
    assert(all.subrange(0, 1).len() == 1);
    let mut k: usize = 1;
    assert(views(rest@) =~= all.subrange(1, all.len() as int));
    while rest.len() > 0
        invariant
            k >= 1,
            all.len() == n,
            k + rest.len() == all.len(),
            views(rest@) == all.subrange(k as int, all.len() as int),
            acc@ == sum_of(all.subrange(0, k as int)),
        decreases rest.len(),
    {
        let ghost before = rest@;
        assert(views(before)[0] == all[k as int]);
        let e = rest.remove(0);
        acc = Expr::Binary(BinOp::Add, Box::new(acc), Box::new(e));
        assert(all.subrange(0, k + 1).drop_last() =~= all.subrange(0, k as int));
        k += 1;
        assert forall|i: int| 0 <= i < rest@.len() implies views(rest@)[i] == all.subrange(
            k as int,
            all.len() as int,
        )[i] by {
            assert(rest@[i] == before[i + 1]);
            assert(views(before)[i + 1] == before[i + 1]@);
        }
        assert(views(rest@) =~= all.subrange(k as int, all.len() as int));
    }
    assert(all.subrange(0, k as int) =~= all);
    acc
}

/// The updates of the targets other than `input`, and the summed gradient
/// of `input`.
fn finish(accum: Vec<Entry>, input: &str) -> (r: (Vec<Update>, Option<Expr>))
    ensures
        updates_view(r.0@) == updates_of(accum_view(accum@), input@),
        match r.1 {
            Some(e) => result_of(accum_view(accum@), input@) == Some(e@),
            None => result_of(accum_view(accum@), input@) is None,
        },
{
    let ghost all = accum_view(accum@);
    let n = accum.len();
    let mut rest = accum;
    let mut updates: Vec<Update> = Vec::new();
    let mut result: Option<Expr> = None;
    let mut k: usize = 0;
    assert(accum_view(rest@) =~= all.subrange(0, all.len() as int));
    while rest.len() > 0
        invariant
            all.len() == n,
            k + rest.len() == all.len(),
            accum_view(rest@) == all.subrange(k as int, all.len() as int),
            updates_view(updates@) == updates_of(all.subrange(0, k as int), input@),
            match result {
                Some(e) => result_of(all.subrange(0, k as int), input@) == Some(e@),
                None => result_of(all.subrange(0, k as int), input@) is None,
            },
        decreases rest.len(),
    {
        let ghost before = rest@;
        assert(accum_view(before)[0] == all[k as int]);
        let Entry { target, grads } = rest.remove(0);
        let ghost pre = all.subrange(0, k + 1);
        assert(pre.drop_last() =~= all.subrange(0, k as int));
        assert(pre.last() == (target@, views(grads@)));
        if grads.len() > 0 {
            let is_input = same_text(target.as_str(), input);
            let total = sum_exprs(grads);
            if is_input {
                result = Some(total);
            } else {
                let ghost prev = updates@;
                updates.push(Update { target, value: total });
                assert(updates_view(updates@) =~= updates_view(prev).push((pre.last().0, sum_of(pre.last().1))));
            }
        }
        k += 1;
        assert forall|i: int| 0 <= i < rest@.len() implies accum_view(rest@)[i] == all.subrange(
            k as int,
            all.len() as int,
        )[i] by {
            assert(rest@[i] == before[i + 1]);
            assert(accum_view(before)[i + 1] == all[k + i]);
        }
        assert(accum_view(rest@) =~= all.subrange(k as int, all.len() as int));
    }
    assert(all.subrange(0, k as int) =~= all);
    (updates, result)
}

/// The accumulation map of the targets, each with no contribution yet.
fn initial_entries(solve_for: &Vec<String>) -> (r: Vec<Entry>)
    ensures
        accum_view(r@) == initial_accum(texts(solve_for@)),
{
    let ghost ts = texts(solve_for@);
    let mut out: Vec<Entry> = Vec::new();
    let mut k: usize = 0;
    while k < solve_for.len()
        invariant
            k <= solve_for.len(),
            ts == texts(solve_for@),
            out.len() == distinct(ts.subrange(0, k as int)).len(),
            forall|i: int|
                0 <= i < out.len() ==> (#[trigger] out@[i]).target@ == distinct(ts.subrange(0, k as int))[i]
                    && out@[i].grads.len() == 0,
        decreases solve_for.len() - k,
    {
        let ghost d = distinct(ts.subrange(0, k as int));
        let mut present = false;
        let mut j: usize = 0;
        while j < out.len()
            invariant
                k < solve_for.len(),
                j <= out.len(),
                out.len() == d.len(),
                forall|i: int| 0 <= i < out.len() ==> (#[trigger] out@[i]).target@ == d[i],
                present == exists|i: int| 0 <= i < j && d[i] == solve_for@[k as int]@,
            decreases out.len() - j,
        {
            if same_text(out[j].target.as_str(), solve_for[k].as_str()) {
                present = true;
            }
            j += 1;
        }
        let ghost pre = ts.subrange(0, k + 1);
        assert(pre.drop_last() =~= ts.subrange(0, k as int));
        assert(pre.last() == solve_for@[k as int]@);
        assert(present == d.contains(pre.last()));
        if !present {
            out.push(Entry { target: solve_for[k].clone(), grads: Vec::new() });
        }
        k += 1;
    }
    assert(ts.subrange(0, k as int) =~= ts);
    let ghost want = initial_accum(ts);
    assert forall|i: int| 0 <= i < out.len() implies accum_view(out@)[i] == want[i] by {
        assert(views(out@[i].grads@) =~= Seq::<Term>::empty());
    }
    assert(accum_view(out@) =~= want);
    out
}

/// The gradient solver of one differentiation request: it holds the rule
/// table, the name of the distinguished input, and the number of the next
/// intermediate variable.
pub struct Solver {
    autodiff: AutoDiff,
    input: String,
    curr_var: u64,
}

impl Solver {
    pub closed spec fn rules(&self) -> Map<Seq<char>, Seq<Term>> {
        self.autodiff@
    }

    pub closed spec fn input_name(&self) -> Seq<char> {
        self.input@
    }

    pub closed spec fn next_temp(&self) -> nat {
        self.curr_var as nat
    }

    /// A solver over the primitive operations, whose distinguished input is
    /// named `input`.
    pub fn new() -> (r: Solver)
        ensures
            r.rules() == primitive_rules(),
            r.input_name() == "input"@,
            r.next_temp() == 1,
    {
        Solver::with_rules(AutoDiff::new())
    }

    /// A solver over the given rule table, whose distinguished input is named
    /// `input`.
    pub fn with_rules(autodiff: AutoDiff) -> (r: Solver)
        ensures
            r.rules() == autodiff@,
            r.input_name() == "input"@,
            r.next_temp() == 1,
    {
        Solver { autodiff, input: String::from_str("input"), curr_var: 1 }
    }

    /// The backward code of `arg_graph` for upstream gradient `grad`: for each
    /// of the names in `solve_for` that occurs in the tree, the sum of its
    /// gradient contributions.
    pub fn solve(&mut self, arg_graph: Arg, grad: Expr, solve_for: Vec<String>) -> (r: Result<
        Backward,
        SolveError,
    >)
        ensures
            final(self).rules() == old(self).rules(),
            final(self).input_name() == old(self).input_name(),
            match solution(
                arg_graph@,
                grad@,
                texts(solve_for@),
                old(self).rules(),
                old(self).input_name(),
                old(self).next_temp(),
            ) {
                Ok(out) => r is Ok && r->Ok_0@ == out.0 && final(self).next_temp() == out.1,
                Err(f) => r is Err && r->Err_0@ == f,
            },
    {
        let mut accum = initial_entries(&solve_for);
        assert(keys(accum_view(accum@)) =~= distinct(texts(solve_for@)));
        let mut levels: Vec<Level> = Vec::new();
        assert(levels_view(levels@) =~= seq![]);
        match self.solve_operation(arg_graph, grad, &mut accum, &mut levels) {
            Ok(()) => {},
            Err(e) => {
                return Err(e);
            },
        }
        let (updates, result) = finish(accum, self.input.as_str());
        Ok(Backward { levels, updates, result })
    }

    fn solve_operation(
        &mut self,
        arg_graph: Arg,
        grad: Expr,
        accum: &mut Vec<Entry>,
        levels: &mut Vec<Level>,
    ) -> (r: Result<(), SolveError>)
        ensures
            final(self).autodiff == old(self).autodiff,
            final(self).input == old(self).input,
            agrees(
                visit(
                    arg_graph@,
                    grad@,
                    keys(accum_view(old(accum)@)),
                    state_of(old(levels)@, old(accum)@, old(self).curr_var),
                    old(self).autodiff@,
                    old(self).input@,
                ),
                r,
                final(levels)@,
                final(accum)@,
                final(self).curr_var,
            ),
        decreases arg_graph@, 1nat,
    {
        match arg_graph {
            Arg::Empty => Err(SolveError::MalformedTree),
            Arg::Terminal(item) => {
                add_contribution(accum, item.as_str(), grad);
                Ok(())
            },
            Arg::Operation(op) => self.diff_operation(*op, grad, accum, levels),
        }
    }

    fn diff_operation(
        &mut self,
        operation: Operation,
        grad: Expr,
        accum: &mut Vec<Entry>,
        levels: &mut Vec<Level>,
    ) -> (r: Result<(), SolveError>)
        ensures
            final(self).autodiff == old(self).autodiff,
            final(self).input == old(self).input,
            agrees(
                visit(
                    operation@,
                    grad@,
                    keys(accum_view(old(accum)@)),
                    state_of(old(levels)@, old(accum)@, old(self).curr_var),
                    old(self).autodiff@,
                    old(self).input@,
                ),
                r,
                final(levels)@,
                final(accum)@,
                final(self).curr_var,
            ),
        decreases operation@, 0nat,
    {
        let ghost node = operation@;
        let ghost ops = node->Op_1;
        let ghost targets = keys(accum_view(accum@));
        let ghost rules = self.autodiff@;
        let ghost input = self.input@;
        let ghost st0 = state_of(levels@, accum@, self.curr_var);
        let ghost gv = grad@;
        let templates = match self.autodiff.get_expressions(operation.method.as_str()) {
            Ok(t) => t,
            Err(e) => {
                return Err(e);
            },
        };
        if templates.len() == 0 || templates.len() - 1 != operation.args.len() {
            return Err(SolveError::ArityMismatch(operation.method.clone()));
        }
        let ghost tv = views(templates@);
        let needed = get_needed_expressions(&operation, accum);
        let bound_inputs = match define_inputs(
            &operation,
            templates,
            &needed,
            self.input.as_str(),
            Ghost(targets),
        ) {
            Ok(b) => b,
            Err(e) => {
                return Err(e);
            },
        };
        let first = self.curr_var;
        let assigned = match define_expressions(
            templates,
            &needed,
            &mut self.curr_var,
            Ghost(ops),
            Ghost(targets),
        ) {
            Ok(a) => a,
            Err(e) => {
                return Err(e);
            },
        };
        let ghost level = LevelModel {
            grad: gv,
            bindings: bindings(ops, tv, targets, input, ops.len()),
            assignments: assignments(ops, tv, targets, first as nat, ops.len()),
        };
        let ghost prev_levels = levels@;
        levels.push(Level { grad, bindings: bound_inputs, assignments: assigned });
        assert(levels_view(levels@) =~= levels_view(prev_levels).push(level));
        let ghost st1 = state_of(levels@, accum@, self.curr_var);
        assert(visit(node, gv, targets, st0, rules, input) == visit_operands(
            ops,
            first as nat,
            0,
            targets,
            st1,
            rules,
            input,
        ));
        let Operation { receiver, method: _, args } = operation;
        let mut rest = args;
        rest.insert(0, receiver);
        let ghost all = rest@;
        assert forall|i: int| 0 <= i < ops.len() implies (#[trigger] all[i])@ == ops[i] by {}
        let mut k: usize = 0;
        let mut rank: u64 = first;
        assert(all.subrange(0, all.len() as int) =~= all);
        #[verifier::loop_isolation(false)]
        while rest.len() > 0
            invariant
                ops.len() <= usize::MAX,
                k + rest.len() == ops.len(),
                rest@ == all.subrange(k as int, ops.len() as int),
                all.len() == ops.len(),
                forall|i: int| 0 <= i < ops.len() ==> (#[trigger] all[i])@ == ops[i],
                needed@.len() == ops.len(),
                forall|i: int| 0 <= i < ops.len() ==> needed@[i] == holds_target(#[trigger] ops[i], targets),
                rank == first + needed_before(ops, targets, k as nat),
                first + needed_before(ops, targets, ops.len()) <= u64::MAX,
                keys(accum_view(accum@)) == targets,
                self.autodiff@ == rules,
                self.input@ == input,
                old(self).autodiff == self.autodiff,
                old(self).input == self.input,
                node == operation@,
                ops == node->Op_1,
                visit(node, gv, targets, st0, rules, input) == visit_operands(
                    ops,
                    first as nat,
                    k as nat,
                    targets,
                    state_of(levels@, accum@, self.curr_var),
                    rules,
                    input,
                ),
            decreases rest.len(),
        {
            let a = rest.remove(0);
            assert(a == all[k as int]);
            assert(rest@ =~= all.subrange(k + 1, ops.len() as int));
            if needed[k] {
                proof {
                    lemma_needed_before_mono(ops, targets, (k + 1) as nat, ops.len());
                    assert(decreases_to!(node => ops[k as int]));
                }
                let ghost st = state_of(levels@, accum@, self.curr_var);
                let ghost g = Term::Temp((first + needed_before(ops, targets, k as nat)) as nat);
                proof {
                    lemma_visit_keys(ops[k as int], g, targets, st, rules, input);
                }
                match self.solve_operation(a, Expr::Temp(rank), accum, levels) {
                    Ok(()) => {},
                    Err(e) => {
                        return Err(e);
                    },
                }
                rank = rank + 1;
            }
            k += 1;
        }
        Ok(())
    }
}

} // verus!
