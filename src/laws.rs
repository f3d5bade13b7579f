//! Properties of the gradient solver.
use crate::code::{sum_of, Term};
use crate::error::Fault;
use crate::solver::{
    assignments, contribute, distinct, holds_target, initial_accum, keys, needed_before, result_of, solution,
    visit, visit_operands, BackwardModel, LevelModel, State,
};
use crate::tree::{canonical, occurrences, occurrences_in, Node};
use vstd::prelude::*;

verus! {

/// The accumulation map after the traversal of a request.
pub open spec fn gathered(
    n: Node,
    g: Term,
    targets: Seq<Seq<char>>,
    rules: Map<Seq<char>, Seq<Term>>,
    input: Seq<char>,
    next: nat,
) -> Seq<(Seq<char>, Seq<Term>)> {
    visit(
        n,
        g,
        distinct(targets),
        State { levels: seq![], accum: initial_accum(targets), next },
        rules,
        input,
    )->Ok_0.accum
}

/// Whether some level assigns the intermediate `t`.
pub open spec fn assigned(levels: Seq<LevelModel>, t: nat) -> bool {
    exists|l: int, a: int|
        0 <= l < levels.len() && 0 <= a < levels[l].assignments.len() && (
        #[trigger] levels[l].assignments[a]).0 == t
}

proof fn lemma_absent(n: Node, t: Seq<char>)
    ensures
        !n.mentions(t) ==> occurrences(n, t) == 0,
    decreases n, 0nat,
{
    if let Node::Op(_, ops) = n {
        if !n.mentions(t) {
            lemma_absent_in(ops, t, ops.len());
        }
    }
}

proof fn lemma_absent_in(ops: Seq<Node>, t: Seq<char>, k: nat)
    requires
        k <= ops.len(),
        forall|i: int| 0 <= i < k ==> !(#[trigger] ops[i]).mentions(t),
    ensures
        occurrences_in(ops, t, k) == 0,
    decreases ops, k,
{
    if k > 0 {
        lemma_absent_in(ops, t, (k - 1) as nat);
        lemma_absent(ops[k - 1], t);
    }
}

/// `st2` has the names of `st`, and `extra(j)` more contributions to name `j`.
pub open spec fn grew_by(st: State, st2: State, extra: spec_fn(int) -> int) -> bool {
    &&& st2.accum.len() == st.accum.len()
    &&& forall|j: int|
        #![trigger st2.accum[j]]
        0 <= j < st.accum.len() ==> st2.accum[j].0 == st.accum[j].0 && st2.accum[j].1.len()
            == st.accum[j].1.len() + extra(j)
}

proof fn lemma_visit_counts(
    n: Node,
    g: Term,
    targets: Seq<Seq<char>>,
    st: State,
    rules: Map<Seq<char>, Seq<Term>>,
    input: Seq<char>,
)
    requires
        keys(st.accum) == targets,
        visit(n, g, targets, st, rules, input) is Ok,
    ensures
        grew_by(
            st,
            visit(n, g, targets, st, rules, input)->Ok_0,
            |j: int| occurrences(n, targets[j]) as int,
        ),
    decreases n, 0nat,
{
    match n {
        Node::Leaf(s) => {
            let c = contribute(st.accum, canonical(s), g);
            let st2 = visit(n, g, targets, st, rules, input)->Ok_0;
            assert(st2.accum == c);
            assert forall|j: int| 0 <= j < st.accum.len() implies #[trigger] st2.accum[j].0 == st.accum[j].0
                && st2.accum[j].1.len() == st.accum[j].1.len() + occurrences(n, targets[j]) by {
                assert(targets[j] == keys(st.accum)[j]);
                assert(occurrences(n, targets[j]) == if canonical(s) == targets[j] {
                    1nat
                } else {
                    0nat
                });
            }
        },
        Node::Op(m, ops) => {
            let st1 = State {
                levels: st.levels.push(
                    LevelModel {
                        grad: g,
                        bindings: crate::solver::bindings(ops, rules[m], targets, input, ops.len()),
                        assignments: assignments(ops, rules[m], targets, st.next, ops.len()),
                    },
                ),
                accum: st.accum,
                next: st.next + needed_before(ops, targets, ops.len()),
            };
            lemma_visit_operands_counts(ops, st.next, 0, targets, st1, rules, input);
        },
        Node::Empty => {},
    }
}

proof fn lemma_visit_operands_counts(
    ops: Seq<Node>,
    first: nat,
    k: nat,
    targets: Seq<Seq<char>>,
    st: State,
    rules: Map<Seq<char>, Seq<Term>>,
    input: Seq<char>,
)
    requires
        k <= ops.len(),
        keys(st.accum) == targets,
        visit_operands(ops, first, k, targets, st, rules, input) is Ok,
    ensures
        grew_by(
            st,
            visit_operands(ops, first, k, targets, st, rules, input)->Ok_0,
            |j: int| occurrences_in(ops, targets[j], ops.len()) - occurrences_in(ops, targets[j], k),
        ),
    decreases ops, ops.len() - k,
{
    if k < ops.len() {
        let next_st = if holds_target(ops[k as int], targets) {
            let g = Term::Temp(first + needed_before(ops, targets, k));
            lemma_visit_counts(ops[k as int], g, targets, st, rules, input);
            let st2 = visit(ops[k as int], g, targets, st, rules, input)->Ok_0;
            assert(keys(st2.accum) =~= targets);
            st2
        } else {
            assert forall|j: int| 0 <= j < targets.len() implies occurrences(
                ops[k as int],
                #[trigger] targets[j],
            ) == 0 by {
                lemma_absent(ops[k as int], targets[j]);
            }
            st
        };
        lemma_visit_operands_counts(ops, first, k + 1, targets, next_st, rules, input);
    }
}

proof fn lemma_distinct_unique(s: Seq<Seq<char>>)
    ensures
        forall|i: int, j: int|
            0 <= i < j < distinct(s).len() ==> #[trigger] distinct(s)[i] != #[trigger] distinct(s)[j],
        forall|x: Seq<char>| s.contains(x) <==> distinct(s).contains(x),
    decreases s.len(),
{
    if s.len() > 0 {
        let p = s.drop_last();
        let l = s.last();
        let d = distinct(p);
        lemma_distinct_unique(p);
        assert forall|x: Seq<char>| s.contains(x) <==> distinct(s).contains(x) by {
            assert(p.contains(x) <==> d.contains(x));
            if s.contains(x) {
                let i = choose|i: int| 0 <= i < s.len() && s[i] == x;
                if i < s.len() - 1 {
                    assert(p[i] == x);
                }
            }
            if p.contains(x) {
                let i = choose|i: int| 0 <= i < p.len() && p[i] == x;
                assert(s[i] == x);
            }
            assert(s[s.len() - 1] == l);
            if !d.contains(l) {
                let e = d.push(l);
                if e.contains(x) {
                    let i = choose|i: int| 0 <= i < e.len() && e[i] == x;
                    if i < d.len() {
                        assert(d[i] == x);
                    }
                }
                if d.contains(x) {
                    let i = choose|i: int| 0 <= i < d.len() && d[i] == x;
                    assert(e[i] == x);
                }
                assert(e[d.len() as int] == l);
            }
        }
        if !d.contains(l) {
            let e = d.push(l);
            assert forall|i: int, j: int| 0 <= i < j < e.len() implies #[trigger] e[i] != #[trigger] e[j] by {
                if j == d.len() {
                    assert(e[i] == d[i]);
                } else {
                    assert(e[i] == d[i] && e[j] == d[j]);
                }
            }
        }
    }
}

/// Every terminal that stands for a target adds one contribution to that
/// target: a target used at several places accumulates all of its uses, none
/// replaces another.
pub proof fn law_every_use_contributes(
    n: Node,
    g: Term,
    targets: Seq<Seq<char>>,
    rules: Map<Seq<char>, Seq<Term>>,
    input: Seq<char>,
    next: nat,
)
    requires
        solution(n, g, targets, rules, input, next) is Ok,
    ensures
        gathered(n, g, targets, rules, input, next).len() == distinct(targets).len(),
        forall|j: int|
            0 <= j < distinct(targets).len() ==> (#[trigger] gathered(n, g, targets, rules, input, next)[j]).0
                == distinct(targets)[j] && gathered(n, g, targets, rules, input, next)[j].1.len()
                == occurrences(n, distinct(targets)[j]),
{
    let st0 = State { levels: seq![], accum: initial_accum(targets), next };
    assert(keys(st0.accum) =~= distinct(targets));
    lemma_visit_counts(n, g, distinct(targets), st0, rules, input);
}


/// From `st` to `st2` the levels and every contribution list only grew; the
/// new contributions are `g` where `leaf`, else intermediates that a level of
/// `st2` assigns.
pub open spec fn sources_ok(st: State, st2: State, leaf: bool, g: Term) -> bool {
    &&& st.levels.len() <= st2.levels.len()
    &&& st2.levels.subrange(0, st.levels.len() as int) == st.levels
    &&& st2.accum.len() == st.accum.len()
    &&& forall|j: int|
        #![trigger st2.accum[j]]
        0 <= j < st.accum.len() ==> st.accum[j].1.len() <= st2.accum[j].1.len() && st2.accum[j].1.subrange(
            0,
            st.accum[j].1.len() as int,
        ) == st.accum[j].1
    &&& forall|j: int, i: int|
        #![trigger st2.accum[j].1[i]]
        0 <= j < st.accum.len() && st.accum[j].1.len() <= i < st2.accum[j].1.len() ==> if leaf {
            st2.accum[j].1[i] == g
        } else {
            st2.accum[j].1[i] is Temp && assigned(st2.levels, st2.accum[j].1[i]->Temp_0)
        }
}

proof fn lemma_assigned_grows(levels: Seq<LevelModel>, levels2: Seq<LevelModel>, t: nat)
    requires
        levels.len() <= levels2.len(),
        levels2.subrange(0, levels.len() as int) == levels,
        assigned(levels, t),
    ensures
        assigned(levels2, t),
{
    let (l, a) = choose|l: int, a: int|
        0 <= l < levels.len() && 0 <= a < levels[l].assignments.len() && (
        #[trigger] levels[l].assignments[a]).0 == t;
    assert(levels2[l] == levels2.subrange(0, levels.len() as int)[l]);
    assert(levels2[l].assignments[a].0 == t);
}

proof fn lemma_sources_compose(st: State, st1: State, st2: State, g: Term)
    requires
        sources_ok(st, st1, false, g),
        sources_ok(st1, st2, false, g),
    ensures
        sources_ok(st, st2, false, g),
{
    assert(st2.levels.subrange(0, st.levels.len() as int) =~= st.levels) by {
        assert forall|i: int| 0 <= i < st.levels.len() implies st2.levels[i] == st.levels[i] by {
            assert(st2.levels[i] == st2.levels.subrange(0, st1.levels.len() as int)[i]);
            assert(st1.levels[i] == st1.levels.subrange(0, st.levels.len() as int)[i]);
        }
    }
    assert forall|j: int| #![trigger st2.accum[j]] 0 <= j < st.accum.len() implies st.accum[j].1.len()
        <= st2.accum[j].1.len() && st2.accum[j].1.subrange(0, st.accum[j].1.len() as int)
        == st.accum[j].1 by {
        let a = st.accum[j].1;
        let b = st1.accum[j].1;
        let c = st2.accum[j].1;
        assert(c.subrange(0, a.len() as int) =~= a) by {
            assert forall|i: int| 0 <= i < a.len() implies c[i] == a[i] by {
                assert(c[i] == c.subrange(0, b.len() as int)[i]);
                assert(b[i] == b.subrange(0, a.len() as int)[i]);
            }
        }
    }
    assert forall|j: int, i: int|
        #![trigger st2.accum[j].1[i]]
        0 <= j < st.accum.len() && st.accum[j].1.len() <= i < st2.accum[j].1.len() implies st2.accum[j].1[i] is Temp
        && assigned(st2.levels, st2.accum[j].1[i]->Temp_0) by {
        let b = st1.accum[j].1;
        let c = st2.accum[j].1;
        if i < b.len() {
            assert(c[i] == c.subrange(0, b.len() as int)[i]);
            assert(b[i] is Temp && assigned(st1.levels, b[i]->Temp_0));
            lemma_assigned_grows(st1.levels, st2.levels, b[i]->Temp_0);
        }
    }
}

proof fn lemma_assignment_present(
    ops: Seq<Node>,
    tv: Seq<Term>,
    targets: Seq<Seq<char>>,
    first: nat,
    len: nat,
    k: int,
)
    requires
        0 <= k < len,
        holds_target(ops[k], targets),
    ensures
        exists|a: int|
            0 <= a < assignments(ops, tv, targets, first, len).len() && (#[trigger] assignments(
                ops,
                tv,
                targets,
                first,
                len,
            )[a]).0 == first + needed_before(ops, targets, k as nat),
    decreases len,
{
    let prev = assignments(ops, tv, targets, first, (len - 1) as nat);
    if k == len - 1 {
        assert(assignments(ops, tv, targets, first, len)[prev.len() as int].0 == first + needed_before(
            ops,
            targets,
            k as nat,
        ));
    } else {
        lemma_assignment_present(ops, tv, targets, first, (len - 1) as nat, k);
        let a = choose|a: int|
            0 <= a < prev.len() && (#[trigger] prev[a]).0 == first + needed_before(ops, targets, k as nat);
        assert(assignments(ops, tv, targets, first, len)[a] == prev[a]);
    }
}

proof fn lemma_visit_sources(
    n: Node,
    g: Term,
    targets: Seq<Seq<char>>,
    st: State,
    rules: Map<Seq<char>, Seq<Term>>,
    input: Seq<char>,
)
    requires
        keys(st.accum) == targets,
        visit(n, g, targets, st, rules, input) is Ok,
    ensures
        sources_ok(st, visit(n, g, targets, st, rules, input)->Ok_0, n is Leaf, g),
    decreases n, 0nat,
{
    match n {
        Node::Leaf(s) => {
            let st2 = visit(n, g, targets, st, rules, input)->Ok_0;
            assert(st2.levels.subrange(0, st.levels.len() as int) =~= st.levels);
            assert forall|j: int| #![trigger st2.accum[j]] 0 <= j < st.accum.len() implies st.accum[j].1.len()
                <= st2.accum[j].1.len() && st2.accum[j].1.subrange(0, st.accum[j].1.len() as int)
                == st.accum[j].1 by {
                assert(st2.accum[j].1.subrange(0, st.accum[j].1.len() as int) =~= st.accum[j].1);
            }
        },
        Node::Op(m, ops) => {
            let first = st.next;
            let lv = LevelModel {
                grad: g,
                bindings: crate::solver::bindings(ops, rules[m], targets, input, ops.len()),
                assignments: assignments(ops, rules[m], targets, first, ops.len()),
            };
            let st1 = State {
                levels: st.levels.push(lv),
                accum: st.accum,
                next: st.next + needed_before(ops, targets, ops.len()),
            };
            assert forall|k: int| 0 <= k < ops.len() && holds_target(#[trigger] ops[k], targets) implies assigned(
                st1.levels,
                first + needed_before(ops, targets, k as nat),
            ) by {
                lemma_assignment_present(ops, rules[m], targets, first, ops.len(), k);
                let a = choose|a: int|
                    0 <= a < lv.assignments.len() && (#[trigger] lv.assignments[a]).0 == first
                        + needed_before(ops, targets, k as nat);
                assert(st1.levels[st.levels.len() as int] == lv);
            }
            lemma_visit_operands_sources(ops, first, 0, targets, st1, rules, input, g);
            let st2 = visit(n, g, targets, st, rules, input)->Ok_0;
            assert(st1.levels.subrange(0, st.levels.len() as int) =~= st.levels);
            assert forall|j: int| #![trigger st1.accum[j]] 0 <= j < st.accum.len() implies st.accum[j].1.len()
                <= st1.accum[j].1.len() && st1.accum[j].1.subrange(0, st.accum[j].1.len() as int)
                == st.accum[j].1 by {
                assert(st1.accum[j].1.subrange(0, st.accum[j].1.len() as int) =~= st.accum[j].1);
            }
            lemma_sources_compose(st, st1, st2, g);
        },
        Node::Empty => {},
    }
}

proof fn lemma_visit_operands_sources(
    ops: Seq<Node>,
    first: nat,
    k: nat,
    targets: Seq<Seq<char>>,
    st: State,
    rules: Map<Seq<char>, Seq<Term>>,
    input: Seq<char>,
    g0: Term,
)
    requires
        k <= ops.len(),
        keys(st.accum) == targets,
        visit_operands(ops, first, k, targets, st, rules, input) is Ok,
        forall|i: int|
            k <= i < ops.len() && holds_target(#[trigger] ops[i], targets) ==> assigned(
                st.levels,
                first + needed_before(ops, targets, i as nat),
            ),
    ensures
        sources_ok(st, visit_operands(ops, first, k, targets, st, rules, input)->Ok_0, false, g0),
    decreases ops, ops.len() - k,
{
    let fin = visit_operands(ops, first, k, targets, st, rules, input)->Ok_0;
    if k >= ops.len() {
        assert(fin.levels.subrange(0, st.levels.len() as int) =~= st.levels);
        assert forall|j: int| #![trigger fin.accum[j]] 0 <= j < st.accum.len() implies st.accum[j].1.len()
            <= fin.accum[j].1.len() && fin.accum[j].1.subrange(0, st.accum[j].1.len() as int)
            == st.accum[j].1 by {
            assert(fin.accum[j].1.subrange(0, st.accum[j].1.len() as int) =~= st.accum[j].1);
        }
    } else if holds_target(ops[k as int], targets) {
        let t = first + needed_before(ops, targets, k);
        let g = Term::Temp(t);
        lemma_visit_sources(ops[k as int], g, targets, st, rules, input);
        lemma_visit_keys_again(ops[k as int], g, targets, st, rules, input);
        let st2 = visit(ops[k as int], g, targets, st, rules, input)->Ok_0;
        lemma_assigned_grows(st.levels, st2.levels, t);
        assert forall|i: int|
            k + 1 <= i < ops.len() && holds_target(#[trigger] ops[i], targets) implies assigned(
            st2.levels,
            first + needed_before(ops, targets, i as nat),
        ) by {
            lemma_assigned_grows(st.levels, st2.levels, first + needed_before(ops, targets, i as nat));
        }
        assert(sources_ok(st, st2, false, g0)) by {
            assert forall|j: int, i: int|
                #![trigger st2.accum[j].1[i]]
                0 <= j < st.accum.len() && st.accum[j].1.len() <= i < st2.accum[j].1.len() implies st2.accum[j].1[i] is Temp
                && assigned(st2.levels, st2.accum[j].1[i]->Temp_0) by {}
        }
        lemma_visit_operands_sources(ops, first, k + 1, targets, st2, rules, input, g0);
        lemma_sources_compose(st, st2, fin, g0);
    } else {
        lemma_visit_operands_sources(ops, first, k + 1, targets, st, rules, input, g0);
    }
}

proof fn lemma_visit_keys_again(
    n: Node,
    g: Term,
    targets: Seq<Seq<char>>,
    st: State,
    rules: Map<Seq<char>, Seq<Term>>,
    input: Seq<char>,
)
    requires
        keys(st.accum) == targets,
        visit(n, g, targets, st, rules, input) is Ok,
    ensures
        keys(visit(n, g, targets, st, rules, input)->Ok_0.accum) == targets,
{
    lemma_visit_counts(n, g, targets, st, rules, input);
    let st2 = visit(n, g, targets, st, rules, input)->Ok_0;
    assert(keys(st2.accum) =~= targets) by {
        assert forall|j: int| 0 <= j < targets.len() implies keys(st2.accum)[j] == targets[j] by {
            assert(st2.accum[j].0 == st.accum[j].0);
        }
    }
}

proof fn lemma_result_of(accum: Seq<(Seq<char>, Seq<Term>)>, input: Seq<char>, j0: int)
    requires
        0 <= j0 < accum.len(),
        accum[j0].0 == input,
        accum[j0].1.len() > 0,
        forall|i: int, j: int| 0 <= i < j < accum.len() ==> (#[trigger] accum[i]).0 != (#[trigger] accum[j]).0,
    ensures
        result_of(accum, input) == Some(sum_of(accum[j0].1)),
    decreases accum.len(),
{
    if j0 < accum.len() - 1 {
        assert(accum.last() == accum[accum.len() - 1]);
        assert(accum.last().0 != input);
        let p = accum.drop_last();
        assert forall|i: int, j: int| 0 <= i < j < p.len() implies (#[trigger] p[i]).0 != (#[trigger] p[j]).0 by {
            assert(p[i] == accum[i] && p[j] == accum[j]);
        }
        assert(p[j0] == accum[j0]);
        lemma_result_of(p, input, j0);
    }
}

/// When the distinguished input occurs once in a tree whose root is an
/// operation, the returned gradient is the intermediate variable that holds
/// the partial derivative of the operand where it occurs, as assigned by one
/// of the emitted levels: that computation is reused, not repeated.
pub proof fn law_single_use_reuses_intermediate(
    n: Node,
    g: Term,
    targets: Seq<Seq<char>>,
    rules: Map<Seq<char>, Seq<Term>>,
    input: Seq<char>,
    next: nat,
)
    requires
        solution(n, g, targets, rules, input, next) is Ok,
        n is Op,
        targets.contains(input),
        occurrences(n, input) == 1,
    ensures
        ({
            let out = solution(n, g, targets, rules, input, next)->Ok_0.0;
            &&& out.result is Some
            &&& out.result->Some_0 is Temp
            &&& assigned(out.levels, out.result->Some_0->Temp_0)
        }),
{
    let d = distinct(targets);
    let st0 = State { levels: seq![], accum: initial_accum(targets), next };
    assert(keys(st0.accum) =~= d);
    law_every_use_contributes(n, g, targets, rules, input, next);
    lemma_distinct_unique(targets);
    lemma_visit_sources(n, g, d, st0, rules, input);
    let acc = gathered(n, g, targets, rules, input, next);
    let j0 = choose|j: int| 0 <= j < d.len() && d[j] == input;
    assert(acc[j0].0 == d[j0]);
    assert(acc[j0].1.len() == 1);
    assert(st0.accum[j0].1.len() == 0);
    assert forall|i: int, j: int| 0 <= i < j < acc.len() implies (#[trigger] acc[i]).0 != (#[trigger] acc[j]).0 by {
        assert(acc[i].0 == d[i] && acc[j].0 == d[j]);
    }
    lemma_result_of(acc, input, j0);
    assert(sum_of(acc[j0].1) == acc[j0].1[0]);
}

/// Differentiating an operation whose name has no rule fails with an error
/// that names the operation, and no code is produced.
pub proof fn law_unregistered_operation_fails(
    m: Seq<char>,
    ops: Seq<Node>,
    g: Term,
    targets: Seq<Seq<char>>,
    rules: Map<Seq<char>, Seq<Term>>,
    input: Seq<char>,
    next: nat,
)
    requires
        !rules.contains_key(m),
    ensures
        solution(Node::Op(m, ops), g, targets, rules, input, next) == Err::<(BackwardModel, nat), Fault>(
            Fault::UnsupportedOperation(m),
        ),
{
}

/// Whether the tree has no empty node and every operation in it has a
/// receiver and a rule with one template per operand.
pub open spec fn well_formed(n: Node, rules: Map<Seq<char>, Seq<Term>>) -> bool
    decreases n,
{
    match n {
        Node::Empty => false,
        Node::Leaf(_) => true,
        Node::Op(m, ops) => ops.len() > 0 && rules.contains_key(m) && rules[m].len() == ops.len() && forall|k: int|
            #![trigger ops[k]]
            0 <= k < ops.len() ==> well_formed(ops[k], rules),
    }
}

/// Number of operand positions in `ops[0..k]` and below.
pub open spec fn positions_in(ops: Seq<Node>, k: nat) -> nat
    decreases ops, k,
{
    if k == 0 || k > ops.len() {
        0
    } else {
        positions_in(ops, (k - 1) as nat) + positions(ops[k - 1])
    }
}

/// Number of operand positions in the tree: a bound on the intermediates that
/// its differentiation uses.
pub open spec fn positions(n: Node) -> nat
    decreases n, 0nat,
{
    match n {
        Node::Op(_, ops) => ops.len() + positions_in(ops, ops.len()),
        _ => 0,
    }
}

proof fn lemma_term_some(n: Node, rules: Map<Seq<char>, Seq<Term>>, input: Seq<char>)
    requires
        well_formed(n, rules),
    ensures
        n.term(input) is Some,
    decreases n,
{
    if let Node::Op(m, ops) = n {
        assert forall|k: int| #![trigger ops[k]] 0 <= k < ops.len() implies ops[k].term(input) is Some by {
            lemma_term_some(ops[k], rules, input);
        }
    }
}

proof fn lemma_positions_mono(ops: Seq<Node>, j: nat, k: nat)
    requires
        j <= k <= ops.len(),
    ensures
        positions_in(ops, j) <= positions_in(ops, k),
    decreases k,
{
    if j < k {
        lemma_positions_mono(ops, j, (k - 1) as nat);
    }
}

proof fn lemma_visit_succeeds(
    n: Node,
    g: Term,
    targets: Seq<Seq<char>>,
    st: State,
    rules: Map<Seq<char>, Seq<Term>>,
    input: Seq<char>,
)
    requires
        well_formed(n, rules),
        st.next + positions(n) <= u64::MAX,
    ensures
        visit(n, g, targets, st, rules, input) is Ok,
        visit(n, g, targets, st, rules, input)->Ok_0.next <= st.next + positions(n),
    decreases n, 0nat,
{
    if let Node::Op(m, ops) = n {
        assert forall|i: nat| i < ops.len() && crate::solver::bound(ops, rules[m], targets, i) implies (
        #[trigger] ops[i as int]).term(input) is Some by {
            lemma_term_some(ops[i as int], rules, input);
        }
        crate::solver::lemma_needed_before_bound(ops, targets, ops.len());
        let st1 = State {
            levels: st.levels.push(
                LevelModel {
                    grad: g,
                    bindings: crate::solver::bindings(ops, rules[m], targets, input, ops.len()),
                    assignments: assignments(ops, rules[m], targets, st.next, ops.len()),
                },
            ),
            accum: st.accum,
            next: st.next + needed_before(ops, targets, ops.len()),
        };
        lemma_visit_operands_succeed(ops, st.next, 0, targets, st1, rules, input, (st.next
            + ops.len()) as nat);
    }
}

proof fn lemma_visit_operands_succeed(
    ops: Seq<Node>,
    first: nat,
    k: nat,
    targets: Seq<Seq<char>>,
    st: State,
    rules: Map<Seq<char>, Seq<Term>>,
    input: Seq<char>,
    base: nat,
)
    requires
        k <= ops.len(),
        forall|i: int| #![trigger ops[i]] 0 <= i < ops.len() ==> well_formed(ops[i], rules),
        st.next <= base + positions_in(ops, k),
        base + positions_in(ops, ops.len()) <= u64::MAX,
    ensures
        visit_operands(ops, first, k, targets, st, rules, input) is Ok,
        visit_operands(ops, first, k, targets, st, rules, input)->Ok_0.next <= base + positions_in(
            ops,
            ops.len(),
        ),
    decreases ops, ops.len() - k,
{
    lemma_positions_mono(ops, k, ops.len());
    if k < ops.len() {
        lemma_positions_mono(ops, k + 1, ops.len());
        if holds_target(ops[k as int], targets) {
            let g = Term::Temp(first + needed_before(ops, targets, k));
            lemma_visit_succeeds(ops[k as int], g, targets, st, rules, input);
            let st2 = visit(ops[k as int], g, targets, st, rules, input)->Ok_0;
            lemma_visit_operands_succeed(ops, first, k + 1, targets, st2, rules, input, base);
        } else {
            lemma_visit_operands_succeed(ops, first, k + 1, targets, st, rules, input, base);
        }
    }
}

/// A tree with no empty node, whose every operation has a rule with one
/// template per operand, is differentiated without error whenever the
/// numbering of intermediates has room for one per operand position.
pub proof fn law_well_formed_tree_succeeds(
    n: Node,
    g: Term,
    targets: Seq<Seq<char>>,
    rules: Map<Seq<char>, Seq<Term>>,
    input: Seq<char>,
    next: nat,
)
    requires
        well_formed(n, rules),
        next + positions(n) <= u64::MAX,
    ensures
        solution(n, g, targets, rules, input, next) is Ok,
{
    let st0 = State { levels: seq![], accum: initial_accum(targets), next };
    lemma_visit_succeeds(n, g, distinct(targets), st0, rules, input);
}

} // verus!
