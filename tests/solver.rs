use autodiff::code::{BinOp, Expr};
use autodiff::error::SolveError;
use autodiff::rules::{start, AutoDiff};
use autodiff::solver::{Backward, Solver};
use autodiff::tree::{same_text, stands_for, Arg, Operation};
use std::collections::HashMap;

fn leaf(s: &str) -> Arg {
    Arg::Terminal(s.to_string())
}

fn op(recv: Arg, m: &str, args: Vec<Arg>) -> Arg {
    Arg::Operation(Box::new(Operation::new(recv, m.to_string(), args)))
}

fn names(v: &[&str]) -> Vec<String> {
    v.iter().map(|s| s.to_string()).collect()
}

fn g() -> Expr {
    Expr::Path("g".to_string())
}

fn sym(o: BinOp) -> &'static str {
    match o {
        BinOp::Add => "+",
        BinOp::Sub => "-",
        BinOp::Mul => "*",
        BinOp::Div => "/",
    }
}

/// The text of `e` inside the scope of level `lvl` of `out`, with every
/// slot and intermediate replaced by what it holds.
fn inline_in(out: &Backward, lvl: Option<usize>, e: &Expr) -> String {
    match e {
        Expr::Grad => {
            let l = &out.levels[lvl.unwrap()];
            let outer = outer_level(out, &l.grad);
            inline_in(out, outer, &l.grad)
        }
        Expr::Operand(i) => {
            let l = &out.levels[lvl.unwrap()];
            let b = l.bindings.iter().find(|b| b.slot == *i).unwrap();
            inline_in(out, None, &b.value)
        }
        Expr::Temp(k) => {
            for (n, l) in out.levels.iter().enumerate() {
                for a in &l.assignments {
                    if a.temp == *k {
                        return inline_in(out, Some(n), &a.value);
                    }
                }
            }
            panic!("unassigned intermediate {}", k)
        }
        Expr::Path(s) => s.clone(),
        Expr::Neg(x) => format!("-{}", inline_in(out, lvl, x)),
        Expr::Ref(x) => format!("&{}", inline_in(out, lvl, x)),
        Expr::Binary(o, a, b) => format!(
            "({} {} {})",
            inline_in(out, lvl, a),
            sym(*o),
            inline_in(out, lvl, b)
        ),
        Expr::Call(r, m, args) => {
            let args: Vec<String> = args.iter().map(|a| inline_in(out, lvl, a)).collect();
            format!("{}.{}({})", inline_in(out, lvl, r), m, args.join(", "))
        }
    }
}

fn outer_level(out: &Backward, grad: &Expr) -> Option<usize> {
    if let Expr::Temp(k) = grad {
        for (n, l) in out.levels.iter().enumerate() {
            if l.assignments.iter().any(|a| a.temp == *k) {
                return Some(n);
            }
        }
    }
    None
}

fn inline(out: &Backward, e: &Expr) -> String {
    inline_in(out, None, e)
}

fn update_of<'a>(out: &'a Backward, target: &str) -> &'a Expr {
    &out.updates.iter().find(|u| u.target == target).unwrap().value
}

/// The number that `e` evaluates to in the scope of level `lvl`, over scalar
/// values: `transpose` is the identity.
fn eval_in(out: &Backward, lvl: Option<usize>, e: &Expr, env: &HashMap<String, f64>) -> f64 {
    match e {
        Expr::Grad => {
            let l = &out.levels[lvl.unwrap()];
            eval_in(out, outer_level(out, &l.grad), &l.grad, env)
        }
        Expr::Operand(i) => {
            let l = &out.levels[lvl.unwrap()];
            let b = l.bindings.iter().find(|b| b.slot == *i).unwrap();
            eval_in(out, None, &b.value, env)
        }
        Expr::Temp(k) => {
            for (n, l) in out.levels.iter().enumerate() {
                for a in &l.assignments {
                    if a.temp == *k {
                        return eval_in(out, Some(n), &a.value, env);
                    }
                }
            }
            panic!("unassigned intermediate {}", k)
        }
        Expr::Path(s) => match env.get(s) {
            Some(v) => *v,
            None => s.parse::<f64>().unwrap(),
        },
        Expr::Neg(x) => -eval_in(out, lvl, x, env),
        Expr::Ref(x) => eval_in(out, lvl, x, env),
        Expr::Binary(o, a, b) => {
            let (a, b) = (eval_in(out, lvl, a, env), eval_in(out, lvl, b, env));
            match o {
                BinOp::Add => a + b,
                BinOp::Sub => a - b,
                BinOp::Mul => a * b,
                BinOp::Div => a / b,
            }
        }
        Expr::Call(r, m, args) => {
            let x = eval_in(out, lvl, r, env);
            let args: Vec<f64> = args.iter().map(|a| eval_in(out, lvl, a, env)).collect();
            match m.as_str() {
                "transpose" | "clone" => x,
                "powi" => x.powi(args[0] as i32),
                "sin" => x.sin(),
                "cos" => x.cos(),
                "tan" => x.tan(),
                "sinh" => x.sinh(),
                "cosh" => x.cosh(),
                "tanh" => x.tanh(),
                "exp" => x.exp(),
                "ln" => x.ln(),
                other => panic!("no numeric meaning for {}", other),
            }
        }
    }
}

/// The forward value of a tree over scalars.
fn forward(a: &Arg, env: &HashMap<String, f64>) -> f64 {
    match a {
        Arg::Empty => panic!("empty node"),
        Arg::Terminal(s) => match env.get(s) {
            Some(v) => *v,
            None => s.parse::<f64>().unwrap(),
        },
        Arg::Operation(o) => {
            let x = forward(&o.receiver, env);
            let ys: Vec<f64> = o.args.iter().map(|y| forward(y, env)).collect();
            match o.method.as_str() {
                "add" => x + ys[0],
                "sub" => x - ys[0],
                "mul" => x * ys[0],
                "div" => x / ys[0],
                "neg" => -x,
                "sin" => x.sin(),
                "cos" => x.cos(),
                "tan" => x.tan(),
                "sinh" => x.sinh(),
                "cosh" => x.cosh(),
                "tanh" => x.tanh(),
                "exp" => x.exp(),
                "ln" => x.ln(),
                other => panic!("no numeric meaning for {}", other),
            }
        }
    }
}

/// The derivative of `build()` with respect to `input` at `x`, from the
/// generated code with upstream gradient 1.
fn generated_derivative(build: &dyn Fn() -> Arg, x: f64) -> f64 {
    let mut solver = Solver::new();
    let out = solver
        .solve(build(), Expr::Path("1".to_string()), names(&["input"]))
        .unwrap();
    let mut env = HashMap::new();
    env.insert("input".to_string(), x);
    eval_in(&out, None, out.result.as_ref().unwrap(), &env)
}

fn finite_difference(build: &dyn Fn() -> Arg, x: f64) -> f64 {
    let h = 1e-6;
    let mut lo = HashMap::new();
    lo.insert("input".to_string(), x - h);
    let mut hi = HashMap::new();
    hi.insert("input".to_string(), x + h);
    (forward(&build(), &hi) - forward(&build(), &lo)) / (2.0 * h)
}

#[test]
fn chain_rule_through_sum_and_product() {
    let tree = op(op(leaf("a"), "add", vec![leaf("b")]), "mul", vec![leaf("c")]);
    let mut solver = Solver::new();
    let out = solver.solve(tree, g(), names(&["a", "b", "c"])).unwrap();
    assert_eq!(out.levels.len(), 2);
    assert_eq!(out.result, None);
    assert_eq!(out.updates.len(), 3);
    assert_eq!(inline(&out, update_of(&out, "a")), "(g * c.transpose())");
    assert_eq!(inline(&out, update_of(&out, "b")), "(g * c.transpose())");
    assert_eq!(inline(&out, update_of(&out, "c")), "((a + b).transpose() * g)");
}

#[test]
fn repeated_use_accumulates_both_contributions() {
    let tree = op(leaf("a"), "mul", vec![leaf("a")]);
    let mut solver = Solver::new();
    let out = solver.solve(tree, g(), names(&["a"])).unwrap();
    let value = update_of(&out, "a");
    assert_eq!(
        *value,
        Expr::Binary(BinOp::Add, Box::new(Expr::Temp(1)), Box::new(Expr::Temp(2)))
    );
    assert_eq!(
        inline(&out, value),
        "((g * a.transpose()) + (a.transpose() * g))"
    );
}

#[test]
fn three_uses_sum_left_to_right() {
    let tree = op(op(leaf("a"), "add", vec![leaf("a")]), "add", vec![leaf("a")]);
    let mut solver = Solver::new();
    let out = solver.solve(tree, g(), names(&["a"])).unwrap();
    let value = update_of(&out, "a");
    assert_eq!(
        *value,
        Expr::Binary(
            BinOp::Add,
            Box::new(Expr::Binary(
                BinOp::Add,
                Box::new(Expr::Temp(3)),
                Box::new(Expr::Temp(4))
            )),
            Box::new(Expr::Temp(2))
        )
    );
}

#[test]
fn unregistered_operation_is_refused() {
    let tree = op(leaf("a"), "frobnicate", vec![]);
    let mut solver = Solver::new();
    let r = solver.solve(tree, g(), names(&["a"]));
    assert_eq!(
        r,
        Err(SolveError::UnsupportedOperation("frobnicate".to_string()))
    );
    let table = AutoDiff::new();
    assert_eq!(
        table.get_expressions("frobnicate"),
        Err(SolveError::UnsupportedOperation("frobnicate".to_string()))
    );
}

#[test]
fn single_use_of_input_returns_its_intermediate() {
    let tree = op(leaf("input"), "mul", vec![leaf("w")]);
    let mut solver = Solver::new();
    let out = solver.solve(tree, g(), names(&["input"])).unwrap();
    assert_eq!(out.result, Some(Expr::Temp(1)));
    assert_eq!(out.levels.len(), 1);
    assert_eq!(out.levels[0].assignments.len(), 1);
    assert_eq!(out.levels[0].assignments[0].temp, 1);
    assert!(out.updates.is_empty());
}

#[test]
fn registered_templates_are_returned_exactly() {
    let mut table = AutoDiff::empty();
    table.add_diff(
        "twice".to_string(),
        vec![Expr::Binary(
            BinOp::Mul,
            Box::new(Expr::Path("2".to_string())),
            Box::new(Expr::Grad),
        )],
    );
    let ts = table.get_expressions("twice").unwrap();
    assert_eq!(ts.len(), 1);
    table.add_diff("twice".to_string(), vec![Expr::Grad, Expr::Grad]);
    assert_eq!(table.get_expressions("twice").unwrap().len(), 2);
    assert!(table.get_expressions("thrice").is_err());
}

#[test]
fn primitive_table_has_one_template_per_operand() {
    let table = AutoDiff::new();
    let arities = [
        ("add", 2),
        ("sub", 2),
        ("mul", 2),
        ("div", 2),
        ("neg", 1),
        ("sin", 1),
        ("cos", 1),
        ("tan", 1),
        ("sinh", 1),
        ("cosh", 1),
        ("tanh", 1),
        ("exp", 1),
        ("ln", 1),
        ("clamp", 3),
        ("clamp_min", 2),
        ("clamp_max", 2),
        ("clone", 1),
    ];
    for (name, k) in arities.iter() {
        assert_eq!(table.get_expressions(name).unwrap().len(), *k, "{}", name);
    }
}

#[test]
fn arithmetic_table_holds_only_the_operators() {
    let table = start();
    assert_eq!(table.get_expressions("mul").unwrap().len(), 2);
    assert_eq!(table.get_expressions("neg").unwrap().len(), 1);
    assert!(table.get_expressions("sin").is_err());
}

#[test]
fn mul_templates_transpose_the_other_operand() {
    let table = AutoDiff::new();
    let ts = table.get_expressions("mul").unwrap();
    assert_eq!(
        ts[0],
        Expr::Binary(
            BinOp::Mul,
            Box::new(Expr::Grad),
            Box::new(Expr::Call(
                Box::new(Expr::Operand(1)),
                "transpose".to_string(),
                vec![]
            ))
        )
    );
}

#[test]
fn empty_root_is_malformed() {
    let mut solver = Solver::new();
    let r = solver.solve(Arg::Empty, g(), names(&["a"]));
    assert_eq!(r, Err(SolveError::MalformedTree));
}

#[test]
fn empty_operand_that_is_read_is_malformed() {
    let tree = op(leaf("a"), "mul", vec![Arg::Empty]);
    let mut solver = Solver::new();
    let r = solver.solve(tree, g(), names(&["a"]));
    assert_eq!(r, Err(SolveError::MalformedTree));
}

#[test]
fn wrong_operand_count_is_refused() {
    let tree = op(leaf("a"), "add", vec![]);
    let mut solver = Solver::new();
    let r = solver.solve(tree, g(), names(&["a"]));
    assert_eq!(r, Err(SolveError::ArityMismatch("add".to_string())));
}

#[test]
fn target_absent_from_tree_gets_no_update() {
    let tree = op(leaf("a"), "sin", vec![]);
    let mut solver = Solver::new();
    let out = solver.solve(tree, g(), names(&["z"])).unwrap();
    assert!(out.levels.len() == 1);
    assert!(out.levels[0].assignments.is_empty());
    assert!(out.updates.is_empty());
    assert_eq!(out.result, None);
}

#[test]
fn borrowed_field_matches_its_target() {
    let tree = op(leaf("&self.weight"), "mul", vec![leaf("input")]);
    let mut solver = Solver::new();
    let out = solver
        .solve(tree, g(), names(&["input", "self.weight"]))
        .unwrap();
    assert_eq!(out.updates.len(), 1);
    assert_eq!(out.updates[0].target, "self.weight");
    assert_eq!(
        inline(&out, &out.updates[0].value),
        "(g * &input.transpose())"
    );
    assert_eq!(
        inline(&out, out.result.as_ref().unwrap()),
        "(&self.weight.transpose() * g)"
    );
}

#[test]
fn input_is_bound_by_reference() {
    let tree = op(leaf("input"), "mul", vec![leaf("w")]);
    let mut solver = Solver::new();
    let out = solver.solve(tree, g(), names(&["w"])).unwrap();
    let b = &out.levels[0].bindings;
    assert_eq!(b.len(), 1);
    assert_eq!(b[0].slot, 0);
    assert_eq!(
        b[0].value,
        Expr::Ref(Box::new(Expr::Path("input".to_string())))
    );
}

#[test]
fn repeated_targets_are_counted_once() {
    let tree = op(leaf("a"), "neg", vec![]);
    let mut solver = Solver::new();
    let out = solver.solve(tree, g(), names(&["a", "a"])).unwrap();
    assert_eq!(out.updates.len(), 1);
    assert_eq!(inline(&out, &out.updates[0].value), "-g");
}

#[test]
fn intermediates_keep_counting_across_requests() {
    let mut solver = Solver::new();
    let first = solver
        .solve(op(leaf("a"), "exp", vec![]), g(), names(&["a"]))
        .unwrap();
    let second = solver
        .solve(op(leaf("a"), "exp", vec![]), g(), names(&["a"]))
        .unwrap();
    assert_eq!(first.updates[0].value, Expr::Temp(1));
    assert_eq!(second.updates[0].value, Expr::Temp(2));
}

#[test]
fn square_plus_one_has_derivative_six_at_three() {
    let build = || {
        op(
            op(leaf("input"), "mul", vec![leaf("input")]),
            "add",
            vec![leaf("1")],
        )
    };
    let mut env = HashMap::new();
    env.insert("input".to_string(), 3.0);
    assert_eq!(forward(&build(), &env), 10.0);
    assert_eq!(generated_derivative(&build, 3.0), 6.0);
}

#[test]
fn primitive_derivatives_match_finite_differences() {
    let unary = [
        "neg", "sin", "cos", "tan", "sinh", "cosh", "tanh", "exp", "ln", "clone",
    ];
    for name in unary.iter() {
        let build = || op(leaf("input"), name, vec![]);
        let x = 0.7;
        let got = generated_derivative(&build, x);
        let want = if *name == "clone" {
            1.0
        } else {
            finite_difference(&build, x)
        };
        assert!((got - want).abs() < 1e-5, "{}: {} vs {}", name, got, want);
    }
    let binary = ["add", "sub", "mul", "div"];
    for name in binary.iter() {
        let left = || op(leaf("input"), name, vec![leaf("1.5")]);
        let right = || op(leaf("1.5"), name, vec![leaf("input")]);
        for build in [&left as &dyn Fn() -> Arg, &right].iter() {
            let got = generated_derivative(*build, 0.7);
            let want = finite_difference(*build, 0.7);
            assert!((got - want).abs() < 1e-5, "{}: {} vs {}", name, got, want);
        }
    }
}

#[test]
fn nested_operands_are_written_with_their_own_grouping() {
    let tree = op(
        leaf("c"),
        "mul",
        vec![op(leaf("a"), "add", vec![leaf("b")])],
    );
    let mut solver = Solver::new();
    let out = solver.solve(tree, g(), names(&["c"])).unwrap();
    assert_eq!(
        inline(&out, update_of(&out, "c")),
        "(g * (a + b).transpose())"
    );
}

#[test]
fn take_leaves_an_empty_node() {
    let mut a = leaf("x");
    let b = a.take();
    assert_eq!(a, Arg::Empty);
    assert_eq!(b, leaf("x"));
    assert_eq!(Arg::default(), Arg::Empty);
}

#[test]
fn forward_code_of_a_tree() {
    let tree = op(
        op(leaf("input"), "neg", vec![]),
        "clamp",
        vec![leaf("0"), leaf("&self.max")],
    );
    let e = tree.to_expr("input").unwrap();
    assert_eq!(
        e,
        Expr::Call(
            Box::new(Expr::Neg(Box::new(Expr::Ref(Box::new(Expr::Path(
                "input".to_string()
            )))))),
            "clamp".to_string(),
            vec![
                Expr::Path("0".to_string()),
                Expr::Path("&self.max".to_string())
            ]
        )
    );
    assert_eq!(op(leaf("a"), "add", vec![Arg::Empty]).to_expr("input"), None);
}

#[test]
fn names_match_without_borrows() {
    assert!(stands_for("&self.weight", "self.weight"));
    assert!(stands_for("input", "input"));
    assert!(!stands_for("ab", "a"));
    assert!(!stands_for("a", "ab"));
    assert!(same_text("mul", "mul"));
    assert!(!same_text("mul", "mu"));
}

#[test]
fn tree_text_for_diagnostics() {
    let tree = op(op(leaf("a"), "add", vec![leaf("b")]), "mul", vec![leaf("&c")]);
    assert_eq!(tree.to_text(), "mul(add(a, b), &c)");
    assert_eq!(op(leaf("x"), "neg", vec![]).to_text(), "neg(x)");
    assert_eq!(Arg::Empty.to_text(), "");
}

#[test]
fn single_deep_use_of_input_returns_the_innermost_intermediate() {
    let tree = op(op(leaf("input"), "mul", vec![leaf("w")]), "sin", vec![]);
    let mut solver = Solver::new();
    let out = solver.solve(tree, g(), names(&["input"])).unwrap();
    assert_eq!(out.levels.len(), 2);
    assert_eq!(out.levels[1].grad, Expr::Temp(1));
    assert_eq!(out.levels[1].assignments[0].temp, 2);
    assert_eq!(out.result, Some(Expr::Temp(2)));
    assert_eq!(
        inline(&out, out.result.as_ref().unwrap()),
        "((g * (&input * w).cos()) * w.transpose())"
    );
}
