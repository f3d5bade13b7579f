use autodiff::code::Expr;
use autodiff::reader::{BinaryKind, ReadError, Reader, Statement, Syntax, UnaryKind};
use autodiff::solver::Solver;
use autodiff::tree::{Arg, Operation};

fn leaf(s: &str) -> Arg {
    Arg::Terminal(s.to_string())
}

fn op(recv: Arg, m: &str, args: Vec<Arg>) -> Arg {
    Arg::Operation(Box::new(Operation::new(recv, m.to_string(), args)))
}

fn path(s: &str) -> Syntax {
    Syntax::Path(s.to_string())
}

fn bx(s: Syntax) -> Box<Syntax> {
    Box::new(s)
}

fn field(base: &str, member: &str) -> Syntax {
    Syntax::Field(Some(base.to_string()), Some(member.to_string()))
}

fn number(s: &str) -> Syntax {
    Syntax::Literal(Some(s.to_string()))
}

/// `let h = x * &self.weight; h.clamp_min(0)` with parameter `x`.
fn layer_body() -> Vec<Statement> {
    vec![
        Statement::Local(
            Some("h".to_string()),
            Some(Syntax::Binary(
                BinaryKind::Mul,
                bx(path("x")),
                bx(Syntax::Reference(bx(field("self", "weight")))),
            )),
        ),
        Statement::Tail(Syntax::MethodCall(
            bx(path("h")),
            "clamp_min".to_string(),
            vec![number("0")],
        )),
    ]
}

fn read_body(input: &str, body: Vec<Statement>) -> Result<Arg, ReadError> {
    let mut reader = Reader::new();
    reader.fold_pat_type(Some(input.to_string()));
    for s in body {
        reader.fold_stmt(s)?;
    }
    Ok(reader.get_output_arg())
}

#[test]
fn layer_body_becomes_a_tree() {
    let tree = read_body("x", layer_body()).unwrap();
    assert_eq!(
        tree,
        op(
            op(leaf("input"), "mul", vec![leaf("&self.weight")]),
            "clamp_min",
            vec![leaf("0")]
        )
    );
}

#[test]
fn read_tree_differentiates_for_input_and_field() {
    let tree = read_body("x", layer_body()).unwrap();
    let mut solver = Solver::new();
    let out = solver
        .solve(
            tree,
            Expr::Path("output_grad".to_string()),
            vec!["input".to_string(), "self.weight".to_string()],
        )
        .unwrap();
    assert_eq!(out.levels.len(), 2);
    assert_eq!(out.updates.len(), 1);
    assert_eq!(out.updates[0].target, "self.weight");
    assert!(out.result.is_some());
}

#[test]
fn return_statement_sets_the_output() {
    let body = vec![Statement::Semi(Syntax::Return(Some(bx(Syntax::Unary(
        UnaryKind::Neg,
        bx(path("x")),
    )))))];
    let tree = read_body("x", body).unwrap();
    assert_eq!(tree, op(leaf("input"), "neg", vec![]));
}

#[test]
fn parentheses_and_references() {
    let body = vec![Statement::Tail(Syntax::Paren(bx(Syntax::Binary(
        BinaryKind::Sub,
        bx(Syntax::Reference(bx(path("x")))),
        bx(Syntax::Reference(bx(path("b")))),
    ))))];
    let tree = read_body("x", body).unwrap();
    assert_eq!(tree, op(leaf("&input"), "sub", vec![leaf("&b")]));
}

#[test]
fn assignment_rebinds_a_name() {
    let body = vec![
        Statement::Semi(Syntax::Assign(
            bx(path("y")),
            bx(Syntax::Binary(BinaryKind::Div, bx(path("x")), bx(number("2.0")))),
        )),
        Statement::Tail(path("y")),
    ];
    let tree = read_body("x", body).unwrap();
    assert_eq!(tree, op(leaf("input"), "div", vec![leaf("2.0")]));
}

#[test]
fn unsupported_forms_are_refused() {
    let cases = vec![
        (
            Syntax::Binary(BinaryKind::Other, bx(path("a")), bx(path("b"))),
            ReadError::UnsupportedBinary,
        ),
        (
            Syntax::Unary(UnaryKind::Other, bx(path("a"))),
            ReadError::UnsupportedUnary,
        ),
        (Syntax::Literal(None), ReadError::UnsupportedLiteral),
        (
            Syntax::Reference(bx(number("1"))),
            ReadError::UnsupportedReference,
        ),
        (
            Syntax::Field(None, Some("w".to_string())),
            ReadError::UnsupportedField,
        ),
        (
            Syntax::Field(Some("s".to_string()), None),
            ReadError::UnnamedField,
        ),
        (
            Syntax::Assign(
                bx(Syntax::Binary(BinaryKind::Add, bx(path("a")), bx(path("b")))),
                bx(path("c")),
            ),
            ReadError::AssignToExpression,
        ),
        (Syntax::Return(None), ReadError::EmptyOutput),
        (Syntax::Other, ReadError::UnsupportedExpression),
    ];
    for (e, want) in cases {
        let mut reader = Reader::new();
        assert_eq!(reader.fold_expr(e), Err(want));
    }
}

#[test]
fn local_without_a_single_name_is_refused() {
    let mut reader = Reader::new();
    assert_eq!(
        reader.fold_local(None, Some(path("a"))),
        Err(ReadError::UnsupportedLocal)
    );
}

#[test]
fn trailing_return_leaves_no_output() {
    let body = vec![Statement::Tail(Syntax::Return(Some(bx(path("x")))))];
    assert_eq!(read_body("x", body), Err(ReadError::EmptyOutput));
}

#[test]
fn empty_output_is_refused() {
    let mut reader = Reader::new();
    assert_eq!(reader.compile_output(Arg::Empty), Err(ReadError::EmptyOutput));
    assert_eq!(reader.compile_output(leaf("a")), Ok(()));
    assert_eq!(reader.get_output_arg(), leaf("a"));
}

#[test]
fn locals_without_value_and_other_statements() {
    let body = vec![
        Statement::Local(Some("z".to_string()), None),
        Statement::Other,
        Statement::Tail(Syntax::MethodCall(
            bx(field("self", "bias")),
            "add".to_string(),
            vec![path("x")],
        )),
    ];
    let tree = read_body("x", body).unwrap();
    assert_eq!(tree, op(leaf("self.bias"), "add", vec![leaf("input")]));
}
