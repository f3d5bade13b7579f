//! Building the expression tree from the body of a forward function.
//!
//! The reader goes through the statements in order. Local variables are
//! remembered with the tree of their value, so that a later use of the name
//! stands for that tree; the distinguished input parameter is renamed
//! `input`; the trailing expression, or a `return`, gives the output tree.
use crate::tree::{same_text, Arg, Node, Operation};
use vstd::prelude::*;
use vstd::string::*;

verus! {

/// A binary operator of the forward code.
#[derive(PartialEq, Eq, Structural, Clone, Copy, Debug)]
pub enum BinaryKind {
    Add,
    Sub,
    Mul,
    Div,
    Other,
}

/// A unary operator of the forward code.
#[derive(PartialEq, Eq, Structural, Clone, Copy, Debug)]
pub enum UnaryKind {
    Neg,
    Other,
}

/// The forms of a forward expression that the reader tells apart.
#[derive(Debug)]
pub enum Syntax {
    Binary(BinaryKind, Box<Syntax>, Box<Syntax>),
    Unary(UnaryKind, Box<Syntax>),
    Paren(Box<Syntax>),
    Assign(Box<Syntax>, Box<Syntax>),
    /// A literal: its text if it is a number.
    Literal(Option<String>),
    /// A path, by its last segment.
    Path(String),
    Reference(Box<Syntax>),
    /// A field access: the base if it is a single name, the member if it is
    /// named.
    Field(Option<String>, Option<String>),
    MethodCall(Box<Syntax>, String, Vec<Syntax>),
    Return(Option<Box<Syntax>>),
    Other,
}

/// A statement of the forward function's body.
#[derive(Debug)]
pub enum Statement {
    /// `let` with the bound name, if the pattern is a single name, and the
    /// initial value.
    Local(Option<String>, Option<Syntax>),
    /// The trailing expression.
    Tail(Syntax),
    /// An expression statement.
    Semi(Syntax),
    /// Anything else.
    Other,
}

/// Why a forward function cannot be read.
#[derive(PartialEq, Eq, Structural, Clone, Copy, Debug)]
pub enum ReadError {
    UnsupportedBinary,
    UnsupportedUnary,
    UnsupportedLiteral,
    UnsupportedReference,
    UnsupportedField,
    UnnamedField,
    AssignToExpression,
    UnsupportedLocal,
    EmptyOutput,
    UnsupportedExpression,
}

/// Mathematical form of a [`Reader`].
pub struct ReaderModel {
    pub input: Seq<char>,
    pub objects: Map<Seq<char>, Node>,
    pub output: Node,
}

struct Local {
    name: String,
    value: Arg,
}

/// The state of reading one forward function.
pub struct Reader {
    input_name: String,
    objects: Vec<Local>,
    output: Arg,
}

spec fn local_map(ls: Seq<Local>) -> Map<Seq<char>, Node>
    decreases ls.len(),
{
    if ls.len() == 0 {
        Map::empty()
    } else {
        local_map(ls.drop_last()).insert(ls.last().name@, ls.last().value@)
    }
}

proof fn lemma_local_map_lookup(ls: Seq<Local>, m: Seq<char>, k: int)
    requires
        -1 <= k < ls.len(),
        k >= 0 ==> ls[k].name@ == m,
        forall|j: int| k < j < ls.len() ==> (#[trigger] ls[j]).name@ != m,
    ensures
        k >= 0 ==> local_map(ls).contains_key(m) && local_map(ls)[m] == ls[k].value@,
        k < 0 ==> !local_map(ls).contains_key(m),
    decreases ls.len(),
{
    if ls.len() > 0 && k < ls.len() - 1 {
        assert forall|j: int| k < j < ls.drop_last().len() implies (
        #[trigger] ls.drop_last()[j]).name@ != m by {
            assert(ls.drop_last()[j] == ls[j]);
        }
        lemma_local_map_lookup(ls.drop_last(), m, k);
        if k >= 0 {
            assert(ls.drop_last()[k] == ls[k]);
        }
    }
}

/// The operation name of a binary operator.
pub open spec fn binary_name(k: BinaryKind) -> Option<Seq<char>> {
    match k {
        BinaryKind::Add => Some("add"@),
        BinaryKind::Sub => Some("sub"@),
        BinaryKind::Mul => Some("mul"@),
        BinaryKind::Div => Some("div"@),
        BinaryKind::Other => None,
    }
}

/// The name under which a variable enters the tree.
pub open spec fn alias(p: Seq<char>, input: Seq<char>) -> Seq<char> {
    if p == input {
        "input"@
    } else {
        p
    }
}

/// The tree that a path stands for.
pub open spec fn path_node(p: Seq<char>, st: ReaderModel) -> Node {
    if st.objects.contains_key(p) {
        st.objects[p]
    } else {
        Node::Leaf(alias(p, st.input))
    }
}

/// The tree that a borrowed path stands for.
pub open spec fn ref_path_node(p: Seq<char>, st: ReaderModel) -> Node {
    if st.objects.contains_key(p) {
        st.objects[p]
    } else {
        Node::Leaf("&"@ + alias(p, st.input))
    }
}

/// The terminal of a field access, after `prefix`.
pub open spec fn field_node(prefix: Seq<char>, b: Option<String>, m: Option<String>) -> Result<
    Node,
    ReadError,
> {
    match b {
        None => Err(ReadError::UnsupportedField),
        Some(b) => match m {
            None => Err(ReadError::UnnamedField),
            Some(m) => Ok(Node::Leaf(prefix + b@ + "."@ + m@)),
        },
    }
}

/// The tree of expression `e` read in state `st`, and the state after it.
pub open spec fn read(e: Syntax, st: ReaderModel) -> Result<(Node, ReaderModel), ReadError>
    decreases e, 0nat,
{
    match e {
        Syntax::Binary(k, l, r) => match read(*l, st) {
            Err(f) => Err(f),
            Ok((ln, st1)) => match read(*r, st1) {
                Err(f) => Err(f),
                Ok((rn, st2)) => match binary_name(k) {
                    Some(m) => Ok((Node::Op(m, seq![ln, rn]), st2)),
                    None => Err(ReadError::UnsupportedBinary),
                },
            },
        },
        Syntax::Unary(k, x) => match read(*x, st) {
            Err(f) => Err(f),
            Ok((xn, st1)) => if k == UnaryKind::Neg {
                Ok((Node::Op("neg"@, seq![xn]), st1))
            } else {
                Err(ReadError::UnsupportedUnary)
            },
        },
        Syntax::Paren(x) => read(*x, st),
        Syntax::Assign(l, r) => match read(*l, st) {
            Err(f) => Err(f),
            Ok((ln, st1)) => match ln {
                Node::Leaf(name) => match read(*r, st1) {
                    Err(f) => Err(f),
                    Ok((rn, st2)) => Ok(
                        (Node::Empty, ReaderModel { objects: st2.objects.insert(name, rn), ..st2 }),
                    ),
                },
                _ => Err(ReadError::AssignToExpression),
            },
        },
        Syntax::Literal(t) => match t {
            Some(s) => Ok((Node::Leaf(s@), st)),
            None => Err(ReadError::UnsupportedLiteral),
        },
        Syntax::Path(p) => Ok((path_node(p@, st), st)),
        Syntax::Reference(x) => match *x {
            Syntax::Path(p) => Ok((ref_path_node(p@, st), st)),
            Syntax::Field(b, m) => match field_node("&"@, b, m) {
                Ok(n) => Ok((n, st)),
                Err(f) => Err(f),
            },
            _ => Err(ReadError::UnsupportedReference),
        },
        Syntax::Field(b, m) => match field_node(Seq::empty(), b, m) {
            Ok(n) => Ok((n, st)),
            Err(f) => Err(f),
        },
        Syntax::MethodCall(recv, m, args) => match read(*recv, st) {
            Err(f) => Err(f),
            Ok((rn, st1)) => match read_all(args@, 0, st1, seq![rn]) {
                Ok((ns, st2)) => Ok((Node::Op(m@, ns), st2)),
                Err(f) => Err(f),
            },
        },
        Syntax::Return(x) => match x {
            None => Err(ReadError::EmptyOutput),
            Some(x) => match read(*x, st) {
                Err(f) => Err(f),
                Ok((xn, st1)) => if xn is Empty {
                    Err(ReadError::EmptyOutput)
                } else {
                    Ok((Node::Empty, ReaderModel { output: xn, ..st1 }))
                },
            },
        },
        Syntax::Other => Err(ReadError::UnsupportedExpression),
    }
}

/// The trees of `args[k..]` read in order, after `acc`.
pub open spec fn read_all(args: Seq<Syntax>, k: nat, st: ReaderModel, acc: Seq<Node>) -> Result<
    (Seq<Node>, ReaderModel),
    ReadError,
>
    decreases args, args.len() - k,
{
    if k >= args.len() {
        Ok((acc, st))
    } else {
        match read(args[k as int], st) {
            Ok((n, st1)) => read_all(args, k + 1, st1, acc.push(n)),
            Err(f) => Err(f),
        }
    }
}

/// The state after statement `s`.
pub open spec fn read_statement(s: Statement, st: ReaderModel) -> Result<ReaderModel, ReadError> {
    match s {
        Statement::Local(name, init) => match name {
            None => Err(ReadError::UnsupportedLocal),
            Some(name) => match init {
                None => Ok(ReaderModel { objects: st.objects.insert(name@, Node::Empty), ..st }),
                Some(e) => match read(e, st) {
                    Err(f) => Err(f),
                    Ok((n, st1)) => Ok(ReaderModel { objects: st1.objects.insert(name@, n), ..st1 }),
                },
            },
        },
        Statement::Tail(e) => match read(e, st) {
            Err(f) => Err(f),
            Ok((n, st1)) => if n is Empty {
                Err(ReadError::EmptyOutput)
            } else {
                Ok(ReaderModel { output: n, ..st1 })
            },
        },
        Statement::Semi(e) => match read(e, st) {
            Err(f) => Err(f),
            Ok((_, st1)) => Ok(st1),
        },
        Statement::Other => Ok(st),
    }
}

pub open spec fn arg_views(v: Seq<Arg>) -> Seq<Node> {
    Seq::new(v.len(), |i: int| v[i]@)
}

/// An operation node.
fn make_op(recv: Arg, m: String, args: Vec<Arg>) -> (r: Arg)
    ensures
        r@ == Node::Op(m@, seq![recv@] + arg_views(args@)),
{
    let r = Arg::Operation(Box::new(Operation::new(recv, m, args)));
    assert(r@->Op_1 =~= seq![r@->Op_1[0]] + arg_views(args@));
    r
}

impl Reader {
    pub closed spec fn view(&self) -> ReaderModel {
        ReaderModel { input: self.input_name@, objects: local_map(self.objects@), output: self.output@ }
    }

    /// A reader that has read nothing.
    pub fn new() -> (r: Reader)
        ensures
            r@ == (ReaderModel {
                input: Seq::empty(),
                objects: Map::empty(),
                output: Node::Empty,
            }),
    {
        let r = Reader { input_name: String::new(), objects: Vec::new(), output: Arg::Empty };
        assert(r@.input =~= Seq::empty());
        r
    }

    /// The output tree.
    pub fn get_output_arg(self) -> (r: Arg)
        ensures
            r@ == self@.output,
    {
        self.output
    }

    /// A typed parameter: one that is a single name is the distinguished
    /// input.
    pub fn fold_pat_type(&mut self, name: Option<String>)
        ensures
            final(self)@ == (match name {
                Some(n) => ReaderModel { input: n@, ..old(self)@ },
                None => old(self)@,
            }),
    {
        if let Some(n) = name {
            self.input_name = n;
        }
    }

    fn lookup(&self, name: &str) -> (r: Option<Arg>)
        ensures
            match r {
                Some(a) => self@.objects.contains_key(name@) && a@ == self@.objects[name@],
                None => !self@.objects.contains_key(name@),
            },
    {
        let mut i: usize = self.objects.len();
        while i > 0
            invariant
                i <= self.objects@.len(),
                forall|j: int| i <= j < self.objects@.len() ==> (#[trigger] self.objects@[j]).name@ != name@,
            decreases i,
        {
            i -= 1;
            if same_text(self.objects[i].name.as_str(), name) {
                proof {
                    lemma_local_map_lookup(self.objects@, name@, i as int);
                }
                return Some(self.objects[i].value.duplicate());
            }
        }
        proof {
            lemma_local_map_lookup(self.objects@, name@, -1);
        }
        None
    }

    fn bind(&mut self, name: String, value: Arg)
        ensures
            final(self)@ == (ReaderModel { objects: old(self)@.objects.insert(name@, value@), ..old(self)@ }),
    {
        let ghost before = self.objects@;
        self.objects.push(Local { name, value });
        assert(self.objects@.drop_last() =~= before);
    }

    /// The name under which variable `p` enters the tree.
    fn alias_of(&self, p: String) -> (r: String)
        ensures
            r@ == alias(p@, self@.input),
    {
        if same_text(p.as_str(), self.input_name.as_str()) {
            String::from_str("input")
        } else {
            p
        }
    }

    fn read_path(&self, p: String) -> (r: Arg)
        ensures
            r@ == path_node(p@, self@),
    {
        match self.lookup(p.as_str()) {
            Some(a) => a,
            None => Arg::Terminal(self.alias_of(p)),
        }
    }

    fn read_ref_path(&self, p: String) -> (r: Arg)
        ensures
            r@ == ref_path_node(p@, self@),
    {
        match self.lookup(p.as_str()) {
            Some(a) => a,
            None => {
                let mut s = String::from_str("&");
                let name = self.alias_of(p);
                s.append(name.as_str());
                Arg::Terminal(s)
            },
        }
    }

    fn read_field(prefix: &str, b: Option<String>, m: Option<String>) -> (r: Result<Arg, ReadError>)
        ensures
            match field_node(prefix@, b, m) {
                Ok(n) => r is Ok && r->Ok_0@ == n,
                Err(f) => r == Err::<Arg, ReadError>(f),
            },
    {
        match b {
            None => Err(ReadError::UnsupportedField),
            Some(b) => match m {
                None => Err(ReadError::UnnamedField),
                Some(m) => {
                    let mut s = String::from_str(prefix);
                    s.append(b.as_str());
                    s.append(".");
                    s.append(m.as_str());
                    Ok(Arg::Terminal(s))
                },
            },
        }
    }

    /// Reads expression `e`: its tree, with the locals and the output that it
    /// sets.
    pub fn fold_expr(&mut self, e: Syntax) -> (r: Result<Arg, ReadError>)
        ensures
            match read(e, old(self)@) {
                Ok(res) => r is Ok && r->Ok_0@ == res.0 && final(self)@ == res.1,
                Err(f) => r == Err::<Arg, ReadError>(f),
            },
        decreases e,
    {
        let ghost whole = e;
        match e {
            Syntax::Binary(k, l, r) => {
                let left = match self.fold_expr(*l) {
                    Ok(a) => a,
                    Err(f) => {
                        return Err(f);
                    },
                };
                let right = match self.fold_expr(*r) {
                    Ok(a) => a,
                    Err(f) => {
                        return Err(f);
                    },
                };
                let m = match k {
                    BinaryKind::Add => "add",
                    BinaryKind::Sub => "sub",
                    BinaryKind::Mul => "mul",
                    BinaryKind::Div => "div",
                    BinaryKind::Other => {
                        return Err(ReadError::UnsupportedBinary);
                    },
                };
                let mut args: Vec<Arg> = Vec::new();
                args.push(right);
                assert(seq![left@] + arg_views(args@) =~= seq![left@, args@[0]@]);
                Ok(make_op(left, String::from_str(m), args))
            },
            Syntax::Unary(k, x) => {
                let inner = match self.fold_expr(*x) {
                    Ok(a) => a,
                    Err(f) => {
                        return Err(f);
                    },
                };
                match k {
                    UnaryKind::Neg => {
                        let args: Vec<Arg> = Vec::new();
                        assert(seq![inner@] + arg_views(args@) =~= seq![inner@]);
                        Ok(make_op(inner, String::from_str("neg"), args))
                    },
                    UnaryKind::Other => Err(ReadError::UnsupportedUnary),
                }
            },
            Syntax::Paren(x) => self.fold_expr(*x),
            Syntax::Assign(l, r) => {
                let target = match self.fold_expr(*l) {
                    Ok(a) => a,
                    Err(f) => {
                        return Err(f);
                    },
                };
                match target {
                    Arg::Terminal(name) => {
                        let value = match self.fold_expr(*r) {
                            Ok(a) => a,
                            Err(f) => {
                                return Err(f);
                            },
                        };
                        self.bind(name, value);
                        Ok(Arg::Empty)
                    },
                    _ => Err(ReadError::AssignToExpression),
                }
            },
            Syntax::Literal(t) => match t {
                Some(s) => Ok(Arg::Terminal(s)),
                None => Err(ReadError::UnsupportedLiteral),
            },
            Syntax::Path(p) => Ok(self.read_path(p)),
            Syntax::Reference(x) => match *x {
                Syntax::Path(p) => Ok(self.read_ref_path(p)),
                Syntax::Field(b, m) => Reader::read_field("&", b, m),
                _ => Err(ReadError::UnsupportedReference),
            },
            Syntax::Field(b, m) => {
                let r = Reader::read_field("", b, m);
                proof {
                    reveal_strlit("");
                    assert(""@ =~= Seq::<char>::empty());
                }
                r
            },
            Syntax::MethodCall(recv, m, args) => {
                let ghost all = args@;
                let n = args.len();
                let receiver = match self.fold_expr(*recv) {
                    Ok(a) => a,
                    Err(f) => {
                        return Err(f);
                    },
                };
                let ghost st1 = self@;
                let ghost total = read_all(all, 0, st1, seq![receiver@]);
                let mut rest = args;
                let mut out: Vec<Arg> = Vec::new();
                let mut k: usize = 0;
                assert(all.subrange(0, all.len() as int) =~= all);
                #[verifier::loop_isolation(false)]
                while rest.len() > 0
                    invariant
                        all.len() == n,
                        k + rest.len() == all.len(),
                        rest@ == all.subrange(k as int, all.len() as int),
                        total == read_all(all, k as nat, self@, seq![receiver@] + arg_views(out@)),
                    decreases rest.len(),
                {
                    let a = rest.remove(0);
                    assert(a == all[k as int]);
                    assert(rest@ =~= all.subrange(k + 1, all.len() as int));
                    assert(decreases_to!(whole => all[k as int]));
                    match self.fold_expr(a) {
                        Ok(n) => {
                            let ghost before = out@;
                            out.push(n);
                            assert(seq![receiver@] + arg_views(out@) =~= (seq![receiver@]
                                + arg_views(before)).push(n@));
                        },
                        Err(f) => {
                            return Err(f);
                        },
                    }
                    k += 1;
                }
                Ok(make_op(receiver, m, out))
            },
            Syntax::Return(x) => match x {
                None => Err(ReadError::EmptyOutput),
                Some(x) => {
                    let value = match self.fold_expr(*x) {
                        Ok(a) => a,
                        Err(f) => {
                            return Err(f);
                        },
                    };
                    match self.compile_output(value) {
                        Ok(()) => Ok(Arg::Empty),
                        Err(f) => Err(f),
                    }
                },
            },
            Syntax::Other => Err(ReadError::UnsupportedExpression),
        }
    }

    /// Makes `arg` the output tree; an empty tree is refused.
    pub fn compile_output(&mut self, arg: Arg) -> (r: Result<(), ReadError>)
        ensures
            arg is Empty ==> r == Err::<(), ReadError>(ReadError::EmptyOutput),
            !(arg is Empty) ==> r is Ok && final(self)@ == (ReaderModel { output: arg@, ..old(self)@ }),
    {
        if let Arg::Empty = arg {
            return Err(ReadError::EmptyOutput);
        }
        self.output = arg;
        Ok(())
    }

    /// Reads a `let` statement.
    pub fn fold_local(&mut self, name: Option<String>, init: Option<Syntax>) -> (r: Result<(), ReadError>)
        ensures
            match read_statement(Statement::Local(name, init), old(self)@) {
                Ok(st) => r is Ok && final(self)@ == st,
                Err(f) => r == Err::<(), ReadError>(f),
            },
    {
        let name = match name {
            Some(n) => n,
            None => {
                return Err(ReadError::UnsupportedLocal);
            },
        };
        let value = match init {
            Some(e) => match self.fold_expr(e) {
                Ok(a) => a,
                Err(f) => {
                    return Err(f);
                },
            },
            None => Arg::Empty,
        };
        self.bind(name, value);
        Ok(())
    }

    /// Reads a statement of the body.
    pub fn fold_stmt(&mut self, s: Statement) -> (r: Result<(), ReadError>)
        ensures
            match read_statement(s, old(self)@) {
                Ok(st) => r is Ok && final(self)@ == st,
                Err(f) => r == Err::<(), ReadError>(f),
            },
    {
        match s {
            Statement::Local(name, init) => self.fold_local(name, init),
            Statement::Tail(e) => {
                let value = match self.fold_expr(e) {
                    Ok(a) => a,
                    Err(f) => {
                        return Err(f);
                    },
                };
                self.compile_output(value)
            },
            Statement::Semi(e) => match self.fold_expr(e) {
                Ok(_) => Ok(()),
                Err(f) => Err(f),
            },
            Statement::Other => Ok(()),
        }
    }
}

} // verus!
