//! The reducer: from the syntax tree to typed expressions and constraints.

use crate::column::ColumnSet;
use crate::compiler::common::{witness, Arity, Form, FuncVerifier, Handle, HandleView};
use crate::compiler::definitions::{Symbol, SymbolTable};
use crate::compiler::eval::pure_value;
use crate::compiler::node::{
    all_evaluable, evaluable, evaluable_from,
    clone_handles, clone_indices, clone_nodes, const_type, handle_views, handle_with,
    handle_with_id, handles_with, handles_with_ids, node_view, node_views, type_of, types_of,
    with_ids, Expression, ExpressionView, Kind, KindView, Node, NodeView,
};
use crate::compiler::parser::{Ast, AstNode, Token};
use crate::text::{push_char, push_decimal};
use vstd::string::*;
use crate::compiler::types::{Magma, Type};
use crate::errors::Error;
use crate::integer::Integer;
use std::rc::Rc;
use vstd::prelude::*;

verus! {

/// Another handle on a shared syntax tree.
///
/// Trusted: the body is `Rc::clone`, which the standard library documents
/// as making another pointer to the same allocation; the contract claims
/// that what it points to is the same value.
#[verifier::external_body]
pub(crate) fn share(body: &Rc<AstNode>) -> (r: Rc<AstNode>)
    ensures
        r == *body,
{
    Rc::clone(body)
}

/// A copy of the strings of `v`.
pub fn clone_strings(v: &Vec<String>) -> (r: Vec<String>)
    ensures
        r@ == v@,
{
    let mut r: Vec<String> = Vec::new();
    let mut i: usize = 0;
    while i < v.len()
        invariant
            i <= v.len(),
            r@ == v@.take(i as int),
        decreases v.len() - i,
    {
        r.push(v[i].clone());
        i = i + 1;
    }
    assert(v@.take(i as int) =~= v@);
    r
}

/// A function defined in the source.
pub struct Defined {
    /// Whether the body may only read its parameters and constants.
    pub pure: bool,
    /// The names of the parameters.
    pub args: Vec<String>,
    /// The body.
    pub body: Rc<AstNode>,
}

/// What a callable is.
pub enum FunctionClass {
    UserDefined(Defined),
    SpecialForm(Form),
    Builtin(Builtin),
    Alias(String),
}

/// A callable, under the handle it was defined with.
pub struct Function {
    pub handle: Handle,
    pub class: FunctionClass,
}

/// The mathematical content of a [`FunctionClass`].
pub enum FunctionClassView {
    UserDefined { pure: bool, args: Seq<String>, body: AstNode },
    SpecialForm(Form),
    Builtin(Builtin),
    Alias(Seq<char>),
}

/// The mathematical content of a [`Function`].
pub struct FunctionView {
    pub handle: HandleView,
    pub class: FunctionClassView,
}

impl View for Function {
    type V = FunctionView;

    open spec fn view(&self) -> FunctionView {
        FunctionView {
            handle: self.handle@,
            class: match self.class {
                FunctionClass::UserDefined(d) => FunctionClassView::UserDefined {
                    pure: d.pure,
                    args: d.args@,
                    body: *d.body,
                },
                FunctionClass::SpecialForm(f) => FunctionClassView::SpecialForm(f),
                FunctionClass::Builtin(b) => FunctionClassView::Builtin(b),
                FunctionClass::Alias(to) => FunctionClassView::Alias(to@),
            },
        }
    }
}

impl Clone for Function {
    fn clone(&self) -> (r: Function)
        ensures
            r@ == self@,
    {
        let class = match &self.class {
            FunctionClass::UserDefined(d) => FunctionClass::UserDefined(
                Defined { pure: d.pure, args: clone_strings(&d.args), body: share(&d.body) },
            ),
            FunctionClass::SpecialForm(f) => FunctionClass::SpecialForm(*f),
            FunctionClass::Builtin(b) => FunctionClass::Builtin(*b),
            FunctionClass::Alias(to) => FunctionClass::Alias(to.clone()),
        };
        Function { handle: self.handle.clone(), class }
    }
}

/// The primitive operations.
#[derive(Debug, Clone, Copy, PartialEq, Eq, Structural)]
pub enum Builtin {
    Add,
    Sub,
    Mul,
    Exp,
    Shift,
    Neg,
    Inv,
    Not,
    Nth,
    Len,
    Eq,
    Begin,
    IfZero,
    IfNotZero,
}

impl Builtin {
    /// Whether the operation is one of those under which zero and one do not
    /// stay zero or one.
    pub open spec fn promotes(self) -> bool {
        self == Builtin::Add || self == Builtin::Sub || self == Builtin::Neg || self
            == Builtin::Inv
    }

    /// The type of the application of the operation to arguments of the
    /// given types. Its magma is the join of the magmas of all the
    /// arguments, but that sums, differences, opposites and inverses of
    /// booleans are integers. Its scale is that of the join of the
    /// arguments; for a power, a shift and an element of an array that of
    /// the first argument; for a conditional that of its branches; a length
    /// is a scalar and a sequence a list.
    pub open spec fn typing_spec(self, ts: Seq<Type>) -> Type {
        let m = Type::join_all(ts).magma_spec();
        match self {
            Builtin::Add | Builtin::Sub | Builtin::Neg | Builtin::Inv => {
                match Type::join_all(ts) {
                    Type::Scalar(Magma::Boolean) => Type::Scalar(Magma::Integer),
                    Type::Column(Magma::Boolean) => Type::Column(Magma::Integer),
                    x => x,
                }
            },
            Builtin::Exp | Builtin::Shift | Builtin::Nth => if ts.len() > 0 {
                ts[0].with_magma(m)
            } else {
                Type::join_all(ts)
            },
            Builtin::Eq | Builtin::Mul | Builtin::Not => Type::join_all(ts),
            Builtin::IfZero | Builtin::IfNotZero => if ts.len() > 2 {
                ts[1].join(ts[2]).with_magma(m)
            } else if ts.len() > 1 {
                ts[1].with_magma(m)
            } else {
                Type::join_all(ts)
            },
            Builtin::Begin => Type::List(m),
            Builtin::Len => Type::Scalar(m),
        }
    }

    /// The arity of the operation.
    pub open spec fn arity_of(self) -> Arity {
        match self {
            Builtin::Add => Arity::AtLeast(2),
            Builtin::Sub => Arity::AtLeast(2),
            Builtin::Mul => Arity::AtLeast(2),
            Builtin::Exp => Arity::Exactly(2),
            Builtin::Eq => Arity::Exactly(2),
            Builtin::Neg => Arity::Monadic,
            Builtin::Inv => Arity::Monadic,
            Builtin::Not => Arity::Monadic,
            Builtin::Len => Arity::Monadic,
            Builtin::Shift => Arity::Dyadic,
            Builtin::Begin => Arity::AtLeast(1),
            Builtin::IfZero => Arity::Between(2, 3),
            Builtin::IfNotZero => Arity::Between(2, 3),
            Builtin::Nth => Arity::Dyadic,
        }
    }

    /// The type promotion rule. The application of an operation to values
    /// has the join of the magmas of all its arguments, that of integers as
    /// soon as one argument has it; but a sum, a difference, an opposite and
    /// an inverse are integers even of booleans.
    pub proof fn lemma_typing_magma(self, ts: Seq<Type>)
        requires
            forall|i: int| 0 <= i < ts.len() ==> (#[trigger] ts[i]).is_value_spec(),
        ensures
            self.promotes() ==> self.typing_spec(ts).magma_spec() == Magma::Integer,
            !self.promotes() ==> self.typing_spec(ts).magma_spec() == Type::join_all(
                ts,
            ).magma_spec(),
            Type::join_all(ts).magma_spec() == Magma::Boolean <==> forall|i: int|
                0 <= i < ts.len() ==> (#[trigger] ts[i]).magma_spec() == Magma::Boolean,
    {
        Type::lemma_join_all_magma(ts);
        if ts.len() > 0 {
            assert(ts[0].is_value_spec());
        }
        if ts.len() > 1 {
            assert(ts[1].is_value_spec());
        }
        if ts.len() > 2 {
            assert(ts[2].is_value_spec());
        }
    }

    /// The type of the application of the operation to arguments of the
    /// given types.
    pub fn typing(&self, argtype: &[Type]) -> (r: Type)
        ensures
            r == self.typing_spec(argtype@),
    {
        match self {
            Builtin::Add | Builtin::Sub | Builtin::Neg | Builtin::Inv => {
                match Type::max_all(argtype) {
                    Type::Scalar(Magma::Boolean) => Type::Scalar(Magma::Integer),
                    Type::Column(Magma::Boolean) => Type::Column(Magma::Integer),
                    x => x,
                }
            },
            Builtin::Exp | Builtin::Shift | Builtin::Nth => if argtype.len() > 0 {
                argtype[0].same_scale(Type::max_all(argtype).magma())
            } else {
                Type::max_all(argtype)
            },
            Builtin::Eq | Builtin::Mul | Builtin::Not => Type::max_all(argtype),
            Builtin::IfZero | Builtin::IfNotZero => if argtype.len() > 2 {
                argtype[1].max(&argtype[2]).same_scale(Type::max_all(argtype).magma())
            } else if argtype.len() > 1 {
                argtype[1].same_scale(Type::max_all(argtype).magma())
            } else {
                Type::max_all(argtype)
            },
            Builtin::Begin => Type::List(Type::max_all(argtype).magma()),
            Builtin::Len => Type::Scalar(Type::max_all(argtype).magma()),
        }
    }
}

/// What the compiler is asked to do beyond compiling.
pub struct CompileSettings {
    /// Whether `debug` forms are compiled rather than dropped.
    pub debug: bool,
    /// Whether a column may be declared twice.
    pub allow_dups: bool,
}

/// Whether a form is a list of two forms of which the first is a symbol.
pub open spec fn is_binding(e: AstNode) -> bool {
    e.class matches Token::List(pair) && pair@.len() == 2 && pair@[0].class is Symbol
}

impl FuncVerifier<AstNode> for Form {
    open spec fn arity_spec(&self) -> Arity {
        match self {
            Form::For => Arity::Exactly(3),
            Form::Debug => Arity::AtLeast(1),
            Form::Let => Arity::Exactly(2),
        }
    }

    open spec fn accepts(&self, args: Seq<AstNode>) -> bool {
        match self {
            Form::For => args[0].class is Symbol && args[1].class is Range && args[2].class is List,
            Form::Debug => true,
            Form::Let => args[0].class matches Token::List(pairs) && forall|i: int|
                0 <= i < pairs@.len() ==> is_binding(#[trigger] pairs@[i]),
        }
    }

    fn arity(&self) -> (a: Arity) {
        match self {
            Form::For => Arity::Exactly(3),
            Form::Debug => Arity::AtLeast(1),
            Form::Let => Arity::Exactly(2),
        }
    }

    fn validate_types(&self, args: &[AstNode]) -> (r: Result<(), Error>) {
        match self {
            Form::For => {
                if matches!(args[0].class, Token::Symbol(_)) && matches!(
                    args[1].class,
                    Token::Range(_)
                ) && matches!(args[2].class, Token::List(_)) {
                    Ok(())
                } else {
                    Err(Error::TypeMismatch)
                }
            },
            Form::Debug => Ok(()),
            Form::Let => {
                match &args[0].class {
                    Token::List(pairs) => {
                        let mut i: usize = 0;
                        while i < pairs.len()
                            invariant
                                i <= pairs.len(),
                                args@.len() > 0,
                                args@[0].class == Token::List(*pairs),
                                *self == Form::Let,
                                forall|j: int| 0 <= j < i ==> is_binding(#[trigger] pairs@[j]),
                            decreases pairs.len() - i,
                        {
                            let ok = match &pairs[i].class {
                                Token::List(pair) => pair.len() == 2 && matches!(
                                    pair[0].class,
                                    Token::Symbol(_)
                                ),
                                _ => false,
                            };
                            if !ok {
                                assert(!is_binding(pairs@[i as int]));
                                assert(args@[0].class->List_0 == *pairs);
                                assert(!(forall|j: int|
                                    0 <= j < pairs@.len() ==> is_binding(#[trigger] pairs@[j])));
                                assert(!self.accepts(args@));
                                return Err(Error::TypeMismatch);
                            }
                            i = i + 1;
                        }
                        Ok(())
                    },
                    _ => Err(Error::TypeMismatch),
                }
            },
        }
    }
}

impl FuncVerifier<Node> for Defined {
    open spec fn arity_spec(&self) -> Arity {
        Arity::Exactly(self.args@.len() as usize)
    }

    open spec fn accepts(&self, args: Seq<Node>) -> bool {
        true
    }

    fn arity(&self) -> (a: Arity) {
        Arity::Exactly(self.args.len())
    }

    fn validate_types(&self, args: &[Node]) -> (r: Result<(), Error>) {
        Ok(())
    }
}

/// Whether all the nodes of `args` hold one value per row or one value in
/// all.
pub open spec fn all_values(args: Seq<Node>) -> bool {
    forall|i: int| 0 <= i < args.len() ==> type_of((#[trigger] args[i])@).is_value_spec()
}

fn check_all_values(args: &[Node]) -> (r: bool)
    ensures
        r == all_values(args@),
{
    let mut i: usize = 0;
    while i < args.len()
        invariant
            i <= args.len(),
            forall|j: int| 0 <= j < i ==> type_of((#[trigger] args@[j])@).is_value_spec(),
        decreases args.len() - i,
    {
        if !args[i].t().is_value() {
            return false;
        }
        i = i + 1;
    }
    true
}

impl FuncVerifier<Node> for Builtin {
    open spec fn arity_spec(&self) -> Arity {
        self.arity_of()
    }

    open spec fn accepts(&self, args: Seq<Node>) -> bool {
        match self {
            Builtin::Add | Builtin::Sub | Builtin::Mul | Builtin::Eq | Builtin::Neg
            | Builtin::Inv => all_values(args),
            Builtin::Exp => type_of(args[0]@).is_value_spec() && type_of(args[1]@) is Scalar,
            Builtin::Not => type_of(args[0]@).is_bool_spec(),
            Builtin::Shift => type_of(args[0]@) is Column && type_of(args[1]@) is Scalar,
            Builtin::Nth => args[0]._e is ArrayColumn && (args[1]._e matches Expression::Const(x, _)
                && x@ >= 0),
            Builtin::Len => args[0]._e is ArrayColumn,
            Builtin::IfZero | Builtin::IfNotZero => !(args[0]._e is List),
            Builtin::Begin => true,
        }
    }

    fn arity(&self) -> (a: Arity) {
        match self {
            Builtin::Add => Arity::AtLeast(2),
            Builtin::Sub => Arity::AtLeast(2),
            Builtin::Mul => Arity::AtLeast(2),
            Builtin::Exp => Arity::Exactly(2),
            Builtin::Eq => Arity::Exactly(2),
            Builtin::Neg => Arity::Monadic,
            Builtin::Inv => Arity::Monadic,
            Builtin::Not => Arity::Monadic,
            Builtin::Len => Arity::Monadic,
            Builtin::Shift => Arity::Dyadic,
            Builtin::Begin => Arity::AtLeast(1),
            Builtin::IfZero => Arity::Between(2, 3),
            Builtin::IfNotZero => Arity::Between(2, 3),
            Builtin::Nth => Arity::Dyadic,
        }
    }

    fn validate_types(&self, args: &[Node]) -> (r: Result<(), Error>) {
        let ok = match self {
            Builtin::Add | Builtin::Sub | Builtin::Mul | Builtin::Eq | Builtin::Neg
            | Builtin::Inv => check_all_values(args),
            Builtin::Exp => args[0].t().is_value() && args[1].t().is_scalar(),
            Builtin::Not => args[0].t().is_bool(),
            Builtin::Shift => args[0].t().is_column() && args[1].t().is_scalar(),
            Builtin::Nth => {
                let array = matches!(args[0]._e, Expression::ArrayColumn(_, _));
                let index = match &args[1]._e {
                    Expression::Const(x, _) => !x.is_negative(),
                    _ => false,
                };
                array && index
            },
            Builtin::Len => matches!(args[0]._e, Expression::ArrayColumn(_, _)),
            Builtin::IfZero | Builtin::IfNotZero => !matches!(args[0]._e, Expression::List(_)),
            Builtin::Begin => true,
        };
        if ok {
            Ok(())
        } else {
            Err(Error::TypeMismatch)
        }
    }
}

impl Builtin {
    /// The name of the operation in the source.
    pub open spec fn name_spec(self) -> Seq<char> {
        match self {
            Builtin::Eq => "eq"@,
            Builtin::Add => "+"@,
            Builtin::Sub => "-"@,
            Builtin::Mul => "*"@,
            Builtin::Exp => "^"@,
            Builtin::Shift => "shift"@,
            Builtin::Neg => "neg"@,
            Builtin::Inv => "inv"@,
            Builtin::Not => "not"@,
            Builtin::Nth => "nth"@,
            Builtin::Len => "len"@,
            Builtin::Begin => "begin"@,
            Builtin::IfZero => "if-zero"@,
            Builtin::IfNotZero => "if-not-zero"@,
        }
    }

    /// The name of the operation in the source.
    pub fn name(&self) -> (r: &'static str)
        ensures
            r@ == self.name_spec(),
    {
        match self {
            Builtin::Eq => "eq",
            Builtin::Add => "+",
            Builtin::Sub => "-",
            Builtin::Mul => "*",
            Builtin::Exp => "^",
            Builtin::Shift => "shift",
            Builtin::Neg => "neg",
            Builtin::Inv => "inv",
            Builtin::Not => "not",
            Builtin::Nth => "nth",
            Builtin::Len => "len",
            Builtin::Begin => "begin",
            Builtin::IfZero => "if-zero",
            Builtin::IfNotZero => "if-not-zero",
        }
    }

    /// The application of the operation to `args`.
    pub fn raw_call(self, args: &Vec<Node>) -> (r: Expression)
        ensures
            r@ == (ExpressionView::Funcall { func: self, args: node_views(args@) }),
    {
        Expression::Funcall { func: self, args: clone_nodes(args) }
    }

    /// The application of the operation to `args`, as a node whose type is
    /// left to be computed.
    pub fn call(self, args: &Vec<Node>) -> (r: Node)
        ensures
            r@ == call_view(self, node_views(args@)),
    {
        Node::from_expr(self.raw_call(args))
    }
}

/// The application of `func` to `args`, as a node whose type is left to be
/// computed.
pub open spec fn call_view(func: Builtin, args: Seq<NodeView>) -> NodeView {
    NodeView { e: ExpressionView::Funcall { func, args }, t: None }
}

/// The nodes of `args[k..]`, with those of each list among them in the
/// place of the list.
pub open spec fn flattened(args: Seq<NodeView>, k: int) -> Seq<NodeView>
    decreases args.len() - k,
{
    if k < 0 || k >= args.len() {
        Seq::empty()
    } else {
        (match args[k].e {
            ExpressionView::List(es) => es,
            _ => seq![args[k]],
        }) + flattened(args, k + 1)
    }
}

/// Whether every node of `args` is a constant.
pub open spec fn all_constants(args: Seq<NodeView>) -> bool {
    forall|i: int| 0 <= i < args.len() ==> (#[trigger] args[i]).e is Const
}

/// The constant `x`, as a node of type `t`.
pub open spec fn constant_view(x: int, t: Type) -> NodeView {
    NodeView {
        e: ExpressionView::Const(
            x,
            if 0 <= x < crate::field::modulus() {
                Some(x as nat)
            } else {
                None
            },
        ),
        t: Some(t),
    }
}

/// The constant one, as a node.
pub open spec fn one_view() -> NodeView {
    NodeView { e: ExpressionView::Const(1, Some(1)), t: Some(Type::Scalar(Magma::Boolean)) }
}

/// What the application of the operation `b`, which is not `nth`, to the
/// arguments `args` is lowered to. The arguments are of the right number
/// and kind.
///
/// Sums, differences, products and opposites of constants are computed on
/// the spot. `not`, `eq` and `len` are rewritten, `begin` is flattened, and
/// every other application is kept as it is.
pub open spec fn lowered(b: Builtin, args: Seq<NodeView>) -> NodeView {
    match b {
        Builtin::Begin => NodeView {
            e: ExpressionView::List(flattened(args, 0)),
            t: Some(Type::join_all(types_of(args))),
        },
        Builtin::Add | Builtin::Sub | Builtin::Mul | Builtin::Neg => {
            match pure_value(call_view(b, args)) {
                Some(v) => if all_constants(args) {
                    constant_view(v, b.typing_spec(types_of(args)))
                } else {
                    call_view(b, args)
                },
                None => call_view(b, args),
            }
        },
        Builtin::Not => call_view(Builtin::Sub, seq![one_view(), args[0]]),
        Builtin::Eq => if type_of(args[0]).is_bool_spec() && type_of(args[1]).is_bool_spec() {
            NodeView {
                e: ExpressionView::Funcall {
                    func: Builtin::Mul,
                    args: seq![
                        call_view(Builtin::Sub, seq![args[0], args[1]]),
                        call_view(Builtin::Sub, seq![args[0], args[1]]),
                    ],
                },
                t: Some(type_of(args[0]).with_magma(Magma::Boolean)),
            }
        } else {
            call_view(Builtin::Sub, seq![args[0], args[1]])
        },
        Builtin::Len => match args[0].e {
            ExpressionView::ArrayColumn(_, range) => constant_view(
                range.len() as int,
                const_type(range.len() as int),
            ),
            _ => call_view(b, args),
        },
        _ => call_view(b, args),
    }
}

fn flatten(args: &Vec<Node>) -> (r: Vec<Node>)
    ensures
        node_views(r@) == flattened(node_views(args@), 0),
{
    let ghost views = node_views(args@);
    let mut out: Vec<Node> = Vec::new();
    let mut i: usize = 0;
    proof {
        assert(node_views(out@) + flattened(views, 0) =~= flattened(views, 0));
    }
    while i < args.len()
        invariant
            i <= args.len(),
            views == node_views(args@),
            node_views(out@) + flattened(views, i as int) == flattened(views, 0),
        decreases args.len() - i,
    {
        let ghost before = node_views(out@);
        match &args[i]._e {
            Expression::List(es) => {
                let mut copies = clone_nodes(es);
                let ghost added = node_views(copies@);
                out.append(&mut copies);
                proof {
                    assert(node_views(out@) =~= before + added);
                    assert(views[i as int].e == ExpressionView::List(added));
                    assert((before + added) + flattened(views, i + 1) =~= before + (added
                        + flattened(views, i + 1)));
                }
            },
            _ => {
                let copy = args[i].clone();
                out.push(copy);
                proof {
                    assert(node_views(out@) =~= before + seq![views[i as int]]);
                    assert((before + seq![views[i as int]]) + flattened(views, i + 1) =~= before
                        + (seq![views[i as int]] + flattened(views, i + 1)));
                }
            },
        }
        i = i + 1;
    }
    proof {
        assert(node_views(out@) + Seq::<NodeView>::empty() =~= node_views(out@));
    }
    out
}

fn check_all_constants(args: &Vec<Node>) -> (r: bool)
    ensures
        r == all_constants(node_views(args@)),
{
    let mut i: usize = 0;
    while i < args.len()
        invariant
            i <= args.len(),
            forall|j: int| 0 <= j < i ==> (#[trigger] node_views(args@)[j]).e is Const,
        decreases args.len() - i,
    {
        if !matches!(args[i]._e, Expression::Const(_, _)) {
            assert(!(node_views(args@)[i as int].e is Const));
            return false;
        }
        i = i + 1;
    }
    true
}

/// The constant `x`, as a node of type `t`.
pub fn constant(x: Integer, t: Type) -> (r: Node)
    ensures
        r@ == constant_view(x@, t),
{
    let fr = x.to_field();
    Node { _e: Expression::Const(x, fr), _t: Some(t) }
}

/// Lowers the application of the operation `b`, which is not `nth`, to
/// the arguments `args`, which are of the right number and kind.
pub fn lower(b: Builtin, args: Vec<Node>) -> (r: Node)
    requires
        b != Builtin::Nth,
        b.arity_of().admits(args@.len()),
        b.accepts(args@),
    ensures
        r@ == lowered(b, node_views(args@)),
{
    let ghost views = node_views(args@);
    match b {
        Builtin::Begin => {
            let ts = Node::types(&args);
            let t = Type::max_all(ts.as_slice());
            Node { _e: Expression::List(flatten(&args)), _t: Some(t) }
        },
        Builtin::Add | Builtin::Sub | Builtin::Mul | Builtin::Neg => {
            let node = b.call(&args);
            if check_all_constants(&args) {
                match node.pure_eval() {
                    Ok(v) => {
                        let ts = Node::types(&args);
                        constant(v, b.typing(ts.as_slice()))
                    },
                    Err(_) => node,
                }
            } else {
                node
            }
        },
        Builtin::Not => {
            let mut operands: Vec<Node> = Vec::new();
            operands.push(Node::one());
            operands.push(args[0].clone());
            let r = Builtin::Sub.call(&operands);
            assert(node_views(operands@) =~= seq![one_view(), views[0]]);
            r
        },
        Builtin::Eq => {
            let mut operands: Vec<Node> = Vec::new();
            operands.push(args[0].clone());
            operands.push(args[1].clone());
            assert(node_views(operands@) =~= seq![views[0], views[1]]);
            if args[0].t().is_bool() && args[1].t().is_bool() {
                let mut factors: Vec<Node> = Vec::new();
                factors.push(Builtin::Sub.call(&operands));
                factors.push(Builtin::Sub.call(&operands));
                assert(node_views(factors@) =~= seq![
                    call_view(Builtin::Sub, seq![views[0], views[1]]),
                    call_view(Builtin::Sub, seq![views[0], views[1]]),
                ]);
                Node {
                    _e: Expression::Funcall { func: Builtin::Mul, args: factors },
                    _t: Some(args[0].t().same_scale(Magma::Boolean)),
                }
            } else {
                Builtin::Sub.call(&operands)
            }
        },
        Builtin::Len => {
            match &args[0]._e {
                Expression::ArrayColumn(_, range) => {
                    let n = Integer::from_usize(range.len());
                    let t = if n.is_zero() || n.is_one() {
                        Type::Scalar(Magma::Boolean)
                    } else {
                        Type::Scalar(Magma::Integer)
                    };
                    constant(n, t)
                },
                _ => b.call(&args),
            }
        },
        _ => b.call(&args),
    }
}

/// What a valid trace must satisfy.
pub enum Constraint {
    /// `expr` is zero on every row, or on the rows of `domain` where it is
    /// given; there a negative row counts from the end.
    Vanishes { handle: Handle, domain: Option<Vec<isize>>, expr: Box<Node> },
    /// Every row of the second list of expressions occurs among the rows of
    /// the first.
    Plookup(Handle, Vec<Node>, Vec<Node>),
    /// The second columns hold the rows of the first, sorted.
    Permutation(Handle, Vec<Handle>, Vec<Handle>),
    /// On every row the expression is less than the bound.
    InRange(Handle, Node, usize),
}

/// The mathematical content of a [`Constraint`].
pub enum ConstraintView {
    Vanishes { handle: HandleView, domain: Option<Seq<isize>>, expr: NodeView },
    Plookup(HandleView, Seq<NodeView>, Seq<NodeView>),
    Permutation(HandleView, Seq<HandleView>, Seq<HandleView>),
    InRange(HandleView, NodeView, usize),
}

impl View for Constraint {
    type V = ConstraintView;

    open spec fn view(&self) -> ConstraintView {
        match *self {
            Constraint::Vanishes { handle, domain, expr } => ConstraintView::Vanishes {
                handle: handle@,
                domain: match domain {
                    Some(d) => Some(d@),
                    None => None,
                },
                expr: expr@,
            },
            Constraint::Plookup(h, parents, children) => ConstraintView::Plookup(
                h@,
                node_views(parents@),
                node_views(children@),
            ),
            Constraint::Permutation(h, froms, tos) => ConstraintView::Permutation(
                h@,
                handle_views(froms@),
                handle_views(tos@),
            ),
            Constraint::InRange(h, e, bound) => ConstraintView::InRange(h@, e@, bound),
        }
    }
}

/// The nodes of `ns`, each with the ids that `cs` gives.
pub fn nodes_with_ids(ns: Vec<Node>, cs: &ColumnSet) -> (r: Vec<Node>)
    ensures
        node_views(r@) == crate::compiler::node::all_with_ids(node_views(ns@), *cs),
{
    let ghost views = node_views(ns@);
    let mut ns = ns;
    let mut i: usize = 0;
    while i < ns.len()
        invariant
            i <= ns.len(),
            ns@.len() == views.len(),
            forall|j: int| 0 <= j < i ==> node_view(#[trigger] ns@[j]) == with_ids(views[j], *cs),
            forall|j: int| i <= j < ns@.len() ==> node_view(#[trigger] ns@[j]) == views[j],
        decreases ns.len() - i,
    {
        let mut x = Node { _e: Expression::Void, _t: None };
        core::mem::swap(&mut ns[i], &mut x);
        x.add_id_to_handles(cs);
        core::mem::swap(&mut ns[i], &mut x);
        i = i + 1;
    }
    assert(node_views(ns@) =~= crate::compiler::node::all_with_ids(views, *cs));
    ns
}

/// The constraint `c`, in which the handles of the expressions of a
/// vanishing constraint or of a lookup, and the columns of a permutation,
/// have the ids that `cs` gives.
pub open spec fn constraint_with_ids(c: ConstraintView, cs: ColumnSet) -> ConstraintView {
    match c {
        ConstraintView::Vanishes { handle, domain, expr } => ConstraintView::Vanishes {
            handle,
            domain,
            expr: with_ids(expr, cs),
        },
        ConstraintView::Plookup(h, parents, children) => ConstraintView::Plookup(
            h,
            crate::compiler::node::all_with_ids(parents, cs),
            crate::compiler::node::all_with_ids(children, cs),
        ),
        ConstraintView::Permutation(h, froms, tos) => ConstraintView::Permutation(
            h,
            handles_with_ids(froms, cs),
            handles_with_ids(tos, cs),
        ),
        ConstraintView::InRange(h, e, bound) => c,
    }
}

impl Constraint {
    /// The name of the constraint: its handle, as `module.name`.
    pub fn name(&self) -> (r: String)
        ensures
            r@ == match self@ {
                ConstraintView::Vanishes { handle, .. } => handle.module + seq!['.'] + handle.name,
                ConstraintView::Plookup(handle, _, _) => handle.module + seq!['.'] + handle.name,
                ConstraintView::Permutation(handle, _, _) => handle.module + seq!['.']
                    + handle.name,
                ConstraintView::InRange(handle, _, _) => handle.module + seq!['.'] + handle.name,
            },
    {
        match self {
            Constraint::Vanishes { handle, .. } => handle.to_string(),
            Constraint::Plookup(handle, _, _) => handle.to_string(),
            Constraint::Permutation(handle, _, _) => handle.to_string(),
            Constraint::InRange(handle, _, _) => handle.to_string(),
        }
    }

    /// Gives the handles of the constraint that name a column of `cs` the
    /// index of that column as their id.
    pub fn add_id_to_handles(&mut self, cs: &ColumnSet)
        ensures
            final(self)@ == constraint_with_ids(old(self)@, *cs),
    {
        let mut taken = Constraint::Permutation(Handle::new("", ""), Vec::new(), Vec::new());
        core::mem::swap(self, &mut taken);
        let mut r = match taken {
            Constraint::Vanishes { handle, domain, expr } => {
                let mut e = *expr;
                e.add_id_to_handles(cs);
                Constraint::Vanishes { handle, domain, expr: Box::new(e) }
            },
            Constraint::Plookup(h, parents, children) => Constraint::Plookup(
                h,
                nodes_with_ids(parents, cs),
                nodes_with_ids(children, cs),
            ),
            Constraint::Permutation(h, froms, tos) => Constraint::Permutation(
                h,
                handles_with(froms, cs),
                handles_with(tos, cs),
            ),
            Constraint::InRange(h, e, bound) => Constraint::InRange(h, e, bound),
        };
        core::mem::swap(self, &mut r);
    }
}

/// A name for a constraint that the source does not name.
///
/// Trusted: the body draws a name from `names::Generator`, which picks an
/// adjective and a noun at random. Nothing is claimed of the name.
#[verifier::external_body]
fn fresh_name() -> (r: String) {
    names::Generator::default().next().unwrap_or_default()
}

/// How deep applications of functions defined in the source may nest.
pub const RECURSION_LIMIT: usize = 512;

/// What the reducer makes of a form that it reduces in one step: a
/// literal, a name, an empty list, or a form that has no value. Of the
/// applications and of the composite columns this says nothing.
pub open spec fn reduced(
    e: AstNode,
    before: SymbolTable,
    ctx: usize,
    after: SymbolTable,
    r: Result<Option<Node>, Error>,
) -> bool {
    match e.class {
        Token::Value(x) => after == before && if x@ >= crate::field::modulus() {
            r matches Err(y) && y == Error::NotInField
        } else {
            r matches Ok(Some(n)) && n@ == constant_view(x@, const_type(x@))
        },
        Token::Symbol(name) => match r {
            Ok(Some(n)) => SymbolTable::resolves(before, after, ctx, name@, Ok(n)),
            Ok(None) => false,
            Err(e) => SymbolTable::resolves(before, after, ctx, name@, Err(e)),
        },
        Token::List(args) => args@.len() == 0 ==> after == before && (r matches Ok(Some(n)) && n@
            == (NodeView { e: ExpressionView::List(Seq::empty()), t: Some(Type::Void) })),
        Token::DefColumn(_, _, k) => !(k is Composite) ==> after == before && (r matches Ok(None)),
        _ => after == before && (r matches Ok(None)),
    }
}

/// What a scope made for a form or for an application is called: `kind`,
/// then the number `n`.
fn scope_name(kind: &str, n: usize) -> (r: String)
    ensures
        r@ == kind@ + seq!['-'] + crate::text::decimal(n as nat),
{
    let mut r = kind.to_owned();
    push_char(&mut r, '-');
    push_decimal(&mut r, n);
    assert(r@ =~= kind@ + seq!['-'] + crate::text::decimal(n as nat));
    r
}

fn next_number(counter: &mut usize) -> (r: Result<usize, Error>)
    ensures
        match r {
            Ok(n) => n == *old(counter) && n < usize::MAX && *final(counter) == n + 1,
            Err(e) => e == Error::DepthExceeded && *old(counter) == usize::MAX && *final(counter)
                == *old(counter),
        },
{
    if *counter == usize::MAX {
        Err(Error::DepthExceeded)
    } else {
        let n = *counter;
        *counter = n + 1;
        Ok(n)
    }
}

fn contains_index(range: &Vec<usize>, x: usize) -> (r: bool)
    ensures
        r == range@.contains(x),
{
    let mut i: usize = 0;
    while i < range.len()
        invariant
            i <= range.len(),
            forall|j: int| 0 <= j < i ==> range@[j] != x,
        decreases range.len() - i,
    {
        if range[i] == x {
            return true;
        }
        i = i + 1;
    }
    false
}

/// What `nth` applied to an array column and a constant is lowered to: the
/// column of the array that the constant designates, as a scalar.
pub open spec fn nth_view(array: NodeView, x: int) -> Result<NodeView, Error> {
    match array.e {
        ExpressionView::ArrayColumn(h, range) => if 0 <= x <= usize::MAX && range.contains(
            x as usize,
        ) {
            Ok(
                NodeView {
                    e: ExpressionView::Column(
                        HandleView {
                            module: h.module,
                            name: Handle::ith_name(h.name, x as nat),
                            id: None,
                        },
                        KindView::Atomic,
                    ),
                    t: Some(type_of(array).as_scalar_spec()),
                },
            )
        } else {
            Err(Error::IndexOutOfRange)
        },
        _ => Err(Error::TypeMismatch),
    }
}

/// Picks the `x`-th column of the array column `array`.
pub fn nth(array: &Node, x: &Integer) -> (r: Result<Node, Error>)
    ensures
        match nth_view(array@, x@) {
            Ok(n) => r matches Ok(m) && m@ == n,
            Err(e) => r matches Err(e2) && e2 == e,
        },
{
    match &array._e {
        Expression::ArrayColumn(h, range) => {
            match x.to_usize() {
                Some(i) => {
                    if contains_index(range, i) {
                        let picked = h.ith(i);
                        Ok(
                            Node {
                                _e: Expression::Column(
                                    Handle { module: picked.module, name: picked.name, id: None },
                                    Kind::Atomic,
                                ),
                                _t: Some(array.t().as_scalar()),
                            },
                        )
                    } else {
                        Err(Error::IndexOutOfRange)
                    }
                },
                None => Err(Error::IndexOutOfRange),
            }
        },
        _ => Err(Error::TypeMismatch),
    }
}

/// What the reducer works on: the table of symbols, and the number that
/// the next scope it makes will bear.
pub struct State {
    pub table: SymbolTable,
    pub counter: usize,
}

/// The name of the scope made for the index `i` of a `for`, the `n`-th
/// scope that the reducer makes.
pub open spec fn for_scope(n: usize, i: usize) -> Seq<char> {
    "for"@ + seq!['-'] + crate::text::decimal(n as nat) + seq!['-'] + crate::text::decimal(i as nat)
}

/// The name of the scope made for a `let`, the `n`-th scope that the
/// reducer makes.
pub open spec fn let_scope(n: usize) -> Seq<char> {
    "let"@ + seq!['-'] + crate::text::decimal(n as nat)
}

/// How a handle is written: its module, a dot, its name.
pub open spec fn handle_text(h: HandleView) -> Seq<char> {
    h.module + seq!['.'] + h.name
}

/// The name of the scope made for an application of the function of
/// handle `h`, the `n`-th scope that the reducer makes.
pub open spec fn fn_scope(h: HandleView, n: usize) -> Seq<char> {
    "fn-"@ + handle_text(h) + seq!['-'] + crate::text::decimal(n as nat)
}

/// The node without value.
pub open spec fn void_view() -> NodeView {
    NodeView { e: ExpressionView::Void, t: None }
}

/// What lowering the form `e` in the scope `ctx` gives and does, from the
/// state `s0` to the state `s1`.
///
/// A literal, a name, the empty list and the forms without value are
/// lowered in one step. A list is the application of the function that its
/// head names. A column computed from an expression has the expression
/// lowered and attached to it.
pub open spec fn reduces(
    e: AstNode,
    s0: State,
    ctx: usize,
    debug: bool,
    depth: nat,
    s1: State,
    r: Result<Option<Node>, Error>,
) -> bool
    decreases depth, e, 0nat, 0nat,
{
    match e.class {
        Token::List(args) => if args@.len() == 0 {
            s1.counter == s0.counter && reduced(e, s0.table, ctx, s1.table, r)
        } else {
            match args@[0].class {
                Token::Symbol(verb) => match s0.table.locate_function(
                    ctx as int,
                    verb@,
                    Seq::empty(),
                ) {
                    Ok(at) => applies(
                        s0.table.scopes@[at.0].funcs.value_at(at.1)@,
                        args@,
                        1,
                        s0,
                        ctx,
                        debug,
                        depth,
                        s1,
                        r,
                    ),
                    Err(x) => s1 == s0 && r == Err::<Option<Node>, Error>(x),
                },
                _ => s1 == s0 && r == Err::<Option<Node>, Error>(Error::NotAFunction),
            }
        },
        Token::DefColumn(name, _, k) => match k {
            Kind::Composite(body) => exists|sm: State, rb: Result<Option<Node>, Error>|
                #[trigger] witness((sm, rb)) && reduces(*body, s0, ctx, debug, depth, sm, rb)
                    && s1.counter == sm.counter
                    && match rb {
                    Ok(Some(n)) => if !evaluable(n@) {
                        s1 == sm && r == Err::<Option<Node>, Error>(Error::NotInField)
                    } else {
                        match r {
                            Ok(x) => x is None && SymbolTable::edits(
                                sm.table,
                                s1.table,
                                ctx,
                                name@,
                                n,
                                Ok(()),
                            ),
                            Err(x) => SymbolTable::edits(sm.table, s1.table, ctx, name@, n, Err(x)),
                        }
                    },
                    Ok(None) => s1 == sm && r == Err::<Option<Node>, Error>(Error::UnexpectedForm),
                    Err(x) => s1 == sm && r == Err::<Option<Node>, Error>(x),
                },
            _ => s1 == s0 && r == Ok::<Option<Node>, Error>(None),
        },
        _ => s1.counter == s0.counter && reduced(e, s0.table, ctx, s1.table, r),
    }
}

/// What lowering the first `k` of the forms `args[from..]` gives and does:
/// `acc` holds what they are lowered to, in order, but for those without
/// value.
pub open spec fn args_reduced(
    args: Seq<AstNode>,
    from: int,
    k: int,
    s0: State,
    ctx: usize,
    debug: bool,
    depth: nat,
    sk: State,
    acc: Seq<Node>,
) -> bool
    decreases depth, args, 1nat, k,
{
    if k <= 0 {
        sk == s0 && acc.len() == 0
    } else {
        0 <= from + k - 1 < args.len() && exists|sp: State, prev: Seq<Node>, rn: Option<Node>|
            #[trigger] witness((sp, prev, rn)) && args_reduced(
                args,
                from,
                k - 1,
                s0,
                ctx,
                debug,
                depth,
                sp,
                prev,
            ) && reduces(args[from + k - 1], sp, ctx, debug, depth, sk, Ok(rn)) && acc == pushed(
                prev,
                rn,
            )
    }
}

/// The sequence `prev`, with `rn` after it where there is one.
pub open spec fn pushed(prev: Seq<Node>, rn: Option<Node>) -> Seq<Node> {
    match rn {
        Some(n) => prev.push(n),
        None => prev,
    }
}

/// What lowering the forms `args[from..]` one after another gives and
/// does, up to the first that fails.
pub open spec fn args_reduce(
    args: Seq<AstNode>,
    from: int,
    s0: State,
    ctx: usize,
    debug: bool,
    depth: nat,
    s1: State,
    r: Result<Vec<Node>, Error>,
) -> bool
    decreases depth, args, 2nat, 0nat,
{
    match r {
        Ok(v) => args_reduced(args, from, args.len() - from, s0, ctx, debug, depth, s1, v@),
        Err(x) => exists|k: int, sk: State, acc: Seq<Node>|
            #[trigger] witness((k, sk, acc)) && 0 <= k && 0 <= from + k < args.len() && args_reduced(
                args,
                from,
                k,
                s0,
                ctx,
                debug,
                depth,
                sk,
                acc,
            ) && reduces(
                args[from + k],
                sk,
                ctx,
                debug,
                depth,
                s1,
                Err::<Option<Node>, Error>(x),
            ),
    }
}

/// What one turn of a `for` gives and does: a scope is made for the index
/// `i`, `name` is bound to `i` in it, and `body` is lowered there.
pub open spec fn for_step(
    name: Seq<char>,
    i: usize,
    body: AstNode,
    sa: State,
    ctx: usize,
    debug: bool,
    depth: nat,
    sb: State,
    r: Result<Node, Error>,
) -> bool
    decreases depth, body, 1nat, 0nat,
{
    if sa.counter == usize::MAX {
        sb == sa && r == Err::<Node, Error>(Error::DepthExceeded)
    } else {
        exists|t1: SymbolTable, inner: usize, v: Node, t2: SymbolTable, ri: Result<(), Error>|
            SymbolTable::derives(
                sa.table,
                t1,
                ctx,
                for_scope(sa.counter, i),
                sa.table.scopes@[ctx as int].pretty_name@,
                false,
                inner,
            ) && v@ == constant_view(i as int, const_type(i as int)) && #[trigger] SymbolTable::inserts(
                t1,
                t2,
                inner,
                name,
                v,
                ri,
            ) && match ri {
                Err(x) => sb == (State { table: t2, counter: (sa.counter + 1) as usize }) && r
                    == Err::<Node, Error>(x),
                Ok(_) => exists|rb: Result<Option<Node>, Error>|
                    #[trigger] witness(rb) && reduces(
                        body,
                        State { table: t2, counter: (sa.counter + 1) as usize },
                        inner,
                        debug,
                        depth,
                        sb,
                        rb,
                    ) && r == match rb {
                        Ok(Some(n)) => Ok::<Node, Error>(n),
                        Ok(None) => Err::<Node, Error>(Error::UnexpectedForm),
                        Err(x) => Err::<Node, Error>(x),
                    },
            }
    }
}

/// What the first `k` turns of a `for` over `range` give and do.
pub open spec fn for_steps(
    name: Seq<char>,
    range: Seq<usize>,
    body: AstNode,
    k: int,
    s0: State,
    ctx: usize,
    debug: bool,
    depth: nat,
    sk: State,
    l: Seq<Node>,
) -> bool
    decreases depth, body, 2nat, k,
{
    if k <= 0 {
        sk == s0 && l.len() == 0
    } else {
        0 <= k - 1 < range.len() && exists|sp: State, prev: Seq<Node>, n: Node|
            #[trigger] witness((sp, prev, n)) && for_steps(
                name,
                range,
                body,
                k - 1,
                s0,
                ctx,
                debug,
                depth,
                sp,
                prev,
            ) && for_step(name, range[k - 1], body, sp, ctx, debug, depth, sk, Ok(n)) && l
                == prev.push(n)
    }
}

/// What a `for` over `range` gives and does: the list of what `body` is
/// lowered to for each index, typed as the join of the types of its
/// elements; or the error of the first turn that fails.
pub open spec fn for_applies(
    name: Seq<char>,
    range: Seq<usize>,
    body: AstNode,
    s0: State,
    ctx: usize,
    debug: bool,
    depth: nat,
    s1: State,
    r: Result<Option<Node>, Error>,
) -> bool
    decreases depth, body, 3nat, 0nat,
{
    match r {
        Ok(x) => x matches Some(n) && exists|l: Seq<Node>|
            #[trigger] witness(l) && for_steps(
                name,
                range,
                body,
                range.len() as int,
                s0,
                ctx,
                debug,
                depth,
                s1,
                l,
            ) && n@
                == (NodeView {
                e: ExpressionView::List(node_views(l)),
                t: Some(Type::join_all(types_of(node_views(l)))),
            }),
        Err(x) => exists|k: int, sk: State, l: Seq<Node>|
            #[trigger] witness((k, sk, l)) && 0 <= k < range.len() && for_steps(
                name,
                range,
                body,
                k,
                s0,
                ctx,
                debug,
                depth,
                sk,
                l,
            ) && for_step(name, range[k], body, sk, ctx, debug, depth, s1, Err::<Node, Error>(x)),
    }
}

/// What one binding of a `let` gives and does: the value is lowered in the
/// scope of the `let`, and the name is bound to it there.
pub open spec fn let_bind(
    binding: AstNode,
    sa: State,
    inner: usize,
    debug: bool,
    depth: nat,
    sb: State,
    r: Result<(), Error>,
) -> bool
    decreases depth, binding, 1nat, 0nat,
{
    match binding.class {
        Token::List(pair) => if pair@.len() != 2 {
            sb == sa && r == Err::<(), Error>(Error::TypeMismatch)
        } else {
            match pair@[0].class {
                Token::Symbol(name) => exists|sm: State, rv: Result<Option<Node>, Error>|
                    #[trigger] witness((sm, rv)) && reduces(
                        pair@[1],
                        sa,
                        inner,
                        debug,
                        depth,
                        sm,
                        rv,
                    ) && match rv {
                        Ok(Some(v)) => sb.counter == sm.counter && SymbolTable::inserts(
                            sm.table,
                            sb.table,
                            inner,
                            name@,
                            v,
                            r,
                        ),
                        Ok(None) => sb == sm && r == Err::<(), Error>(Error::UnexpectedForm),
                        Err(x) => sb == sm && r == Err::<(), Error>(x),
                    },
                _ => sb == sa && r == Err::<(), Error>(Error::TypeMismatch),
            }
        },
        _ => sb == sa && r == Err::<(), Error>(Error::TypeMismatch),
    }
}

/// What the first `k` bindings of a `let` give and do.
pub open spec fn let_binds(
    pairs: Seq<AstNode>,
    k: int,
    s0: State,
    inner: usize,
    debug: bool,
    depth: nat,
    sk: State,
) -> bool
    decreases depth, pairs, 1nat, k,
{
    if k <= 0 {
        sk == s0
    } else {
        0 <= k - 1 < pairs.len() && exists|sp: State|
            #[trigger] witness(sp) && let_binds(pairs, k - 1, s0, inner, debug, depth, sp) && let_bind(
                pairs[k - 1],
                sp,
                inner,
                debug,
                depth,
                sk,
                Ok(()),
            )
    }
}

/// What a `let` gives and does: a scope is made, the bindings are made
/// in it one after another, and the body is lowered there.
pub open spec fn let_applies(
    args: Seq<AstNode>,
    from: int,
    s0: State,
    ctx: usize,
    debug: bool,
    depth: nat,
    s1: State,
    r: Result<Option<Node>, Error>,
) -> bool
    decreases depth, args, 1nat, 0nat,
{
    if s0.counter == usize::MAX {
        s1 == s0 && r == Err::<Option<Node>, Error>(Error::DepthExceeded)
    } else if !(0 <= from && from + 2 == args.len()) {
        false
    } else {
        exists|t1: SymbolTable, inner: usize| #[trigger]
            SymbolTable::derives(
                s0.table,
                t1,
                ctx,
                let_scope(s0.counter),
                s0.table.scopes@[ctx as int].pretty_name@,
                false,
                inner,
            ) && match args[from].class {
                Token::List(pairs) => exists|k: int, sk: State|
                    #[trigger] witness((k, sk)) && 0 <= k <= pairs@.len() && let_binds(
                        pairs@,
                        k,
                        State { table: t1, counter: (s0.counter + 1) as usize },
                        inner,
                        debug,
                        depth,
                        sk,
                    ) && if k == pairs@.len() {
                        exists|rb: Result<Option<Node>, Error>|
                            #[trigger] witness(rb) && reduces(
                                args[from + 1],
                                sk,
                                inner,
                                debug,
                                depth,
                                s1,
                                rb,
                            ) && r
                                == match rb {
                                Ok(Some(n)) => Ok::<Option<Node>, Error>(Some(n)),
                                Ok(None) => Err::<Option<Node>, Error>(Error::UnexpectedForm),
                                Err(x) => Err::<Option<Node>, Error>(x),
                            }
                    } else {
                        match r {
                            Err(x) => let_bind(
                                pairs@[k],
                                sk,
                                inner,
                                debug,
                                depth,
                                s1,
                                Err::<(), Error>(x),
                            ),
                            Ok(_) => false,
                        }
                    },
                _ => s1 == (State { table: t1, counter: (s0.counter + 1) as usize }) && r == Err::<
                    Option<Node>,
                    Error,
                >(Error::TypeMismatch),
            }
    }
}

/// What lowering the first `k` of the arguments of a `debug` gives and
/// does: `outs` holds what each is lowered to.
pub open spec fn debug_steps(
    args: Seq<AstNode>,
    from: int,
    k: int,
    s0: State,
    ctx: usize,
    debug: bool,
    depth: nat,
    sk: State,
    outs: Seq<Option<Node>>,
) -> bool
    decreases depth, args, 1nat, k,
{
    if k <= 0 {
        sk == s0 && outs.len() == 0
    } else {
        0 <= from + k - 1 < args.len() && exists|
            sp: State,
            prev: Seq<Option<Node>>,
            rn: Option<Node>,
        |
            #[trigger] witness((sp, prev, rn)) && debug_steps(
                args,
                from,
                k - 1,
                s0,
                ctx,
                debug,
                depth,
                sp,
                prev,
            ) && reduces(args[from + k - 1], sp, ctx, debug, depth, sk, Ok(rn)) && outs
                == prev.push(rn)
    }
}

/// What stands for the arguments of a `debug`, once lowered: the argument
/// itself where there is one, and else all of them in a `begin`, where an
/// argument without value stands as no value.
pub open spec fn debug_result(outs: Seq<Option<Node>>, x: Option<Node>) -> bool {
    if outs.len() == 0 {
        x is None
    } else if outs.len() == 1 {
        x == outs[0]
    } else {
        x matches Some(n) && n@ == call_view(
            Builtin::Begin,
            Seq::new(
                outs.len(),
                |i: int|
                    match outs[i] {
                        Some(m) => m@,
                        None => void_view(),
                    },
            ),
        )
    }
}

/// What a `debug` gives and does: nothing, unless debugging is asked for.
pub open spec fn debug_applies(
    args: Seq<AstNode>,
    from: int,
    s0: State,
    ctx: usize,
    debug: bool,
    depth: nat,
    s1: State,
    r: Result<Option<Node>, Error>,
) -> bool
    decreases depth, args, 2nat, 0nat,
{
    if !debug {
        s1 == s0 && r == Ok::<Option<Node>, Error>(None)
    } else {
        match r {
            Ok(x) => exists|outs: Seq<Option<Node>>|
                #[trigger] witness(outs) && debug_steps(
                    args,
                    from,
                    args.len() - from,
                    s0,
                    ctx,
                    debug,
                    depth,
                    s1,
                    outs,
                ) && debug_result(outs, x),
            Err(e) => exists|k: int, sk: State, outs: Seq<Option<Node>>|
                #[trigger] witness((k, sk, outs)) && 0 <= k && 0 <= from + k < args.len() && debug_steps(
                    args,
                    from,
                    k,
                    s0,
                    ctx,
                    debug,
                    depth,
                    sk,
                    outs,
                ) && reduces(
                    args[from + k],
                    sk,
                    ctx,
                    debug,
                    depth,
                    s1,
                    Err::<Option<Node>, Error>(e),
                ),
        }
    }
}

/// What applying the special form `form` to the forms `args[from..]`
/// gives and does.
pub open spec fn form_applies(
    form: Form,
    args: Seq<AstNode>,
    from: int,
    s0: State,
    ctx: usize,
    debug: bool,
    depth: nat,
    s1: State,
    r: Result<Option<Node>, Error>,
) -> bool
    decreases depth, args, 3nat, 0nat,
{
    if !(0 <= from <= args.len()) {
        false
    } else if !form.arity_spec().admits((args.len() - from) as nat) {
        s1 == s0 && r == Err::<Option<Node>, Error>(Error::ArityMismatch)
    } else {
        match form {
            Form::For => match (args[from].class, args[from + 1].class, args[from + 2].class) {
                (Token::Symbol(name), Token::Range(range), Token::List(_)) => for_applies(
                    name@,
                    range@,
                    args[from + 2],
                    s0,
                    ctx,
                    debug,
                    depth,
                    s1,
                    r,
                ),
                _ => s1 == s0 && r == Err::<Option<Node>, Error>(Error::TypeMismatch),
            },
            Form::Let => let_applies(args, from, s0, ctx, debug, depth, s1, r),
            Form::Debug => debug_applies(args, from, s0, ctx, debug, depth, s1, r),
        }
    }
}

/// What binding the first `k` parameters of a function to the values of
/// its arguments does.
pub open spec fn params_bound(
    params: Seq<String>,
    vals: Seq<Node>,
    k: int,
    t0: SymbolTable,
    inner: usize,
    tk: SymbolTable,
) -> bool
    decreases k,
{
    if k <= 0 {
        tk == t0
    } else {
        0 <= k - 1 < params.len() && k - 1 < vals.len() && exists|tp: SymbolTable, v: Node|
            params_bound(params, vals, k - 1, t0, inner, tp) && v@ == vals[k - 1]@
                && #[trigger] SymbolTable::inserts(tp, tk, inner, params[k - 1]@, v, Ok(()))
    }
}

/// What applying a function defined in the source to the values `vals`
/// gives and does: a scope is made for the application, closed if the
/// function is pure; the parameters are bound there to the values; and the
/// body is lowered there, one level deeper.
pub open spec fn defined_applies(
    handle: HandleView,
    pure: bool,
    params: Seq<String>,
    body: AstNode,
    vals: Seq<Node>,
    site: Seq<AstNode>,
    sa: State,
    ctx: usize,
    debug: bool,
    depth: nat,
    sb: State,
    r: Result<Option<Node>, Error>,
) -> bool
    decreases depth, site, 3nat, 0nat,
{
    if vals.len() != params.len() {
        sb == sa && r == Err::<Option<Node>, Error>(Error::ArityMismatch)
    } else if depth == 0 || sa.counter == usize::MAX {
        sb == sa && r == Err::<Option<Node>, Error>(Error::DepthExceeded)
    } else {
        exists|t1: SymbolTable, inner: usize| #[trigger]
            SymbolTable::derives(
                sa.table,
                t1,
                ctx,
                fn_scope(handle, sa.counter),
                handle_text(handle),
                pure,
                inner,
            ) && exists|k: int, tk: SymbolTable|
                #[trigger] witness((k, tk)) && 0 <= k <= params.len() && params_bound(
                    params,
                    vals,
                    k,
                    t1,
                    inner,
                    tk,
                )
                    && if k == params.len() {
                    reduces(
                        body,
                        State { table: tk, counter: (sa.counter + 1) as usize },
                        inner,
                        debug,
                        (depth - 1) as nat,
                        sb,
                        r,
                    )
                } else {
                    tk.scopes@[inner as int].symbols.contains(params[k]@) && sb == (State {
                        table: tk,
                        counter: (sa.counter + 1) as usize,
                    }) && r == Err::<Option<Node>, Error>(Error::DuplicateSymbol)
                }
    }
}

/// What applying the function `f` to the forms `args[from..]` gives and
/// does: a special form handles the forms as it sees fit, and any other
/// function is applied to what the forms are lowered to.
pub open spec fn applies(
    f: FunctionView,
    args: Seq<AstNode>,
    from: int,
    s0: State,
    ctx: usize,
    debug: bool,
    depth: nat,
    s1: State,
    r: Result<Option<Node>, Error>,
) -> bool
    decreases depth, args, 4nat, 0nat,
{
    match f.class {
        FunctionClassView::SpecialForm(form) => form_applies(
            form,
            args,
            from,
            s0,
            ctx,
            debug,
            depth,
            s1,
            r,
        ),
        FunctionClassView::Builtin(b) => exists|sm: State, ra: Result<Vec<Node>, Error>|
            #[trigger] witness((sm, ra)) && args_reduce(args, from, s0, ctx, debug, depth, sm, ra)
                && match ra {
                Ok(v) => s1.counter == sm.counter && applied(b, v@, sm.table, ctx, s1.table, r),
                Err(x) => s1 == sm && r == Err::<Option<Node>, Error>(x),
            },
        FunctionClassView::UserDefined { pure, args: params, body } => exists|
            sm: State,
            ra: Result<Vec<Node>, Error>,
        |
            #[trigger] witness((sm, ra)) && args_reduce(args, from, s0, ctx, debug, depth, sm, ra)
                && match ra {
                Ok(v) => defined_applies(
                    f.handle,
                    pure,
                    params,
                    body,
                    v@,
                    args,
                    sm,
                    ctx,
                    debug,
                    depth,
                    s1,
                    r,
                ),
                Err(x) => s1 == sm && r == Err::<Option<Node>, Error>(x),
            },
        FunctionClassView::Alias(_) => s1 == s0 && r == Err::<Option<Node>, Error>(
            Error::UnknownFunction,
        ),
    }
}

fn reduce_args(
    args: &Vec<AstNode>,
    from: usize,
    table: &mut SymbolTable,
    ctx: usize,
    settings: &CompileSettings,
    counter: &mut usize,
    depth: usize,
) -> (r: Result<Vec<Node>, Error>)
    requires
        old(table).wf(),
        ctx < old(table).scopes@.len(),
        from <= args@.len(),
    ensures
        final(table).wf(),
        final(table).scopes@.len() >= old(table).scopes@.len(),
        *final(counter) >= *old(counter),
        args_reduce(
            args@,
            from as int,
            (State { table: *old(table), counter: *old(counter) }),
            ctx,
            settings.debug,
            depth as nat,
            (State { table: *final(table), counter: *final(counter) }),
            r,
        ),
    decreases depth, args, 2nat, 0nat,
{
    let ghost s0 = State { table: *table, counter: *counter };
    let mut out: Vec<Node> = Vec::new();
    let mut i: usize = from;
    while i < args.len()
        invariant
            from <= i <= args.len(),
            table.wf(),
            ctx < table.scopes@.len(),
            table.scopes@.len() >= old(table).scopes@.len(),
            *counter >= *old(counter),
            s0 == (State { table: *old(table), counter: *old(counter) }),
            args_reduced(
                args@,
                from as int,
                i - from,
                s0,
                ctx,
                settings.debug,
                depth as nat,
                (State { table: *table, counter: *counter }),
                out@,
            ),
        decreases args.len() - i,
    {
        proof {
            vstd::std_specs::vec::axiom_vec_index_decreases(*args, i as int);
        }
        let ghost before = State { table: *table, counter: *counter };
        let ghost prev = out@;
        match reduce(&args[i], table, ctx, settings, counter, depth) {
            Ok(rn) => {
                let ghost got = rn;
                match rn {
                    Some(n) => {
                        out.push(n);
                    },
                    None => {},
                }
                proof {
                    assert(out@ == pushed(prev, got));
                    assert(args@[from + (i - from + 1) - 1] == args@[i as int]);
                    assert(witness((before, prev, got)));
                }
            },
            Err(e) => {
                proof {
                    assert(args@[from + (i - from)] == args@[i as int]);
                    assert(witness((i - from, before, prev)));
                }
                return Err(e);
            },
        }
        i = i + 1;
    }
    Ok(out)
}

fn for_turn(
    name: &str,
    i: usize,
    body: &AstNode,
    table: &mut SymbolTable,
    ctx: usize,
    settings: &CompileSettings,
    counter: &mut usize,
    depth: usize,
) -> (r: Result<Node, Error>)
    requires
        old(table).wf(),
        ctx < old(table).scopes@.len(),
    ensures
        final(table).wf(),
        final(table).scopes@.len() >= old(table).scopes@.len(),
        *final(counter) >= *old(counter),
        for_step(
            name@,
            i,
            *body,
            (State { table: *old(table), counter: *old(counter) }),
            ctx,
            settings.debug,
            depth as nat,
            (State { table: *final(table), counter: *final(counter) }),
            r,
        ),
    decreases depth, body, 1nat, 0nat,
{
    let n = match next_number(counter) {
        Ok(n) => n,
        Err(e) => {
            return Err(e);
        },
    };
    let mut scope = scope_name("for", n);
    push_char(&mut scope, '-');
    push_decimal(&mut scope, i);
    assert(scope@ =~= for_scope(n, i));
    let pretty = table.scopes[ctx].pretty_name.clone();
    let inner = table.derived(ctx, scope.as_str(), pretty.as_str(), false);
    let ghost t1 = *table;
    let value = Node::from_integer(Integer::from_usize(i));
    assert(value@ == constant_view(i as int, const_type(i as int)));
    let ghost v = value;
    let ri = table.insert_symbol(inner, name, value);
    let ghost t2 = *table;
    assert(SymbolTable::inserts(t1, t2, inner, name@, v, ri));
    match ri {
        Ok(_) => {},
        Err(e) => {
            return Err(e);
        },
    }
    let rb = reduce(body, table, inner, settings, counter, depth);
    assert(witness(rb));
    match rb {
        Ok(Some(r)) => Ok(r),
        Ok(None) => Err(Error::UnexpectedForm),
        Err(e) => Err(e),
    }
}

fn apply_for(
    name: &str,
    range: &Vec<usize>,
    body: &AstNode,
    table: &mut SymbolTable,
    ctx: usize,
    settings: &CompileSettings,
    counter: &mut usize,
    depth: usize,
) -> (r: Result<Option<Node>, Error>)
    requires
        old(table).wf(),
        ctx < old(table).scopes@.len(),
    ensures
        final(table).wf(),
        final(table).scopes@.len() >= old(table).scopes@.len(),
        *final(counter) >= *old(counter),
        for_applies(
            name@,
            range@,
            *body,
            (State { table: *old(table), counter: *old(counter) }),
            ctx,
            settings.debug,
            depth as nat,
            (State { table: *final(table), counter: *final(counter) }),
            r,
        ),
    decreases depth, body, 3nat, 0nat,
{
    let ghost s0 = State { table: *table, counter: *counter };
    let mut l: Vec<Node> = Vec::new();
    let mut t = Type::infimum();
    let mut k: usize = 0;
    proof {
        assert(types_of(node_views(l@)) =~= Seq::<Type>::empty());
    }
    while k < range.len()
        invariant
            k <= range.len(),
            table.wf(),
            ctx < table.scopes@.len(),
            table.scopes@.len() >= old(table).scopes@.len(),
            *counter >= *old(counter),
            s0 == (State { table: *old(table), counter: *old(counter) }),
            t == Type::join_all(types_of(node_views(l@))),
            for_steps(
                name@,
                range@,
                *body,
                k as int,
                s0,
                ctx,
                settings.debug,
                depth as nat,
                (State { table: *table, counter: *counter }),
                l@,
            ),
        decreases range.len() - k,
    {
        let ghost before = State { table: *table, counter: *counter };
        let ghost prev = l@;
        match for_turn(name, range[k], body, table, ctx, settings, counter, depth) {
            Ok(r) => {
                t = t.max(&r.t());
                let ghost got = r;
                l.push(r);
                proof {
                    assert(l@ == prev.push(got));
                    assert(types_of(node_views(l@)).drop_last() =~= types_of(node_views(prev)));
                    assert(types_of(node_views(l@)).last() == type_of(got@));
                    assert(range@[(k + 1) - 1] == range@[k as int]);
                    assert(witness((before, prev, got)));
                }
            },
            Err(e) => {
                assert(witness((k as int, before, prev)));
                return Err(e);
            },
        }
        k = k + 1;
    }
    assert(witness(l@));
    Ok(Some(Node { _e: Expression::List(l), _t: Some(t) }))
}

fn let_binding(
    binding: &AstNode,
    table: &mut SymbolTable,
    inner: usize,
    settings: &CompileSettings,
    counter: &mut usize,
    depth: usize,
) -> (r: Result<(), Error>)
    requires
        old(table).wf(),
        inner < old(table).scopes@.len(),
    ensures
        final(table).wf(),
        final(table).scopes@.len() >= old(table).scopes@.len(),
        *final(counter) >= *old(counter),
        let_bind(
            *binding,
            (State { table: *old(table), counter: *old(counter) }),
            inner,
            settings.debug,
            depth as nat,
            (State { table: *final(table), counter: *final(counter) }),
            r,
        ),
    decreases depth, binding, 1nat, 0nat,
{
    match &binding.class {
        Token::List(pair) => {
            if pair.len() != 2 {
                return Err(Error::TypeMismatch);
            }
            proof {
                assert(decreases_to!(binding.class => binding.class->List_0));
                vstd::std_specs::vec::axiom_vec_index_decreases(*pair, 1);
            }
            match &pair[0].class {
                Token::Symbol(name) => {
                    let rv = reduce(&pair[1], table, inner, settings, counter, depth);
                    assert(witness((State { table: *table, counter: *counter }, rv)));
                    match rv {
                        Ok(Some(v)) => table.insert_symbol(inner, name.as_str(), v),
                        Ok(None) => Err(Error::UnexpectedForm),
                        Err(e) => Err(e),
                    }
                },
                _ => Err(Error::TypeMismatch),
            }
        },
        _ => Err(Error::TypeMismatch),
    }
}

fn apply_let(
    args: &Vec<AstNode>,
    from: usize,
    table: &mut SymbolTable,
    ctx: usize,
    settings: &CompileSettings,
    counter: &mut usize,
    depth: usize,
) -> (r: Result<Option<Node>, Error>)
    requires
        old(table).wf(),
        ctx < old(table).scopes@.len(),
        from + 2 == args@.len(),
    ensures
        final(table).wf(),
        final(table).scopes@.len() >= old(table).scopes@.len(),
        *final(counter) >= *old(counter),
        let_applies(
            args@,
            from as int,
            (State { table: *old(table), counter: *old(counter) }),
            ctx,
            settings.debug,
            depth as nat,
            (State { table: *final(table), counter: *final(counter) }),
            r,
        ),
    decreases depth, args, 1nat, 0nat,
{
    let count = args.len();
    let ghost s0 = State { table: *table, counter: *counter };
    let n = match next_number(counter) {
        Ok(n) => n,
        Err(e) => {
            return Err(e);
        },
    };
    let scope = scope_name("let", n);
    let pretty = table.scopes[ctx].pretty_name.clone();
    let inner = table.derived(ctx, scope.as_str(), pretty.as_str(), false);
    let ghost t1 = *table;
    let ghost s1 = State { table: t1, counter: *counter };
    assert(SymbolTable::derives(
        s0.table,
        t1,
        ctx,
        let_scope(s0.counter),
        s0.table.scopes@[ctx as int].pretty_name@,
        false,
        inner,
    ));
    proof {
        vstd::std_specs::vec::axiom_vec_index_decreases(*args, from as int);
        vstd::std_specs::vec::axiom_vec_index_decreases(*args, from + 1);
    }
    let first = &args[from];
    match &first.class {
        Token::List(pairs) => {
            proof {
                assert(decreases_to!(first.class => first.class->List_0));
            }
            let mut k: usize = 0;
            while k < pairs.len()
                invariant
                    k <= pairs.len(),
                    from + 2 == args@.len(),
                    count == args@.len(),
                    first == &args@[from as int],
                    first.class == Token::List(*pairs),
                    table.wf(),
                    inner < table.scopes@.len(),
                    table.scopes@.len() >= old(table).scopes@.len(),
                    *counter >= *old(counter),
                    s0 == (State { table: *old(table), counter: *old(counter) }),
                    s0.counter != usize::MAX,
                    s1 == (State { table: t1, counter: (s0.counter + 1) as usize }),
                    SymbolTable::derives(
                        s0.table,
                        t1,
                        ctx,
                        let_scope(s0.counter),
                        s0.table.scopes@[ctx as int].pretty_name@,
                        false,
                        inner,
                    ),
                    let_binds(
                        pairs@,
                        k as int,
                        s1,
                        inner,
                        settings.debug,
                        depth as nat,
                        (State { table: *table, counter: *counter }),
                    ),
                decreases pairs.len() - k,
            {
                proof {
                    vstd::std_specs::vec::axiom_vec_index_decreases(*args, from as int);
                    assert(decreases_to!(first.class => first.class->List_0));
                    vstd::std_specs::vec::axiom_vec_index_decreases(*pairs, k as int);
                }
                let ghost before = State { table: *table, counter: *counter };
                match let_binding(&pairs[k], table, inner, settings, counter, depth) {
                    Ok(_) => {
                        proof {
                            assert(let_bind(
                                pairs@[(k + 1) - 1],
                                before,
                                inner,
                                settings.debug,
                                depth as nat,
                                (State { table: *table, counter: *counter }),
                                Ok(()),
                            ));
                            assert(witness(before));
                        }
                    },
                    Err(e) => {
                        proof {
                            assert(witness((k as int, before)));
                        }
                        return Err(e);
                    },
                }
                k = k + 1;
            }
            let ghost bound = State { table: *table, counter: *counter };
            let rb = reduce(&args[from + 1], table, inner, settings, counter, depth);
            proof {
                assert(witness((pairs@.len() as int, bound)));
                assert(witness(rb));
            }
            match rb {
                Ok(Some(r)) => Ok(Some(r)),
                Ok(None) => Err(Error::UnexpectedForm),
                Err(e) => Err(e),
            }
        },
        _ => Err(Error::TypeMismatch),
    }
}

fn apply_debug(
    args: &Vec<AstNode>,
    from: usize,
    table: &mut SymbolTable,
    ctx: usize,
    settings: &CompileSettings,
    counter: &mut usize,
    depth: usize,
) -> (r: Result<Option<Node>, Error>)
    requires
        old(table).wf(),
        ctx < old(table).scopes@.len(),
        from <= args@.len(),
    ensures
        final(table).wf(),
        final(table).scopes@.len() >= old(table).scopes@.len(),
        *final(counter) >= *old(counter),
        debug_applies(
            args@,
            from as int,
            (State { table: *old(table), counter: *old(counter) }),
            ctx,
            settings.debug,
            depth as nat,
            (State { table: *final(table), counter: *final(counter) }),
            r,
        ),
    decreases depth, args, 2nat, 0nat,
{
    if !settings.debug {
        return Ok(None);
    }
    let ghost s0 = State { table: *table, counter: *counter };
    let mut outs: Vec<Option<Node>> = Vec::new();
    let mut i: usize = from;
    while i < args.len()
        invariant
            from <= i <= args.len(),
            settings.debug,
            table.wf(),
            ctx < table.scopes@.len(),
            table.scopes@.len() >= old(table).scopes@.len(),
            *counter >= *old(counter),
            s0 == (State { table: *old(table), counter: *old(counter) }),
            outs@.len() == i - from,
            debug_steps(
                args@,
                from as int,
                i - from,
                s0,
                ctx,
                settings.debug,
                depth as nat,
                (State { table: *table, counter: *counter }),
                outs@,
            ),
        decreases args.len() - i,
    {
        proof {
            vstd::std_specs::vec::axiom_vec_index_decreases(*args, i as int);
        }
        let ghost before = State { table: *table, counter: *counter };
        let ghost prev = outs@;
        match reduce(&args[i], table, ctx, settings, counter, depth) {
            Ok(rn) => {
                let ghost got = rn;
                outs.push(rn);
                proof {
                    assert(outs@ == prev.push(got));
                    assert(args@[from + (i - from + 1) - 1] == args@[i as int]);
                    assert(witness((before, prev, got)));
                }
            },
            Err(e) => {
                proof {
                    assert(args@[from + (i - from)] == args@[i as int]);
                    assert(witness((i - from, before, prev)));
                }
                return Err(e);
            },
        }
        i = i + 1;
    }
    let ghost all = outs@;
    assert(witness(all));
    if outs.len() == 0 {
        Ok(None)
    } else if outs.len() == 1 {
        let only = outs.pop().unwrap();
        assert(only == all[0]);
        Ok(only)
    } else {
        let mut reduced: Vec<Node> = Vec::new();
        let mut j: usize = 0;
        while j < outs.len()
            invariant
                j <= outs.len(),
                outs@ == all,
                reduced@.len() == j,
                forall|x: int|
                    0 <= x < j ==> (#[trigger] reduced@[x])@ == match all[x] {
                        Some(m) => m@,
                        None => void_view(),
                    },
            decreases outs.len() - j,
        {
            match &outs[j] {
                Some(m) => {
                    reduced.push(m.clone());
                },
                // An argument without value stands as no value among the others.
                None => {
                    reduced.push(Node { _e: Expression::Void, _t: None });
                },
            }
            j = j + 1;
        }
        let r = Builtin::Begin.call(&reduced);
        proof {
            assert(node_views(reduced@) =~= Seq::new(
                all.len(),
                |i: int|
                    match all[i] {
                        Some(m) => m@,
                        None => void_view(),
                    },
            ));
        }
        Ok(Some(r))
    }
}

/// Applies the special form `f` to the forms `args[from..]`, which it
/// reduces as it sees fit.
fn apply_form(
    f: Form,
    args: &Vec<AstNode>,
    from: usize,
    table: &mut SymbolTable,
    ctx: usize,
    settings: &CompileSettings,
    counter: &mut usize,
    depth: usize,
) -> (r: Result<Option<Node>, Error>)
    requires
        old(table).wf(),
        ctx < old(table).scopes@.len(),
        from <= args@.len(),
    ensures
        final(table).wf(),
        final(table).scopes@.len() >= old(table).scopes@.len(),
        *final(counter) >= *old(counter),
        form_applies(
            f,
            args@,
            from as int,
            (State { table: *old(table), counter: *old(counter) }),
            ctx,
            settings.debug,
            depth as nat,
            (State { table: *final(table), counter: *final(counter) }),
            r,
        ),
    decreases depth, args, 3nat, 0nat,
{
    let n = args.len() - from;
    match f.arity().validate(n) {
        Err(e) => {
            return Err(e);
        },
        Ok(_) => {},
    }
    match f {
        Form::For => {
            proof {
                vstd::std_specs::vec::axiom_vec_index_decreases(*args, from + 2);
            }
            match (&args[from].class, &args[from + 1].class, &args[from + 2].class) {
                (Token::Symbol(name), Token::Range(range), Token::List(_)) => apply_for(
                    name.as_str(),
                    range,
                    &args[from + 2],
                    table,
                    ctx,
                    settings,
                    counter,
                    depth,
                ),
                _ => Err(Error::TypeMismatch),
            }
        },
        Form::Let => apply_let(args, from, table, ctx, settings, counter, depth),
        Form::Debug => apply_debug(args, from, table, ctx, settings, counter, depth),
    }
}

fn apply_defined(
    f: &Function,
    d: &Defined,
    args: Vec<Node>,
    table: &mut SymbolTable,
    ctx: usize,
    settings: &CompileSettings,
    counter: &mut usize,
    depth: usize,
    Ghost(site): Ghost<Vec<AstNode>>,
) -> (r: Result<Option<Node>, Error>)
    requires
        old(table).wf(),
        ctx < old(table).scopes@.len(),
    ensures
        final(table).wf(),
        final(table).scopes@.len() >= old(table).scopes@.len(),
        *final(counter) >= *old(counter),
        defined_applies(
            f.handle@,
            d.pure,
            d.args@,
            *d.body,
            args@,
            site@,
            (State { table: *old(table), counter: *old(counter) }),
            ctx,
            settings.debug,
            depth as nat,
            (State { table: *final(table), counter: *final(counter) }),
            r,
        ),
    decreases depth, site, 3nat, 0nat,
{
    let ghost s0 = State { table: *table, counter: *counter };
    let expected = d.args.len();
    assert(d.arity_spec() == Arity::Exactly(expected));
    let bound = match d.validate_args(args) {
        Ok(bound) => bound,
        Err(e) => {
            return Err(e);
        },
    };
    if depth == 0 {
        return Err(Error::DepthExceeded);
    }
    let n = match next_number(counter) {
        Ok(n) => n,
        Err(e) => {
            return Err(e);
        },
    };
    let mut mangled = "fn-".to_owned();
    let pretty = f.handle.to_string();
    mangled.append(pretty.as_str());
    push_char(&mut mangled, '-');
    push_decimal(&mut mangled, n);
    assert(mangled@ =~= fn_scope(f.handle@, n));
    let inner = table.derived(ctx, mangled.as_str(), pretty.as_str(), d.pure);
    let ghost t1 = *table;
    let mut i: usize = 0;
    while i < d.args.len()
        invariant
            i <= d.args.len(),
            bound@.len() == d.args@.len(),
            bound@ == args@,
            table.wf(),
            inner < table.scopes@.len(),
            table.scopes@.len() >= old(table).scopes@.len(),
            *counter == s0.counter + 1,
            s0 == (State { table: *old(table), counter: *old(counter) }),
            s0.counter != usize::MAX,
            depth != 0,
            SymbolTable::derives(
                s0.table,
                t1,
                ctx,
                fn_scope(f.handle@, s0.counter),
                handle_text(f.handle@),
                d.pure,
                inner,
            ),
            params_bound(d.args@, args@, i as int, t1, inner, *table),
        decreases d.args.len() - i,
    {
        let ghost before = *table;
        let value = bound[i].clone();
        let ghost v = value;
        match table.insert_symbol(inner, d.args[i].as_str(), value) {
            Ok(_) => {
                proof {
                    assert(d.args@[(i + 1) - 1] == d.args@[i as int]);
                    assert(SymbolTable::inserts(before, *table, inner, d.args@[i as int]@, v, Ok(())));
                }
            },
            Err(e) => {
                proof {
                    assert(witness((i as int, before)));
                }
                return Err(e);
            },
        }
        i = i + 1;
    }
    let ghost tk = *table;
    let r = reduce(&d.body, table, inner, settings, counter, depth - 1);
    proof {
        assert(witness((d.args@.len() as int, tk)));
    }
    r
}

/// Applies the function `f` to the forms `args[from..]`: a special form
/// as the form requires, and any other function to what its arguments
/// reduce to.
fn apply(
    f: &Function,
    args: &Vec<AstNode>,
    from: usize,
    table: &mut SymbolTable,
    ctx: usize,
    settings: &CompileSettings,
    counter: &mut usize,
    depth: usize,
) -> (r: Result<Option<Node>, Error>)
    requires
        old(table).wf(),
        ctx < old(table).scopes@.len(),
        from <= args@.len(),
    ensures
        final(table).wf(),
        final(table).scopes@.len() >= old(table).scopes@.len(),
        *final(counter) >= *old(counter),
        applies(
            f@,
            args@,
            from as int,
            (State { table: *old(table), counter: *old(counter) }),
            ctx,
            settings.debug,
            depth as nat,
            (State { table: *final(table), counter: *final(counter) }),
            r,
        ),
    decreases depth, args, 4nat, 0nat,
{
    match &f.class {
        FunctionClass::SpecialForm(sf) => apply_form(
            *sf,
            args,
            from,
            table,
            ctx,
            settings,
            counter,
            depth,
        ),
        FunctionClass::Builtin(b) => {
            let ra = reduce_args(args, from, table, ctx, settings, counter, depth);
            assert(witness((State { table: *table, counter: *counter }, ra)));
            let reduced = match ra {
                Ok(v) => v,
                Err(e) => {
                    return Err(e);
                },
            };
            apply_builtin(*b, reduced, table, ctx)
        },
        FunctionClass::UserDefined(d) => {
            let ra = reduce_args(args, from, table, ctx, settings, counter, depth);
            assert(witness((State { table: *table, counter: *counter }, ra)));
            let reduced = match ra {
                Ok(v) => v,
                Err(e) => {
                    return Err(e);
                },
            };
            apply_defined(f, d, reduced, table, ctx, settings, counter, depth, Ghost(*args))
        },
        // A function is resolved through its aliases before it is applied.
        FunctionClass::Alias(_) => Err(Error::UnknownFunction),
    }
}

/// What the application of the operation `b` to the reduced arguments
/// `args` gives: an error where the arguments are not of the right number
/// or kind, and else what the application is lowered to. The column that
/// `nth` picks is looked up in the scope `ctx`.
pub open spec fn applied(
    b: Builtin,
    args: Seq<Node>,
    before: SymbolTable,
    ctx: usize,
    after: SymbolTable,
    r: Result<Option<Node>, Error>,
) -> bool {
    if !b.arity_of().admits(args.len()) {
        r matches Err(e) && e == Error::ArityMismatch && after == before
    } else if !b.accepts(args) {
        r matches Err(e) && e == Error::TypeMismatch && after == before
    } else if b != Builtin::Nth {
        r matches Ok(Some(n)) && n@ == lowered(b, node_views(args)) && after == before
    } else {
        match before.locate_symbol(ctx as int, args[0]._e->ArrayColumn_0@.name) {
            Ok(at) => {
                &&& before.scopes@[at.0].symbols.value_at(at.1) matches Symbol::Final(m, _)
                &&& SymbolTable::rebinds(before, after, at.0, at.1, Symbol::Final(m, true))
                &&& match nth_view(m@, args[1]._e->Const_0@) {
                    Ok(v) => r matches Ok(Some(n)) && n@ == v,
                    Err(e) => r matches Err(e2) && e2 == e,
                }
            },
            Err(e) => r matches Err(e2) && e2 == e && after == before,
        }
    }
}

/// Applies the operation `b` to the reduced arguments `args`.
pub fn apply_builtin(b: Builtin, args: Vec<Node>, table: &mut SymbolTable, ctx: usize) -> (r:
    Result<Option<Node>, Error>)
    requires
        ctx < old(table).scopes@.len(),
    ensures
        old(table).wf() ==> final(table).wf(),
        final(table).scopes@.len() == old(table).scopes@.len(),
        applied(b, args@, *old(table), ctx, *final(table), r),
{
    let args = match b.validate_args(args) {
        Ok(args) => args,
        Err(e) => {
            return Err(e);
        },
    };
    match b {
        Builtin::Nth => {
            match (&args[0]._e, &args[1]._e) {
                (Expression::ArrayColumn(h, _), Expression::Const(x, _)) => {
                    match table.resolve_symbol(ctx, h.name.as_str()) {
                        Ok(column) => match nth(&column, x) {
                            Ok(n) => Ok(Some(n)),
                            Err(e) => Err(e),
                        },
                        Err(e) => Err(e),
                    }
                },
                _ => Err(Error::TypeMismatch),
            }
        },
        _ => Ok(Some(lower(b, args))),
    }
}

/// Lowers the form `e` to an expression, in the scope `ctx`. A form that
/// declares something has no value. `counter` numbers the scopes that are
/// made on the way, and `depth` bounds how deep the applications of
/// functions defined in the source may nest.
pub fn reduce(
    e: &AstNode,
    table: &mut SymbolTable,
    ctx: usize,
    settings: &CompileSettings,
    counter: &mut usize,
    depth: usize,
) -> (r: Result<Option<Node>, Error>)
    requires
        old(table).wf(),
        ctx < old(table).scopes@.len(),
    ensures
        final(table).wf(),
        final(table).scopes@.len() >= old(table).scopes@.len(),
        *final(counter) >= *old(counter),
        reduces(
            *e,
            (State { table: *old(table), counter: *old(counter) }),
            ctx,
            settings.debug,
            depth as nat,
            (State { table: *final(table), counter: *final(counter) }),
            r,
        ),
    decreases depth, e, 0nat, 0nat,
{
    match &e.class {
        Token::Keyword(_) | Token::Type(_) | Token::Range(_) => Ok(None),
        Token::Value(x) => {
            if !x.is_negative() && x.to_field().is_none() {
                return Err(Error::NotInField);
            }
            let t = if x.is_zero() || x.is_one() {
                Type::Scalar(Magma::Boolean)
            } else {
                Type::Scalar(Magma::Integer)
            };
            Ok(Some(constant(x.clone(), t)))
        },
        Token::Symbol(name) => {
            match table.resolve_symbol(ctx, name.as_str()) {
                Ok(n) => Ok(Some(n)),
                Err(e) => Err(e),
            }
        },
        Token::List(args) => {
            if args.len() == 0 {
                let none: Vec<Node> = Vec::new();
                assert(node_views(none@) =~= Seq::<NodeView>::empty());
                Ok(Some(Node { _e: Expression::List(none), _t: Some(Type::Void) }))
            } else {
                match &args[0].class {
                    Token::Symbol(verb) => {
                        match table.resolve_function(ctx, verb.as_str()) {
                            Ok(func) => {
                                proof {
                                    assert(decreases_to!(e.class => e.class->List_0));
                                }
                                apply(&func, args, 1, table, ctx, settings, counter, depth)
                            },
                            Err(e) => Err(e),
                        }
                    },
                    _ => Err(Error::NotAFunction),
                }
            }
        },
        Token::DefColumn(name, _, k) => {
            match k {
                Kind::Composite(body) => {
                    proof {
                        assert(decreases_to!(e.class => e.class->DefColumn_2));
                        assert(decreases_to!(k => k->Composite_0));
                    }
                    let inner: &AstNode = &**body;
                    let rb = reduce(inner, table, ctx, settings, counter, depth);
                    assert(witness((State { table: *table, counter: *counter }, rb)));
                    match rb {
                        Ok(Some(n)) => {
                            if !n.is_evaluable() {
                                return Err(Error::NotInField);
                            }
                            match table.edit_symbol(ctx, name.as_str(), n) {
                                Ok(_) => Ok(None),
                                Err(e) => Err(e),
                            }
                        },
                        Ok(None) => Err(Error::UnexpectedForm),
                        Err(e) => Err(e),
                    }
                },
                _ => Ok(None),
            }
        },
        _ => Ok(None),
    }
}

/// Where the form stands in the source: its line and column, then its
/// text.
pub fn make_ast_error(exp: &AstNode) -> (r: String)
    ensures
        r@ == "at line "@ + crate::text::decimal(exp.lc.0 as nat) + ", column "@
            + crate::text::decimal(exp.lc.1 as nat) + ": "@ + exp.src@,
{
    let mut r = "at line ".to_owned();
    push_decimal(&mut r, exp.lc.0);
    r.append(", column ");
    push_decimal(&mut r, exp.lc.1);
    r.append(": ");
    r.append(exp.src.as_str());
    assert(r@ =~= "at line "@ + crate::text::decimal(exp.lc.0 as nat) + ", column "@
        + crate::text::decimal(exp.lc.1 as nat) + ": "@ + exp.src@);
    r
}

/// What lowering each of the forms `es` to an expression gives and does,
/// up to the first that fails or has no value: on success every form has a
/// value, so that none is left out of the result.
pub open spec fn each_reduces(
    es: Seq<AstNode>,
    s0: State,
    ctx: usize,
    debug: bool,
    s1: State,
    r: Result<Vec<Node>, Error>,
) -> bool {
    match r {
        Ok(v) => v@.len() == es.len() && args_reduced(
            es,
            0,
            es.len() as int,
            s0,
            ctx,
            debug,
            RECURSION_LIMIT as nat,
            s1,
            v@,
        ),
        Err(x) => exists|k: int, sk: State, acc: Seq<Node>|
            #[trigger] witness((k, sk, acc)) && 0 <= k < es.len() && acc.len() == k && args_reduced(
                es,
                0,
                k,
                s0,
                ctx,
                debug,
                RECURSION_LIMIT as nat,
                sk,
                acc,
            ) && (reduces(
                es[k],
                sk,
                ctx,
                debug,
                RECURSION_LIMIT as nat,
                s1,
                Err::<Option<Node>, Error>(x),
            ) || (x == Error::UnexpectedForm && reduces(
                es[k],
                sk,
                ctx,
                debug,
                RECURSION_LIMIT as nat,
                s1,
                Ok::<Option<Node>, Error>(None),
            ))),
    }
}

fn reduce_each(
    es: &Vec<AstNode>,
    table: &mut SymbolTable,
    ctx: usize,
    settings: &CompileSettings,
    counter: &mut usize,
) -> (r: Result<Vec<Node>, Error>)
    requires
        old(table).wf(),
        ctx < old(table).scopes@.len(),
    ensures
        final(table).wf(),
        final(table).scopes@.len() >= old(table).scopes@.len(),
        *final(counter) >= *old(counter),
        each_reduces(
            es@,
            (State { table: *old(table), counter: *old(counter) }),
            ctx,
            settings.debug,
            (State { table: *final(table), counter: *final(counter) }),
            r,
        ),
{
    let ghost s0 = State { table: *table, counter: *counter };
    let mut out: Vec<Node> = Vec::new();
    let mut i: usize = 0;
    while i < es.len()
        invariant
            i <= es.len(),
            out@.len() == i,
            table.wf(),
            ctx < table.scopes@.len(),
            table.scopes@.len() >= old(table).scopes@.len(),
            *counter >= *old(counter),
            s0 == (State { table: *old(table), counter: *old(counter) }),
            args_reduced(
                es@,
                0,
                i as int,
                s0,
                ctx,
                settings.debug,
                RECURSION_LIMIT as nat,
                (State { table: *table, counter: *counter }),
                out@,
            ),
        decreases es.len() - i,
    {
        let ghost before = State { table: *table, counter: *counter };
        let ghost prev = out@;
        let rn = reduce(&es[i], table, ctx, settings, counter, RECURSION_LIMIT);
        proof {
            assert(witness((i as int, before, prev)));
            assert(es@[0 + (i + 1) - 1] == es@[i as int]);
        }
        match rn {
            Ok(Some(n)) => {
                let ghost got = n;
                out.push(n);
                proof {
                    assert(out@ == pushed(prev, Some(got)));
                    assert(witness((before, prev, Some(got))));
                }
            },
            Ok(None) => {
                return Err(Error::UnexpectedForm);
            },
            Err(e) => {
                return Err(e);
            },
        }
        i = i + 1;
    }
    Ok(out)
}

/// What marking the first `k` of the names `es` as used gives and does:
/// `acc` holds their handles, in the module of the scope `ctx`.
pub open spec fn used(
    es: Seq<AstNode>,
    k: int,
    t0: SymbolTable,
    ctx: usize,
    tk: SymbolTable,
    acc: Seq<Handle>,
) -> bool
    decreases k,
{
    if k <= 0 {
        tk == t0 && acc.len() == 0
    } else {
        &&& 0 <= k - 1 < es.len()
        &&& es[k - 1].class matches Token::Symbol(name)
        &&& exists|tp: SymbolTable, prev: Seq<Handle>, n: Node, h: Handle|
            #[trigger] witness((tp, prev, n, h)) && used(es, k - 1, t0, ctx, tp, prev)
                && SymbolTable::resolves(tp, tk, ctx, name@, Ok(n)) && h@ == (HandleView {
                module: tk.scopes@[ctx as int].name@,
                name: name@,
                id: None,
            }) && acc == prev.push(h)
    }
}

/// What marking the names `es` as used gives and does: their handles, or
/// the error of the first that is no name or stands for nothing.
pub open spec fn uses(
    es: Seq<AstNode>,
    t0: SymbolTable,
    ctx: usize,
    t1: SymbolTable,
    r: Result<Vec<Handle>, Error>,
) -> bool {
    match r {
        Ok(v) => used(es, es.len() as int, t0, ctx, t1, v@),
        Err(x) => exists|k: int, tk: SymbolTable, acc: Seq<Handle>|
            #[trigger] witness((k, tk, acc)) && 0 <= k < es.len() && used(es, k, t0, ctx, tk, acc)
                && match es[k].class {
                Token::Symbol(name) => SymbolTable::resolves(
                    tk,
                    t1,
                    ctx,
                    name@,
                    Err::<Node, Error>(x),
                ),
                _ => t1 == tk && x == Error::Parse,
            },
    }
}

fn use_each(es: &Vec<AstNode>, table: &mut SymbolTable, ctx: usize) -> (r: Result<
    Vec<Handle>,
    Error,
>)
    requires
        old(table).wf(),
        ctx < old(table).scopes@.len(),
    ensures
        final(table).wf(),
        final(table).scopes@.len() == old(table).scopes@.len(),
        uses(es@, *old(table), ctx, *final(table), r),
{
    let mut out: Vec<Handle> = Vec::new();
    let mut i: usize = 0;
    while i < es.len()
        invariant
            i <= es.len(),
            table.wf(),
            ctx < table.scopes@.len(),
            table.scopes@.len() == old(table).scopes@.len(),
            used(es@, i as int, *old(table), ctx, *table, out@),
        decreases es.len() - i,
    {
        let ghost before = *table;
        let ghost prev = out@;
        proof {
            assert(witness((i as int, before, prev)));
        }
        match &es[i].class {
            Token::Symbol(name) => {
                let ghost found;
                match table.resolve_symbol(ctx, name.as_str()) {
                    Ok(n) => {
                        proof {
                            found = n;
                        }
                    },
                    Err(e) => {
                        return Err(e);
                    },
                }
                let h = Handle::new(table.scopes[ctx].name.as_str(), name.as_str());
                let ghost made = h;
                out.push(h);
                proof {
                    assert(es@[(i + 1) - 1].class == Token::Symbol(*name));
                    assert(witness((before, prev, found, made)));
                }
            },
            _ => {
                return Err(Error::Parse);
            },
        }
        i = i + 1;
    }
    Ok(out)
}

/// Whether the two lists of rows are the same, or both are wanting.
pub open spec fn same_domain(a: Option<Vec<isize>>, b: Option<Vec<isize>>) -> bool {
    match (a, b) {
        (Some(x), Some(y)) => x@ == y@,
        (None, None) => true,
        _ => false,
    }
}

/// What lowering the top-level form `e` gives and does, from the state
/// `s0` and the current scope `ctx` to the state `s1` and the current scope
/// `ctx_after`.
///
/// A declaration of module makes the scope of the module current. A
/// declaration of columns has the expressions of its computed columns
/// lowered. A declaration of constraint gives the constraint, with its
/// expressions lowered and the columns of a permutation marked as used;
/// an expression that cannot be evaluated, for holding a constant that lies
/// outside the field where an element of the field is wanted, is an
/// error. A constraint that the source does not name bears a name of which
/// nothing is said. The other declarations give nothing, and anything else is an
/// error.
pub open spec fn toplevel_reduces(
    e: AstNode,
    s0: State,
    ctx: usize,
    debug: bool,
    s1: State,
    ctx_after: usize,
    r: Result<Option<Constraint>, Error>,
) -> bool {
    let module = s0.table.scopes@[ctx as int].name@;
    let limit = RECURSION_LIMIT as nat;
    match e.class {
        Token::Value(_) | Token::Symbol(_) | Token::List(_) | Token::Range(_) | Token::Keyword(_)
        | Token::Type(_) => s1 == s0 && ctx_after == ctx && (r matches Err(x) && x
            == Error::UnexpectedForm),
        Token::Defun(_, _, _) | Token::Defpurefun(_, _, _) | Token::DefAliases(_)
        | Token::DefAlias(_, _) | Token::DefunAlias(_, _) | Token::DefConsts(_)
        | Token::DefColumn(_, _, _) | Token::DefArrayColumn(_, _, _) => s1 == s0 && ctx_after
            == ctx && (r matches Ok(None)),
        Token::DefModule(name) => (r matches Ok(None)) && s1.counter == s0.counter
            && SymbolTable::derives(s0.table, s1.table, 0, name@, name@, false, ctx_after),
        Token::DefConstraint(name, domain, expr) => ctx_after == ctx && match r {
            Ok(c) => {
                &&& c matches Some(Constraint::Vanishes { handle, domain: d, expr: n })
                &&& handle@ == (HandleView { module, name: name@, id: None })
                &&& same_domain(domain, d)
                &&& evaluable(n@)
                &&& exists|x: Option<Node>|
                    #[trigger] witness(x) && reduces(*expr, s0, ctx, debug, limit, s1, Ok(x)) && n@
                        == match x {
                        Some(m) => m@,
                        None => void_view(),
                    }
            },
            Err(x) => reduces(*expr, s0, ctx, debug, limit, s1, Err::<Option<Node>, Error>(x)) || (x
                == Error::NotInField && exists|m: Node|
                #[trigger] witness(m) && reduces(*expr, s0, ctx, debug, limit, s1, Ok(Some(m)))
                    && !evaluable(m@)),
        },
        Token::DefPlookup(name, parents, children) => ctx_after == ctx && exists|
            sm: State,
            rp: Result<Vec<Node>, Error>,
        |
            #[trigger] witness((sm, rp)) && each_reduces(parents@, s0, ctx, debug, sm, rp)
                && match rp {
                Err(x) => s1 == sm && (r matches Err(y) && y == x),
                Ok(ps) => exists|rc: Result<Vec<Node>, Error>|
                    #[trigger] witness(rc) && each_reduces(children@, sm, ctx, debug, s1, rc)
                        && match rc {
                        Err(x) => (r matches Err(y) && y == x),
                        Ok(cs) => if ps@.len() != cs@.len() {
                            r matches Err(y) && y == Error::IncoherentLengths
                        } else if !evaluable_from(node_views(ps@), 0, None) || !evaluable_from(
                            node_views(cs@),
                            0,
                            None,
                        ) {
                            r matches Err(y) && y == Error::NotInField
                        } else {
                            &&& r matches Ok(Some(Constraint::Plookup(handle, parents2, children2)))
                            &&& handle@ == (HandleView { module, name: name@, id: None })
                            &&& parents2 == ps
                            &&& children2 == cs
                        },
                    },
            },
        Token::DefInrange(expr, bound) => ctx_after == ctx && match r {
            Ok(c) => {
                &&& c matches Some(Constraint::InRange(handle, n, b))
                &&& handle@.module == module
                &&& handle@.id is None
                &&& b == bound
                &&& evaluable(n@)
                &&& reduces(*expr, s0, ctx, debug, limit, s1, Ok(Some(n)))
            },
            Err(x) => reduces(*expr, s0, ctx, debug, limit, s1, Err::<Option<Node>, Error>(x)) || (x
                == Error::UnexpectedForm && reduces(
                *expr,
                s0,
                ctx,
                debug,
                limit,
                s1,
                Ok::<Option<Node>, Error>(None),
            )) || (x == Error::NotInField && exists|m: Node|
                #[trigger] witness(m) && reduces(*expr, s0, ctx, debug, limit, s1, Ok(Some(m)))
                    && !evaluable(m@)),
        },
        Token::DefColumns(columns) => ctx_after == ctx && exists|ra: Result<Vec<Node>, Error>|
            #[trigger] witness(ra) && args_reduce(columns@, 0, s0, ctx, debug, limit, s1, ra)
                && match ra {
                Ok(_) => r matches Ok(None),
                Err(x) => r matches Err(y) && y == x,
            },
        Token::DefPermutation(tos, froms) => ctx_after == ctx && s1.counter == s0.counter
            && exists|tm: SymbolTable, rf: Result<Vec<Handle>, Error>|
            #[trigger] witness((tm, rf)) && uses(froms@, s0.table, ctx, tm, rf) && match rf {
                Err(x) => s1.table == tm && (r matches Err(y) && y == x),
                Ok(fs) => exists|rt: Result<Vec<Handle>, Error>|
                    #[trigger] witness(rt) && uses(tos@, tm, ctx, s1.table, rt) && match rt {
                        Err(x) => (r matches Err(y) && y == x),
                        Ok(ts) => {
                            &&& r matches Ok(Some(Constraint::Permutation(handle, f2, t2)))
                            &&& handle@.module == module
                            &&& handle@.id is None
                            &&& f2 == fs
                            &&& t2 == ts
                        },
                    },
            },
    }
}

fn copy_domain(domain: &Option<Vec<isize>>) -> (r: Option<Vec<isize>>)
    ensures
        same_domain(*domain, r),
{
    match domain {
        None => None,
        Some(d) => {
            let mut out: Vec<isize> = Vec::new();
            let mut i: usize = 0;
            while i < d.len()
                invariant
                    i <= d.len(),
                    out@ == d@.take(i as int),
                decreases d.len() - i,
            {
                out.push(d[i]);
                i = i + 1;
            }
            assert(d@.take(i as int) =~= d@);
            Some(out)
        },
    }
}

/// Lowers the top-level form `e`: to a constraint if it declares one, to
/// nothing otherwise. `ctx` is the current scope: a declaration of module
/// makes the scope of that module current.
pub fn reduce_toplevel(
    e: &AstNode,
    table: &mut SymbolTable,
    ctx: &mut usize,
    settings: &CompileSettings,
    counter: &mut usize,
) -> (r: Result<Option<Constraint>, Error>)
    requires
        old(table).wf(),
        *old(ctx) < old(table).scopes@.len(),
    ensures
        final(table).wf(),
        *final(ctx) < final(table).scopes@.len(),
        final(table).scopes@.len() >= old(table).scopes@.len(),
        *final(counter) >= *old(counter),
        toplevel_reduces(
            *e,
            (State { table: *old(table), counter: *old(counter) }),
            *old(ctx),
            settings.debug,
            (State { table: *final(table), counter: *final(counter) }),
            *final(ctx),
            r,
        ),
{
    let scope = *ctx;
    match &e.class {
        Token::DefConstraint(name, domain, expr) => {
            let handle = Handle::new(table.scopes[scope].name.as_str(), name.as_str());
            let inner: &AstNode = &**expr;
            let rb = reduce(inner, table, scope, settings, counter, RECURSION_LIMIT);
            match rb {
                Ok(x) => {
                    proof {
                        assert(witness(x));
                        if x is Some {
                            assert(witness(x->0));
                        }
                    }
                    let n = match x {
                        Some(n) => n,
                        None => Node { _e: Expression::Void, _t: None },
                    };
                    if !n.is_evaluable() {
                        return Err(Error::NotInField);
                    }
                    Ok(
                        Some(
                            Constraint::Vanishes {
                                handle,
                                domain: copy_domain(domain),
                                expr: Box::new(n),
                            },
                        ),
                    )
                },
                Err(e) => Err(e),
            }
        },
        Token::DefPlookup(name, parents, children) => {
            let handle = Handle::new(table.scopes[scope].name.as_str(), name.as_str());
            let rp = reduce_each(parents, table, scope, settings, counter);
            proof {
                assert(witness((State { table: *table, counter: *counter }, rp)));
            }
            let ps = match rp {
                Ok(v) => v,
                Err(e) => {
                    return Err(e);
                },
            };
            let rc = reduce_each(children, table, scope, settings, counter);
            proof {
                assert(witness(rc));
            }
            let cs = match rc {
                Ok(v) => v,
                Err(e) => {
                    return Err(e);
                },
            };
            if ps.len() != cs.len() {
                Err(Error::IncoherentLengths)
            } else if !all_evaluable(&ps) || !all_evaluable(&cs) {
                Err(Error::NotInField)
            } else {
                Ok(Some(Constraint::Plookup(handle, ps, cs)))
            }
        },
        Token::DefInrange(expr, bound) => {
            let name = fresh_name();
            let handle = Handle::new(table.scopes[scope].name.as_str(), name.as_str());
            let inner: &AstNode = &**expr;
            match reduce(inner, table, scope, settings, counter, RECURSION_LIMIT) {
                Ok(Some(n)) => {
                    proof {
                        assert(witness(n));
                    }
                    if !n.is_evaluable() {
                        return Err(Error::NotInField);
                    }
                    Ok(Some(Constraint::InRange(handle, n, *bound)))
                },
                Ok(None) => Err(Error::UnexpectedForm),
                Err(e) => Err(e),
            }
        },
        Token::DefColumns(columns) => {
            let ra = reduce_args(columns, 0, table, scope, settings, counter, RECURSION_LIMIT);
            proof {
                assert(witness(ra));
            }
            match ra {
                Ok(_) => Ok(None),
                Err(e) => Err(e),
            }
        },
        Token::DefModule(name) => {
            *ctx = table.derived(0, name.as_str(), name.as_str(), false);
            Ok(None)
        },
        Token::Value(_) | Token::Symbol(_) | Token::List(_) | Token::Range(_) | Token::Keyword(_)
        | Token::Type(_) => Err(Error::UnexpectedForm),
        Token::Defun(_, _, _) | Token::Defpurefun(_, _, _) | Token::DefAliases(_)
        | Token::DefAlias(_, _) | Token::DefunAlias(_, _) | Token::DefConsts(_)
        | Token::DefColumn(_, _, _) | Token::DefArrayColumn(_, _, _) => Ok(None),
        Token::DefPermutation(tos, froms) => {
            let module = table.scopes[scope].name.clone();
            // The columns of a permutation count as used.
            let rf = use_each(froms, table, scope);
            proof {
                assert(witness((*table, rf)));
            }
            let fs = match rf {
                Ok(v) => v,
                Err(e) => {
                    return Err(e);
                },
            };
            let rt = use_each(tos, table, scope);
            proof {
                assert(witness(rt));
            }
            let ts = match rt {
                Ok(v) => v,
                Err(e) => {
                    return Err(e);
                },
            };
            let name = fresh_name();
            let handle = Handle::new(module.as_str(), name.as_str());
            Ok(Some(Constraint::Permutation(handle, fs, ts)))
        },
    }
}

/// The constraints `prev`, with `c` after them where there is one.
pub open spec fn gathered(prev: Seq<Constraint>, c: Option<Constraint>) -> Seq<Constraint> {
    match c {
        Some(x) => prev.push(x),
        None => prev,
    }
}

/// What lowering the first `k` of the top-level forms `exprs` gives and
/// does, starting in the root scope: `ck` is the scope that is current
/// after them, and `acc` holds the constraints that they declare, in order.
pub open spec fn passed(
    exprs: Seq<AstNode>,
    k: int,
    s0: State,
    debug: bool,
    sk: State,
    ck: usize,
    acc: Seq<Constraint>,
) -> bool
    decreases k,
{
    if k <= 0 {
        sk == s0 && ck == 0 && acc.len() == 0
    } else {
        0 <= k - 1 < exprs.len() && exists|
            sp: State,
            cp: usize,
            prev: Seq<Constraint>,
            c: Option<Constraint>,
        |
            #[trigger] witness((sp, cp, prev, c)) && passed(exprs, k - 1, s0, debug, sp, cp, prev)
                && toplevel_reduces(exprs[k - 1], sp, cp, debug, sk, ck, Ok(c)) && acc == gathered(
                prev,
                c,
            )
    }
}

/// What lowering the top-level forms `exprs` one after another gives and
/// does: the constraints that they declare, or the error of the first that
/// fails.
pub open spec fn passes(
    exprs: Seq<AstNode>,
    s0: State,
    debug: bool,
    s1: State,
    r: Result<Vec<Constraint>, Error>,
) -> bool {
    match r {
        Ok(v) => exists|c: usize|
            #[trigger] witness(c) && passed(exprs, exprs.len() as int, s0, debug, s1, c, v@),
        Err(x) => exists|k: int, sk: State, ck: usize, acc: Seq<Constraint>, c: usize|
            #[trigger] witness((k, sk, ck, acc, c)) && 0 <= k < exprs.len() && passed(
                exprs,
                k,
                s0,
                debug,
                sk,
                ck,
                acc,
            ) && toplevel_reduces(
                exprs[k],
                sk,
                ck,
                debug,
                s1,
                c,
                Err::<Option<Constraint>, Error>(x),
            ),
    }
}

/// Lowers all the top-level forms of `ast`, in order, and gathers the
/// constraints they declare; the first form that fails ends the pass.
pub fn pass(ast: &Ast, table: &mut SymbolTable, settings: &CompileSettings, counter: &mut usize) -> (r:
    Result<Vec<Constraint>, Error>)
    requires
        old(table).wf(),
    ensures
        final(table).wf(),
        final(table).scopes@.len() >= old(table).scopes@.len(),
        *final(counter) >= *old(counter),
        passes(
            ast.exprs@,
            (State { table: *old(table), counter: *old(counter) }),
            settings.debug,
            (State { table: *final(table), counter: *final(counter) }),
            r,
        ),
{
    let ghost s0 = State { table: *table, counter: *counter };
    let mut out: Vec<Constraint> = Vec::new();
    let mut ctx: usize = 0;
    let mut i: usize = 0;
    while i < ast.exprs.len()
        invariant
            i <= ast.exprs.len(),
            table.wf(),
            ctx < table.scopes@.len(),
            table.scopes@.len() >= old(table).scopes@.len(),
            *counter >= *old(counter),
            s0 == (State { table: *old(table), counter: *old(counter) }),
            passed(
                ast.exprs@,
                i as int,
                s0,
                settings.debug,
                (State { table: *table, counter: *counter }),
                ctx,
                out@,
            ),
        decreases ast.exprs.len() - i,
    {
        let ghost before = State { table: *table, counter: *counter };
        let ghost scope = ctx;
        let ghost prev = out@;
        let rc = reduce_toplevel(&ast.exprs[i], table, &mut ctx, settings, counter);
        proof {
            assert(witness((i as int, before, scope, prev, ctx)));
        }
        match rc {
            Ok(c) => {
                let ghost got = c;
                match c {
                    Some(c) => {
                        out.push(c);
                    },
                    None => {},
                }
                proof {
                    assert(out@ == gathered(prev, got));
                    assert(ast.exprs@[(i + 1) - 1] == ast.exprs@[i as int]);
                    assert(witness((before, scope, prev, got)));
                }
            },
            Err(e) => {
                return Err(e);
            },
        }
        i = i + 1;
    }
    proof {
        assert(witness(ctx));
    }
    Ok(out)
}

} // verus!
