//! The typed expression tree that constraints and computations are made of.

use crate::column::ColumnSet;
use crate::compiler::common::{Handle, HandleView};
use crate::compiler::generator::Builtin;
use crate::compiler::types::{Magma, Type};
use crate::field::Fr;
use crate::integer::Integer;
use vstd::prelude::*;

verus! {

/// How a column comes by its values.
pub enum Kind<T> {
    /// Given by the trace.
    Atomic,
    /// Declared here and filled by a computation declared elsewhere.
    Phantom,
    /// Computed from an expression.
    Composite(Box<T>),
    /// Made by interleaving other columns.
    Interleaved(Vec<Handle>),
}

/// An expression over the columns of a trace.
pub enum Expression {
    /// An integer constant, with the element of the field it stands for
    /// when it lies in the field.
    Const(Integer, Option<Fr>),
    /// A column, named by its handle.
    Column(Handle, Kind<Node>),
    /// A family of columns, indexed by the given numbers.
    ArrayColumn(Handle, Vec<usize>),
    /// A sequence of expressions; as a constraint it stands for its first
    /// non-zero value, or for zero.
    List(Vec<Node>),
    /// A primitive operation applied to arguments.
    Funcall { func: Builtin, args: Vec<Node> },
    /// No value.
    Void,
}

/// An expression together with its type, where the type is already known.
pub struct Node {
    pub _e: Expression,
    pub _t: Option<Type>,
}

/// The mathematical content of a [`Kind`] of nodes.
pub enum KindView {
    Atomic,
    Phantom,
    Composite(Box<NodeView>),
    Interleaved(Seq<HandleView>),
}

/// The mathematical content of an [`Expression`].
pub enum ExpressionView {
    Const(int, Option<nat>),
    Column(HandleView, KindView),
    ArrayColumn(HandleView, Seq<usize>),
    List(Seq<NodeView>),
    Funcall { func: Builtin, args: Seq<NodeView> },
    Void,
}

/// The mathematical content of a [`Node`].
pub struct NodeView {
    pub e: ExpressionView,
    pub t: Option<Type>,
}

/// The contents of a sequence of handles.
pub open spec fn handle_views(hs: Seq<Handle>) -> Seq<HandleView> {
    Seq::new(hs.len(), |i: int| hs[i]@)
}

/// The content of a node.
pub open spec fn node_view(n: Node) -> NodeView
    decreases n,
{
    NodeView { e: expression_view(n._e), t: n._t }
}

/// The contents of a sequence of nodes.
pub open spec fn node_views(ns: Seq<Node>) -> Seq<NodeView>
    decreases ns,
{
    Seq::new(
        ns.len(),
        |i: int|
            if 0 <= i < ns.len() {
                node_view(ns[i])
            } else {
                NodeView { e: ExpressionView::Void, t: None }
            },
    )
}

/// The content of an expression.
pub open spec fn expression_view(e: Expression) -> ExpressionView
    decreases e,
{
    match e {
        Expression::Const(x, fr) => ExpressionView::Const(
            x@,
            match fr {
                Some(f) => Some(f.value()),
                None => None,
            },
        ),
        Expression::Column(h, k) => ExpressionView::Column(
            h@,
            match k {
                Kind::Atomic => KindView::Atomic,
                Kind::Phantom => KindView::Phantom,
                Kind::Composite(n) => KindView::Composite(Box::new(node_view(*n))),
                Kind::Interleaved(hs) => KindView::Interleaved(handle_views(hs@)),
            },
        ),
        Expression::ArrayColumn(h, range) => ExpressionView::ArrayColumn(h@, range@),
        Expression::List(ns) => ExpressionView::List(node_views(ns@)),
        Expression::Funcall { func, args } => ExpressionView::Funcall {
            func,
            args: node_views(args@),
        },
        Expression::Void => ExpressionView::Void,
    }
}

impl View for Node {
    type V = NodeView;

    open spec fn view(&self) -> NodeView {
        node_view(*self)
    }
}

impl View for Expression {
    type V = ExpressionView;

    open spec fn view(&self) -> ExpressionView {
        expression_view(*self)
    }
}

/// The type of a constant.
pub open spec fn const_type(x: int) -> Type {
    if x == 0 || x == 1 {
        Type::Scalar(Magma::Boolean)
    } else {
        Type::Scalar(Magma::Integer)
    }
}

/// The type of a node: the one it carries, or else the one that its
/// expression has by its form.
pub open spec fn type_of(n: NodeView) -> Type
    decreases n,
{
    match n.t {
        Some(t) => t,
        None => match n.e {
            ExpressionView::Const(x, _) => const_type(x),
            ExpressionView::Column(_, _) => Type::Column(Magma::Integer),
            ExpressionView::ArrayColumn(_, _) => Type::Column(Magma::Integer),
            ExpressionView::List(ns) => Type::List(Type::join_all(types_of(ns)).magma_spec()),
            ExpressionView::Funcall { func, args } => func.typing_spec(types_of(args)),
            ExpressionView::Void => Type::Void,
        },
    }
}

/// The types of the nodes of a sequence.
pub open spec fn types_of(ns: Seq<NodeView>) -> Seq<Type>
    decreases ns,
{
    Seq::new(
        ns.len(),
        |i: int|
            if 0 <= i < ns.len() {
                type_of(ns[i])
            } else {
                Type::Void
            },
    )
}

/// A copy of the handles of `hs`.
pub fn clone_handles(hs: &Vec<Handle>) -> (r: Vec<Handle>)
    ensures
        r@ == hs@,
{
    let mut r: Vec<Handle> = Vec::new();
    let mut i: usize = 0;
    while i < hs.len()
        invariant
            i <= hs.len(),
            r@ == hs@.take(i as int),
        decreases hs.len() - i,
    {
        r.push(hs[i].clone());
        i = i + 1;
    }
    assert(hs@.take(i as int) =~= hs@);
    r
}

/// A copy of the numbers of `v`.
pub fn clone_indices(v: &Vec<usize>) -> (r: Vec<usize>)
    ensures
        r@ == v@,
{
    let mut r: Vec<usize> = Vec::new();
    let mut i: usize = 0;
    while i < v.len()
        invariant
            i <= v.len(),
            r@ == v@.take(i as int),
        decreases v.len() - i,
    {
        r.push(v[i]);
        i = i + 1;
    }
    assert(v@.take(i as int) =~= v@);
    r
}

/// A copy of the nodes of `ns`.
pub fn clone_nodes(ns: &Vec<Node>) -> (r: Vec<Node>)
    ensures
        node_views(r@) == node_views(ns@),
        r@.len() == ns@.len(),
    decreases ns,
{
    let mut r: Vec<Node> = Vec::new();
    let mut i: usize = 0;
    while i < ns.len()
        invariant
            i <= ns.len(),
            r@.len() == i,
            forall|j: int| 0 <= j < i ==> node_view(r@[j]) == node_view(ns@[j]),
        decreases ns.len() - i,
    {
        proof {
            vstd::std_specs::vec::axiom_vec_index_decreases(*ns, i as int);
        }
        let c = ns[i].clone();
        r.push(c);
        i = i + 1;
    }
    assert(node_views(r@) =~= node_views(ns@));
    r
}

impl Clone for Node {
    fn clone(&self) -> (r: Node)
        ensures
            r@ == self@,
        decreases self,
    {
        let e = match &self._e {
            Expression::Const(x, fr) => Expression::Const(x.clone(), *fr),
            Expression::Column(h, k) => {
                proof {
                    assert(decreases_to!(self._e => self._e->Column_1));
                }
                let kind = match k {
                    Kind::Atomic => Kind::Atomic,
                    Kind::Phantom => Kind::Phantom,
                    Kind::Composite(n) => {
                        proof {
                            assert(decreases_to!(k => k->Composite_0));
                        }
                        let inner: &Node = &**n;
                        Kind::Composite(Box::new(inner.clone()))
                    },
                    Kind::Interleaved(hs) => Kind::Interleaved(clone_handles(hs)),
                };
                Expression::Column(h.clone(), kind)
            },
            Expression::ArrayColumn(h, range) => Expression::ArrayColumn(
                h.clone(),
                clone_indices(range),
            ),
            Expression::List(ns) => {
                proof {
                    assert(decreases_to!(self._e => self._e->List_0));
                }
                let c = clone_nodes(ns);
                Expression::List(c)
            },
            Expression::Funcall { func, args } => {
                proof {
                    assert(decreases_to!(self._e => self._e->args));
                }
                let c = clone_nodes(args);
                Expression::Funcall { func: *func, args: c }
            },
            Expression::Void => Expression::Void,
        };
        Node { _e: e, _t: self._t }
    }
}

impl Node {
    /// The node of expression `e`, whose type is left to be computed.
    pub fn from_expr(e: Expression) -> (r: Node)
        ensures
            r@ == (NodeView { e: e@, t: None }),
    {
        Node { _e: e, _t: None }
    }

    /// The constant `x`, typed as a boolean scalar when it is zero or one and
    /// as an integer scalar otherwise.
    pub fn from_integer(x: Integer) -> (r: Node)
        ensures
            r@.t == Some(const_type(x@)),
            r@.e matches ExpressionView::Const(v, fr) && v == x@ && (fr matches Some(f) ==> f
                == x@) && (fr is Some <==> 0 <= x@ < crate::field::modulus()),
    {
        let fr = x.to_field();
        let boolean = x.is_zero() || x.is_one();
        let t = if boolean {
            Type::Scalar(Magma::Boolean)
        } else {
            Type::Scalar(Magma::Integer)
        };
        Node { _e: Expression::Const(x, fr), _t: Some(t) }
    }

    /// The constant `x`.
    pub fn from_const(x: i64) -> (r: Node)
        ensures
            r@.t == Some(const_type(x as int)),
            r@.e matches ExpressionView::Const(v, fr) && v == x && (fr matches Some(f) ==> f == x)
                && (fr is Some <==> 0 <= x),
    {
        Node::from_integer(Integer::from_i64(x))
    }

    /// The constant one.
    pub fn one() -> (r: Node)
        ensures
            r@ == (NodeView {
                e: ExpressionView::Const(1, Some(1)),
                t: Some(Type::Scalar(Magma::Boolean)),
            }),
    {
        Node::from_const(1)
    }

    /// The constant zero.
    pub fn zero() -> (r: Node)
        ensures
            r@ == (NodeView {
                e: ExpressionView::Const(0, Some(0)),
                t: Some(Type::Scalar(Magma::Boolean)),
            }),
    {
        Node::from_const(0)
    }

    /// The expression of the node.
    pub fn e(&self) -> (r: &Expression)
        ensures
            *r == self._e,
    {
        &self._e
    }

    /// The type of the node.
    pub fn t(&self) -> (r: Type)
        ensures
            r == type_of(self@),
        decreases self,
    {
        match self._t {
            Some(t) => t,
            None => match &self._e {
                Expression::Const(x, _) => {
                    assert(type_of(self@) == const_type(x@));
                    if x.is_zero() || x.is_one() {
                        Type::Scalar(Magma::Boolean)
                    } else {
                        Type::Scalar(Magma::Integer)
                    }
                },
                Expression::Column(_, _) => {
                    assert(type_of(self@) == Type::Column(Magma::Integer));
                    Type::Column(Magma::Integer)
                },
                Expression::ArrayColumn(_, _) => {
                    assert(type_of(self@) == Type::Column(Magma::Integer));
                    Type::Column(Magma::Integer)
                },
                Expression::List(ns) => {
                    proof {
                        assert(decreases_to!(self._e => self._e->List_0));
                    }
                    let ts = Node::types(ns);
                    let r = Type::List(Type::max_all(ts.as_slice()).magma());
                    assert(r == type_of(self@));
                    r
                },
                Expression::Funcall { func, args } => {
                    proof {
                        assert(decreases_to!(self._e => self._e->args));
                    }
                    let ts = Node::types(args);
                    let r = func.typing(ts.as_slice());
                    assert(r == type_of(self@));
                    r
                },
                Expression::Void => {
                    assert(type_of(self@) == Type::Void);
                    Type::Void
                },
            },
        }
    }

    /// The types of the nodes of `ns`.
    pub fn types(ns: &Vec<Node>) -> (r: Vec<Type>)
        ensures
            r@ == types_of(node_views(ns@)),
        decreases ns,
    {
        let mut r: Vec<Type> = Vec::new();
        let mut i: usize = 0;
        while i < ns.len()
            invariant
                i <= ns.len(),
                r@.len() == i,
                forall|j: int| 0 <= j < i ==> r@[j] == type_of(node_view(ns@[j])),
            decreases ns.len() - i,
        {
            proof {
                vstd::std_specs::vec::axiom_vec_index_decreases(*ns, i as int);
            }
            let t = ns[i].t();
            r.push(t);
            i = i + 1;
        }
        assert(r@ =~= types_of(node_views(ns@)));
        r
    }
}

/// The handle `h`, with the index that `cs` gives to the column it names
/// as its id, where `cs` has such a column.
pub open spec fn handle_with_id(h: HandleView, cs: ColumnSet) -> HandleView {
    match cs.spec_id(h.module, h.name) {
        Some(id) => HandleView { id: Some(id), ..h },
        None => h,
    }
}

/// The node `n`, in which each handle that names a column of `cs` has the
/// index of that column as its id.
pub open spec fn with_ids(n: NodeView, cs: ColumnSet) -> NodeView
    decreases n, 0nat,
{
    match n.e {
        ExpressionView::Column(h, k) => NodeView {
            e: ExpressionView::Column(handle_with_id(h, cs), k),
            t: n.t,
        },
        ExpressionView::List(xs) => NodeView { e: ExpressionView::List(all_with_ids(xs, cs)), t: n.t },
        ExpressionView::Funcall { func, args } => NodeView {
            e: ExpressionView::Funcall { func, args: all_with_ids(args, cs) },
            t: n.t,
        },
        _ => n,
    }
}

/// The nodes of `ns`, each with the ids that `cs` gives.
pub open spec fn all_with_ids(ns: Seq<NodeView>, cs: ColumnSet) -> Seq<NodeView>
    decreases ns, 1nat,
{
    Seq::new(
        ns.len(),
        |i: int|
            if 0 <= i < ns.len() {
                with_ids(ns[i], cs)
            } else {
                NodeView { e: ExpressionView::Void, t: None }
            },
    )
}

/// The handles of `hs`, each with the id that `cs` gives.
pub open spec fn handles_with_ids(hs: Seq<HandleView>, cs: ColumnSet) -> Seq<HandleView> {
    Seq::new(hs.len(), |i: int| handle_with_id(hs[i], cs))
}

/// The handles of the columns that the node reads, in the order in which
/// they occur.
pub open spec fn leaves(n: NodeView) -> Seq<HandleView>
    decreases n, 0nat,
{
    match n.e {
        ExpressionView::Column(h, _) => seq![h],
        ExpressionView::List(xs) => leaves_from(xs, 0),
        ExpressionView::Funcall { func, args } => leaves_from(args, 0),
        _ => Seq::empty(),
    }
}

/// The handles of the columns that the nodes `ns[k..]` read.
pub open spec fn leaves_from(ns: Seq<NodeView>, k: int) -> Seq<HandleView>
    decreases ns, ns.len() - k,
{
    if k < 0 || k >= ns.len() {
        Seq::empty()
    } else {
        leaves(ns[k]) + leaves_from(ns, k + 1)
    }
}

/// Whether the `k`-th argument of `func` stands for a number of rows, of
/// times or of columns, rather than for an element of the field.
pub open spec fn counts(func: Builtin, k: int) -> bool {
    (func == Builtin::Shift || func == Builtin::Exp || func == Builtin::Nth) && k == 1
}

/// Whether the node can be evaluated: every constant that stands in it for
/// an element of the field lies in the field.
pub open spec fn evaluable(n: NodeView) -> bool
    decreases n, 0nat,
{
    match n.e {
        ExpressionView::Const(_, fr) => fr is Some,
        ExpressionView::List(xs) => evaluable_from(xs, 0, None),
        ExpressionView::Funcall { func, args } => evaluable_from(args, 0, Some(func)),
        _ => true,
    }
}

/// Whether the nodes `ns[k..]` can be evaluated, as the arguments of
/// `func` where it is given.
pub open spec fn evaluable_from(ns: Seq<NodeView>, k: int, func: Option<Builtin>) -> bool
    decreases ns, ns.len() - k,
{
    if k < 0 || k >= ns.len() {
        true
    } else {
        (match func {
            Some(f) => counts(f, k) || evaluable(ns[k]),
            None => evaluable(ns[k]),
        }) && evaluable_from(ns, k + 1, func)
    }
}

/// The lesser of two numbers where `past` is set, the greater otherwise.
pub open spec fn pick(past: bool, a: int, b: int) -> int {
    if past == (a <= b) {
        a
    } else {
        b
    }
}

/// By how many rows a shift of amount `n` moves: the value of `n` where it
/// is a constant that fits in an `isize`, zero otherwise.
pub open spec fn shift_amount(n: NodeView) -> int {
    match crate::compiler::eval::pure_value(n) {
        Some(k) => if isize::MIN <= k <= isize::MAX {
            k
        } else {
            0
        },
        None => 0,
    }
}

/// How far the node reads into the past (a number that is zero or less)
/// where `past` is set, into the future (zero or more) otherwise: the least,
/// or the greatest, of zero and of the amounts of the shifts in the node.
pub open spec fn spill(n: NodeView, past: bool) -> int
    decreases n, 0nat,
{
    match n.e {
        ExpressionView::List(xs) => spill_from(xs, 0, 0, past),
        ExpressionView::Funcall { func, args } => spill_from(
            args,
            0,
            if func == Builtin::Shift && args.len() == 2 {
                pick(past, 0, shift_amount(args[1]))
            } else {
                0
            },
            past,
        ),
        _ => 0,
    }
}

/// The least, or the greatest, of `acc` and of how far the nodes `ns[k..]`
/// read.
pub open spec fn spill_from(ns: Seq<NodeView>, k: int, acc: int, past: bool) -> int
    decreases ns, ns.len() - k,
{
    if k < 0 || k >= ns.len() {
        acc
    } else {
        spill_from(ns, k + 1, pick(past, acc, spill(ns[k], past)), past)
    }
}

/// Whether `hs` holds a handle of the module and name of `h`.
pub open spec fn has_key(hs: Seq<HandleView>, h: HandleView) -> bool {
    exists|i: int| 0 <= i < hs.len() && (#[trigger] hs[i]).key() == h.key()
}

/// Whether no two handles of `hs` have the same module and name.
pub open spec fn distinct_keys(hs: Seq<HandleView>) -> bool {
    forall|i: int, j: int|
        0 <= i < j < hs.len() ==> (#[trigger] hs[i]).key() != (#[trigger] hs[j]).key()
}

fn pick_exec(past: bool, a: isize, b: isize) -> (r: isize)
    ensures
        r == pick(past, a as int, b as int),
{
    if past == (a <= b) {
        a
    } else {
        b
    }
}

fn spill_from_exec(ns: &Vec<Node>, init: isize, past: bool) -> (r: isize)
    ensures
        r == spill_from(node_views(ns@), 0, init as int, past),
    decreases ns, 0nat,
{
    let mut acc = init;
    let mut k: usize = 0;
    while k < ns.len()
        invariant
            k <= ns.len(),
            spill_from(node_views(ns@), 0, init as int, past) == spill_from(
                node_views(ns@),
                k as int,
                acc as int,
                past,
            ),
        decreases ns.len() - k,
    {
        proof {
            vstd::std_specs::vec::axiom_vec_index_decreases(*ns, k as int);
        }
        let x = ns[k].spill_exec(past);
        acc = pick_exec(past, acc, x);
        k = k + 1;
    }
    acc
}

fn evaluable_from_exec(ns: &Vec<Node>, func: Option<Builtin>) -> (r: bool)
    ensures
        r == evaluable_from(node_views(ns@), 0, func),
    decreases ns, 0nat,
{
    let counting = match func {
        Some(f) => matches!(f, Builtin::Shift | Builtin::Exp | Builtin::Nth),
        None => false,
    };
    let mut k: usize = 0;
    while k < ns.len()
        invariant
            k <= ns.len(),
            counting == (func matches Some(f) && (f == Builtin::Shift || f == Builtin::Exp || f
                == Builtin::Nth)),
            evaluable_from(node_views(ns@), 0, func) == evaluable_from(
                node_views(ns@),
                k as int,
                func,
            ),
        decreases ns.len() - k,
    {
        proof {
            vstd::std_specs::vec::axiom_vec_index_decreases(*ns, k as int);
        }
        if !(counting && k == 1) {
            if !ns[k].is_evaluable() {
                return false;
            }
        }
        k = k + 1;
    }
    true
}

/// Whether each of the nodes `ns` can be evaluated.
pub fn all_evaluable(ns: &Vec<Node>) -> (r: bool)
    ensures
        r == evaluable_from(node_views(ns@), 0, None),
{
    evaluable_from_exec(ns, None)
}

fn push_missing(out: &mut Vec<Handle>, h: &Handle)
    requires
        distinct_keys(handle_views(old(out)@)),
    ensures
        distinct_keys(handle_views(final(out)@)),
        has_key(handle_views(final(out)@), h@),
        final(out)@.len() >= old(out)@.len(),
        final(out)@.take(old(out)@.len() as int) == old(out)@,
        final(out)@.len() == old(out)@.len() || (final(out)@ == old(out)@.push(*h) && !has_key(
            handle_views(old(out)@),
            h@,
        )),
{
    let mut i: usize = 0;
    while i < out.len()
        invariant
            i <= out.len(),
            *out == *old(out),
            distinct_keys(handle_views(out@)),
            forall|j: int| 0 <= j < i ==> (#[trigger] handle_views(out@)[j]).key() != h@.key(),
        decreases out.len() - i,
    {
        if out[i] == *h {
            assert(handle_views(out@)[i as int].key() == h@.key());
            assert(out@.take(out@.len() as int) =~= out@);
            return ;
        }
        i = i + 1;
    }
    out.push(h.clone());
    proof {
        let n = old(out)@.len() as int;
        assert(handle_views(out@)[n].key() == h@.key());
        assert forall|a: int, b: int| 0 <= a < b < out@.len() implies (#[trigger] handle_views(
            out@,
        )[a]).key() != (#[trigger] handle_views(out@)[b]).key() by {
            if b < n {
                assert(handle_views(old(out)@)[a].key() != handle_views(old(out)@)[b].key());
            } else {
                assert(handle_views(old(out)@)[a].key() != h@.key());
            }
        }
        assert(out@.take(n) =~= old(out)@);
    }
}

/// The handles `acc`, and after them those of `found[k..]` whose module and
/// name have not occurred, in order.
pub open spec fn gathered(acc: Seq<HandleView>, found: Seq<HandleView>, k: int) -> Seq<HandleView>
    decreases found.len() - k,
{
    if k < 0 || k >= found.len() {
        acc
    } else {
        gathered(
            if has_key(acc, found[k]) {
                acc
            } else {
                acc.push(found[k])
            },
            found,
            k + 1,
        )
    }
}

/// The handles of the columns that the node reads, each module and name
/// once, in the order in which they first occur.
pub open spec fn dependencies_of(n: NodeView) -> Seq<HandleView> {
    gathered(Seq::empty(), leaves(n), 0)
}

/// Gathering handles from one list and then from another is gathering
/// them from both at once.
pub proof fn lemma_gathered_twice(
    acc: Seq<HandleView>,
    f1: Seq<HandleView>,
    f2: Seq<HandleView>,
    k: int,
)
    requires
        0 <= k <= f1.len(),
    ensures
        gathered(acc, f1 + f2, k) == gathered(gathered(acc, f1, k), f2, 0),
    decreases f1.len() - k,
{
    if k < f1.len() {
        assert((f1 + f2)[k] == f1[k]);
        let next = if has_key(acc, f1[k]) {
            acc
        } else {
            acc.push(f1[k])
        };
        lemma_gathered_twice(next, f1, f2, k + 1);
    } else {
        lemma_gathered_shift(acc, f1, f2, 0);
    }
}

proof fn lemma_gathered_shift(acc: Seq<HandleView>, f1: Seq<HandleView>, f2: Seq<HandleView>, j: int)
    requires
        0 <= j <= f2.len(),
    ensures
        gathered(acc, f1 + f2, f1.len() + j) == gathered(acc, f2, j),
    decreases f2.len() - j,
{
    if j < f2.len() {
        assert((f1 + f2)[f1.len() + j] == f2[j]);
        let next = if has_key(acc, f2[j]) {
            acc
        } else {
            acc.push(f2[j])
        };
        lemma_gathered_shift(next, f1, f2, j + 1);
    }
}

/// Every handle that is gathered from, or was gathered already, has its
/// module and name among what is gathered.
pub proof fn lemma_gathered_keys(acc: Seq<HandleView>, found: Seq<HandleView>, k: int, h: HandleView)
    requires
        0 <= k,
        has_key(acc, h) || exists|j: int| k <= j < found.len() && (#[trigger] found[j]).key() == h.key(),
    ensures
        has_key(gathered(acc, found, k), h),
    decreases found.len() - k,
{
    if k < found.len() {
        let next = if has_key(acc, found[k]) {
            acc
        } else {
            acc.push(found[k])
        };
        if has_key(acc, h) {
            let i = choose|i: int| 0 <= i < acc.len() && (#[trigger] acc[i]).key() == h.key();
            assert(next[i].key() == h.key());
        } else {
            let j = choose|j: int| k <= j < found.len() && (#[trigger] found[j]).key() == h.key();
            if j == k {
                if has_key(acc, found[k]) {
                    let i = choose|i: int|
                        0 <= i < acc.len() && (#[trigger] acc[i]).key() == found[k].key();
                    assert(next[i].key() == h.key());
                } else {
                    assert(next[acc.len() as int].key() == h.key());
                }
            } else {
                assert(found[j].key() == h.key());
            }
        }
        lemma_gathered_keys(next, found, k + 1, h);
    } else {
        assert(has_key(acc, h));
    }
}

/// What collecting the handles `found` into `before` gives `after`: the
/// handles of `before` stay, no key occurs twice, a key occurs in `after`
/// exactly when it occurs in `before` or in `found`.
pub open spec fn collected(before: Seq<Handle>, after: Seq<Handle>, found: Seq<HandleView>) -> bool {
    &&& distinct_keys(handle_views(after))
    &&& after.len() >= before.len()
    &&& after.take(before.len() as int) == before
    &&& forall|h: HandleView|
        #[trigger] has_key(handle_views(after), h) <==> has_key(handle_views(before), h) || has_key(
            found,
            h,
        )
}

proof fn lemma_collected_step(
    a: Seq<Handle>,
    b: Seq<Handle>,
    c: Seq<Handle>,
    f1: Seq<HandleView>,
    f2: Seq<HandleView>,
)
    requires
        collected(a, b, f1),
        collected(b, c, f2),
    ensures
        collected(a, c, f1 + f2),
{
    assert(c.take(a.len() as int) =~= b.take(a.len() as int));
    assert forall|h: HandleView|
        #[trigger] has_key(handle_views(c), h) <==> has_key(handle_views(a), h) || has_key(
            f1 + f2,
            h,
        ) by {
        assert(has_key(handle_views(c), h) <==> has_key(handle_views(b), h) || has_key(f2, h));
        assert(has_key(handle_views(b), h) <==> has_key(handle_views(a), h) || has_key(f1, h));
        if has_key(f1, h) {
            let i = choose|i: int| 0 <= i < f1.len() && (#[trigger] f1[i]).key() == h.key();
            assert((f1 + f2)[i].key() == h.key());
        }
        if has_key(f2, h) {
            let i = choose|i: int| 0 <= i < f2.len() && (#[trigger] f2[i]).key() == h.key();
            assert((f1 + f2)[f1.len() + i].key() == h.key());
        }
        if has_key(f1 + f2, h) {
            let i = choose|i: int|
                0 <= i < (f1 + f2).len() && (#[trigger] (f1 + f2)[i]).key() == h.key();
            if i < f1.len() {
                assert(f1[i].key() == h.key());
            } else {
                assert(f2[i - f1.len()].key() == h.key());
            }
        }
    }
}

fn collect_from(ns: &Vec<Node>, out: &mut Vec<Handle>)
    requires
        distinct_keys(handle_views(old(out)@)),
    ensures
        collected(old(out)@, final(out)@, leaves_from(node_views(ns@), 0)),
        handle_views(final(out)@) == gathered(
            handle_views(old(out)@),
            leaves_from(node_views(ns@), 0),
            0,
        ),
    decreases ns, 0nat,
{
    let mut k: usize = 0;
    let ghost views = node_views(ns@);
    proof {
        assert(out@.take(out@.len() as int) =~= out@);
        assert(leaves_from(views, 0) =~= leaves_from(views, 0) + Seq::<HandleView>::empty());
    }
    let ghost mut done: Seq<HandleView> = Seq::empty();
    while k < ns.len()
        invariant
            k <= ns.len(),
            views == node_views(ns@),
            collected(old(out)@, out@, done),
            leaves_from(views, 0) == done + leaves_from(views, k as int),
            gathered(handle_views(old(out)@), leaves_from(views, 0), 0) == gathered(
                handle_views(out@),
                leaves_from(views, k as int),
                0,
            ),
        decreases ns.len() - k,
    {
        proof {
            vstd::std_specs::vec::axiom_vec_index_decreases(*ns, k as int);
        }
        let ghost mid = out@;
        ns[k].collect(out);
        proof {
            lemma_gathered_twice(
                handle_views(mid),
                leaves(views[k as int]),
                leaves_from(views, k + 1),
                0,
            );
            lemma_collected_step(old(out)@, mid, out@, done, leaves(views[k as int]));
            assert(done + leaves_from(views, k as int) =~= (done + leaves(views[k as int]))
                + leaves_from(views, k + 1));
            done = done + leaves(views[k as int]);
        }
        k = k + 1;
    }
    proof {
        assert(done + Seq::<HandleView>::empty() =~= done);
    }
}

impl Node {
    fn collect(&self, out: &mut Vec<Handle>)
        requires
            distinct_keys(handle_views(old(out)@)),
        ensures
            collected(old(out)@, final(out)@, leaves(self@)),
            handle_views(final(out)@) == gathered(handle_views(old(out)@), leaves(self@), 0),
        decreases self, 0nat,
    {
        match &self._e {
            Expression::Column(h, _) => {
                push_missing(out, h);
                proof {
                    let before = handle_views(old(out)@);
                    assert(leaves(self@) =~= seq![h@]);
                    reveal_with_fuel(gathered, 3);
                    if out@.len() == old(out)@.len() {
                        assert(out@ =~= out@.take(old(out)@.len() as int));
                        assert(has_key(before, h@));
                    } else {
                        assert(handle_views(out@) =~= before.push(h@));
                    }
                    assert(handle_views(out@) == gathered(before, seq![h@], 0));
                    assert forall|x: HandleView|
                        #[trigger] has_key(handle_views(out@), x) <==> has_key(
                            handle_views(old(out)@),
                            x,
                        ) || has_key(leaves(self@), x) by {
                        if has_key(handle_views(old(out)@), x) {
                            let i = choose|i: int|
                                0 <= i < old(out)@.len() && (#[trigger] handle_views(
                                    old(out)@,
                                )[i]).key() == x.key();
                            assert(out@.take(old(out)@.len() as int)[i] == old(out)@[i]);
                            assert(handle_views(out@)[i].key() == x.key());
                        }
                        if has_key(leaves(self@), x) {
                            let i = choose|i: int|
                                0 <= i < leaves(self@).len() && (#[trigger] leaves(self@)[i]).key()
                                    == x.key();
                            assert(h@.key() == x.key());
                            let j = choose|j: int|
                                0 <= j < out@.len() && (#[trigger] handle_views(out@)[j]).key()
                                    == h@.key();
                            assert(handle_views(out@)[j].key() == x.key());
                        }
                        if has_key(handle_views(out@), x) {
                            let i = choose|i: int|
                                0 <= i < out@.len() && (#[trigger] handle_views(out@)[i]).key()
                                    == x.key();
                            if i < old(out)@.len() {
                                assert(out@.take(old(out)@.len() as int)[i] == old(out)@[i]);
                                assert(handle_views(old(out)@)[i].key() == x.key());
                            } else {
                                assert(leaves(self@)[0].key() == x.key());
                            }
                        }
                    }
                    assert(collected(old(out)@, out@, leaves(self@)));
                }
            },
            Expression::List(xs) => {
                proof {
                    assert(decreases_to!(self._e => self._e->List_0));
                }
                collect_from(xs, out);
                assert(collected(old(out)@, out@, leaves(self@)));
            },
            Expression::Funcall { func, args } => {
                proof {
                    assert(decreases_to!(self._e => self._e->args));
                }
                collect_from(args, out);
                assert(collected(old(out)@, out@, leaves(self@)));
            },
            _ => {
                proof {
                    assert(out@.take(out@.len() as int) =~= out@);
                    assert(leaves(self@) =~= Seq::<HandleView>::empty());
                    assert(collected(old(out)@, out@, leaves(self@)));
                }
            },
        }
    }

    /// The handles of the columns that the node reads, each module and name
    /// once.
    pub fn dependencies(&self) -> (r: Vec<Handle>)
        ensures
            distinct_keys(handle_views(r@)),
            forall|h: HandleView| #[trigger]
                has_key(handle_views(r@), h) <==> has_key(leaves(self@), h),
            handle_views(r@) == dependencies_of(self@),
    {
        let mut out: Vec<Handle> = Vec::new();
        assert(handle_views(out@) =~= Seq::<HandleView>::empty());
        self.collect(&mut out);
        proof {
            assert forall|h: HandleView| #[trigger]
                has_key(handle_views(out@), h) <==> has_key(leaves(self@), h) by {
                assert(!has_key(handle_views(Seq::<Handle>::empty()), h));
            }
        }
        out
    }

    fn spill_exec(&self, past: bool) -> (r: isize)
        ensures
            r == spill(self@, past),
        decreases self, 0nat,
    {
        match &self._e {
            Expression::List(xs) => {
                proof {
                    assert(decreases_to!(self._e => self._e->List_0));
                }
                spill_from_exec(xs, 0, past)
            },
            Expression::Funcall { func, args } => {
                proof {
                    assert(decreases_to!(self._e => self._e->args));
                }
                let init: isize = if matches!(func, Builtin::Shift) && args.len() == 2 {
                    let k = match args[1].pure_eval() {
                        Ok(k) => match k.to_isize() {
                            Some(k) => k,
                            None => 0,
                        },
                        Err(_) => 0,
                    };
                    pick_exec(past, 0, k)
                } else {
                    0
                };
                spill_from_exec(args, init, past)
            },
            _ => 0,
        }
    }

    /// Whether the node can be evaluated: every constant that stands in it
    /// for an element of the field lies in the field.
    pub fn is_evaluable(&self) -> (r: bool)
        ensures
            r == evaluable(self@),
        decreases self, 0nat,
    {
        match &self._e {
            Expression::Const(_, fr) => fr.is_some(),
            Expression::List(xs) => {
                proof {
                    assert(decreases_to!(self._e => self._e->List_0));
                }
                evaluable_from_exec(xs, None)
            },
            Expression::Funcall { func, args } => {
                proof {
                    assert(decreases_to!(self._e => self._e->args));
                }
                evaluable_from_exec(args, Some(*func))
            },
            _ => true,
        }
    }

    /// How far the node reads into the past: the least of zero and of the
    /// amounts of its shifts.
    pub fn past_spill(&self) -> (r: isize)
        ensures
            r == spill(self@, true),
    {
        self.spill_exec(true)
    }

    /// How far the node reads into the future: the greatest of zero and of
    /// the amounts of its shifts.
    pub fn future_spill(&self) -> (r: isize)
        ensures
            r == spill(self@, false),
    {
        self.spill_exec(false)
    }
}

/// The handle `h` with the id that `cs` gives.
pub fn handle_with(h: Handle, cs: &ColumnSet) -> (r: Handle)
    ensures
        r@ == handle_with_id(h@, *cs),
{
    match cs.id_of(&h) {
        Some(id) => {
            let mut h = h;
            h.set_id(id);
            h
        },
        None => h,
    }
}

/// The handles of `hs`, each with the id that `cs` gives.
pub fn handles_with(hs: Vec<Handle>, cs: &ColumnSet) -> (r: Vec<Handle>)
    ensures
        handle_views(r@) == handles_with_ids(handle_views(hs@), *cs),
{
    let mut hs = hs;
    let ghost orig = hs@;
    let mut k: usize = 0;
    while k < hs.len()
        invariant
            k <= hs.len(),
            hs@.len() == orig.len(),
            forall|j: int| 0 <= j < k ==> (#[trigger] hs@[j])@ == handle_with_id(orig[j]@, *cs),
            forall|j: int| k <= j < hs@.len() ==> #[trigger] hs@[j] == orig[j],
        decreases hs.len() - k,
    {
        let mut x = Handle::new("", "");
        core::mem::swap(&mut hs[k], &mut x);
        let mut y = handle_with(x, cs);
        core::mem::swap(&mut hs[k], &mut y);
        k = k + 1;
    }
    assert(handle_views(hs@) =~= handles_with_ids(handle_views(orig), *cs));
    hs
}

fn all_into_with_ids(ns: Vec<Node>, cs: &ColumnSet) -> (r: Vec<Node>)
    ensures
        node_views(r@) == all_with_ids(node_views(ns@), *cs),
    decreases ns, 1nat,
{
    let mut out: Vec<Node> = Vec::new();
    let mut rest = ns;
    let ghost n = ns@.len();
    // The nodes are taken from the end, so that each can be moved out.
    while rest.len() > 0
        invariant
            rest@.len() <= n,
            n == ns@.len(),
            rest@ == ns@.take(rest@.len() as int),
            out@.len() == n - rest@.len(),
            forall|j: int|
                0 <= j < out@.len() ==> node_view(#[trigger] out@[j]) == with_ids(
                    node_view(ns@[n - 1 - j]),
                    *cs,
                ),
        decreases rest.len(),
    {
        let ghost k = rest@.len() - 1;
        let x = rest.pop().unwrap();
        proof {
            assert(x == ns@[k]);
            vstd::std_specs::vec::axiom_vec_index_decreases(ns, k);
            assert(rest@ =~= ns@.take(rest@.len() as int));
        }
        let y = x.into_with_ids(cs);
        out.push(y);
    }
    let mut r: Vec<Node> = Vec::new();
    while out.len() > 0
        invariant
            out@.len() + r@.len() == n,
            n == ns@.len(),
            forall|j: int|
                0 <= j < out@.len() ==> node_view(#[trigger] out@[j]) == with_ids(
                    node_view(ns@[n - 1 - j]),
                    *cs,
                ),
            forall|j: int|
                0 <= j < r@.len() ==> node_view(#[trigger] r@[j]) == with_ids(
                    node_view(ns@[j]),
                    *cs,
                ),
        decreases out.len(),
    {
        let y = out.pop().unwrap();
        r.push(y);
    }
    assert(node_views(r@) =~= all_with_ids(node_views(ns@), *cs));
    r
}

impl Node {
    fn into_with_ids(self, cs: &ColumnSet) -> (r: Node)
        ensures
            r@ == with_ids(self@, *cs),
        decreases self, 0nat,
    {
        let ghost whole = self;
        let Node { _e, _t } = self;
        match _e {
            Expression::Column(h, k) => {
                let h2 = handle_with(h, cs);
                Node { _e: Expression::Column(h2, k), _t }
            },
            Expression::List(xs) => {
                proof {
                    assert(decreases_to!(whole._e => whole._e->List_0));
                }
                Node { _e: Expression::List(all_into_with_ids(xs, cs)), _t }
            },
            Expression::Funcall { func, args } => {
                proof {
                    assert(decreases_to!(whole._e => whole._e->args));
                }
                Node { _e: Expression::Funcall { func, args: all_into_with_ids(args, cs) }, _t }
            },
            e => Node { _e: e, _t },
        }
    }

    /// Gives each handle of the node that names a column of `cs` the index
    /// of that column as its id.
    pub fn add_id_to_handles(&mut self, cs: &ColumnSet)
        ensures
            final(self)@ == with_ids(old(self)@, *cs),
    {
        let mut taken = Node { _e: Expression::Void, _t: None };
        core::mem::swap(self, &mut taken);
        let mut r = taken.into_with_ids(cs);
        core::mem::swap(self, &mut r);
    }
}

fn first_leaf_from(ns: &Vec<Node>) -> (r: Option<Handle>)
    ensures
        match r {
            Some(h) => leaves_from(node_views(ns@), 0).len() > 0 && h@ == leaves_from(
                node_views(ns@),
                0,
            )[0],
            None => leaves_from(node_views(ns@), 0).len() == 0,
        },
    decreases ns, 0nat,
{
    let ghost views = node_views(ns@);
    let mut k: usize = 0;
    while k < ns.len()
        invariant
            k <= ns.len(),
            views == node_views(ns@),
            leaves_from(views, 0) == leaves_from(views, k as int),
        decreases ns.len() - k,
    {
        proof {
            vstd::std_specs::vec::axiom_vec_index_decreases(*ns, k as int);
        }
        match ns[k].first_dependency() {
            Some(h) => {
                return Some(h);
            },
            None => {
                proof {
                    assert(leaves(views[k as int]) + leaves_from(views, k + 1) =~= leaves_from(
                        views,
                        k + 1,
                    ));
                }
            },
        }
        k = k + 1;
    }
    None
}

impl Node {
    /// The handle of the first column that the node reads, if it reads one.
    pub fn first_dependency(&self) -> (r: Option<Handle>)
        ensures
            match r {
                Some(h) => leaves(self@).len() > 0 && h@ == leaves(self@)[0],
                None => leaves(self@).len() == 0,
            },
        decreases self, 0nat,
    {
        match &self._e {
            Expression::Column(h, _) => Some(h.clone()),
            Expression::List(xs) => {
                proof {
                    assert(decreases_to!(self._e => self._e->List_0));
                }
                first_leaf_from(xs)
            },
            Expression::Funcall { func, args } => {
                proof {
                    assert(decreases_to!(self._e => self._e->args));
                }
                first_leaf_from(args)
            },
            _ => None,
        }
    }
}

} // verus!
