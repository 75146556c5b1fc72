//! The value of an expression: at compile time where it is made of
//! constants, and on a row of a trace.

use crate::column::ColumnSource;
use crate::compiler::generator::Builtin;
use crate::compiler::node::{
    node_views, type_of, Expression, ExpressionView, Node, NodeView,
};
use crate::errors::Error;
use crate::field::{
    add_mod, inverse_or_zero, mul_mod, neg_mod, pow_mod, sub_mod, Fr,
};
use crate::integer::Integer;
use vstd::prelude::*;

verus! {

/// How expressions are evaluated: whether reading a negative row of a
/// column counts from the end of the column.
pub struct EvalSettings {
    pub wrap: bool,
}

impl Default for EvalSettings {
    fn default() -> (r: Self)
        ensures
            r.wrap,
    {
        EvalSettings { wrap: true }
    }
}

/// A small store of inverses already computed.
pub struct InverseCache {
    keys: Vec<Fr>,
    values: Vec<Fr>,
    capacity: usize,
}

impl InverseCache {
    /// Every stored value is the inverse of its key, or zero for zero.
    #[verifier::type_invariant]
    pub closed spec fn wf(self) -> bool {
        &&& self.keys@.len() == self.values@.len()
        &&& forall|i: int|
            0 <= i < self.keys@.len() ==> (#[trigger] self.values@[i]).value() == inverse_or_zero(
                self.keys@[i].value(),
            )
    }

    /// Whether the store holds the inverse of the element of
    /// representative `x`.
    pub closed spec fn holds(self, x: nat) -> bool {
        exists|i: int| 0 <= i < self.keys@.len() && (#[trigger] self.keys@[i]).value() == x
    }

    /// How many inverses the store holds, counting one that was stored
    /// twice as two.
    pub closed spec fn spec_len(self) -> nat {
        self.keys@.len()
    }

    /// How many inverses the store holds at most.
    pub closed spec fn room(self) -> nat {
        self.capacity as nat
    }

    /// An empty store that will hold at most `capacity` inverses.
    pub fn new(capacity: usize) -> (r: InverseCache)
        ensures
            r.spec_len() == 0,
            r.room() == capacity,
            forall|x: nat| !r.holds(x),
    {
        InverseCache { keys: Vec::new(), values: Vec::new(), capacity }
    }

    /// The inverse of `x`, or zero for zero, if the store holds it.
    pub fn lookup(&self, x: &Fr) -> (r: Option<Fr>)
        ensures
            match r {
                Some(y) => self.holds(x.value()) && y.value() == inverse_or_zero(x.value()),
                None => !self.holds(x.value()),
            },
    {
        proof {
            use_type_invariant(self);
        }
        let mut i: usize = 0;
        while i < self.keys.len()
            invariant
                i <= self.keys.len(),
                self.wf(),
                forall|j: int| 0 <= j < i ==> (#[trigger] self.keys@[j]).value() != x.value(),
            decreases self.keys.len() - i,
        {
            if self.keys[i] == *x {
                return Some(self.values[i]);
            }
            proof {
                if self.keys@[i as int].value() == x.value() {
                    Fr::lemma_value_injective(self.keys@[i as int], *x);
                }
            }
            i = i + 1;
        }
        None
    }

    /// Keeps `y` as the inverse of `x`, if there is room left.
    pub fn store(&mut self, x: Fr, y: Fr)
        requires
            y.value() == inverse_or_zero(x.value()),
        ensures
            final(self).room() == old(self).room(),
            final(self).spec_len() == if old(self).spec_len() < old(self).room() {
                old(self).spec_len() + 1
            } else {
                old(self).spec_len()
            },
            forall|k: nat|
                final(self).holds(k) == (old(self).holds(k) || (k == x.value() && old(self).spec_len()
                    < old(self).room())),
    {
        let ghost before = *self;
        proof {
            use_type_invariant(&*self);
        }
        if self.keys.len() < self.capacity {
            let mut taken = InverseCache { keys: Vec::new(), values: Vec::new(), capacity: 0 };
            core::mem::swap(self, &mut taken);
            let InverseCache { keys: mut keys, values: mut values, capacity } = taken;
            keys.push(x);
            values.push(y);
            *self = InverseCache { keys, values, capacity };
            proof {
                let n = before.keys@.len() as int;
                assert(self.keys@[n].value() == x.value());
                assert forall|k: nat| self.holds(k) == (before.holds(k) || k == x.value()) by {
                    if before.holds(k) {
                        let i = choose|i: int|
                            0 <= i < before.keys@.len() && (#[trigger] before.keys@[i]).value()
                                == k;
                        assert(self.keys@[i].value() == k);
                    }
                    if self.holds(k) {
                        let i = choose|i: int|
                            0 <= i < self.keys@.len() && (#[trigger] self.keys@[i]).value() == k;
                        if i < n {
                            assert(before.keys@[i].value() == k);
                        }
                    }
                }
            }
        }
    }
}

/// What an integer operation makes of an accumulated value and the next
/// argument.
pub open spec fn combine_int(func: Builtin, acc: int, x: int) -> int {
    match func {
        Builtin::Add => acc + x,
        Builtin::Sub => acc - x,
        _ => acc * x,
    }
}

/// The value of an expression made of constants, sums, differences,
/// products and opposites; nothing for any other expression.
pub open spec fn pure_value(n: NodeView) -> Option<int>
    decreases n, 0nat,
{
    match n.e {
        ExpressionView::Const(x, _) => Some(x),
        ExpressionView::Funcall { func, args } => match func {
            Builtin::Add => pure_fold(func, args, 0, 0),
            Builtin::Mul => pure_fold(func, args, 0, 1),
            Builtin::Sub => if args.len() == 0 {
                None
            } else {
                match pure_value(args[0]) {
                    Some(a) => pure_fold(func, args, 1, a),
                    None => None,
                }
            },
            Builtin::Neg => if args.len() == 1 {
                match pure_value(args[0]) {
                    Some(a) => Some(-a),
                    None => None,
                }
            } else {
                None
            },
            _ => None,
        },
        _ => None,
    }
}

/// The value accumulated over the arguments from the `k`-th on, starting
/// from `acc`.
pub open spec fn pure_fold(func: Builtin, args: Seq<NodeView>, k: int, acc: int) -> Option<int>
    decreases args, args.len() - k,
{
    if k < 0 || k >= args.len() {
        Some(acc)
    } else {
        match pure_value(args[k]) {
            Some(x) => pure_fold(func, args, k + 1, combine_int(func, acc, x)),
            None => None,
        }
    }
}

/// What a field operation makes of an accumulated value and the next
/// argument.
pub open spec fn combine(func: Builtin, acc: nat, x: nat) -> nat {
    match func {
        Builtin::Add => add_mod(acc, x),
        Builtin::Sub => sub_mod(acc, x),
        _ => mul_mod(acc, x),
    }
}

/// The value of an equality: zero exactly when both sides agree. On
/// booleans it is itself a boolean.
pub open spec fn eq_value(booleans: bool, x: nat, y: nat) -> nat {
    if booleans {
        sub_mod(1, mul_mod(add_mod(sub_mod(1, x), y), add_mod(sub_mod(1, y), x)))
    } else {
        sub_mod(x, y)
    }
}

/// The value of an expression on row `i`, where the columns read as `src`
/// says. Nothing where the expression reads outside of a column, or has no
/// value at all; nor where it holds a constant outside the field for an
/// element of the field, which is why only expressions that can be
/// evaluated are made into constraints and computed into columns.
pub open spec fn eval_spec<S: ColumnSource>(n: NodeView, i: int, src: &S, wrap: bool) -> Option<
    nat,
>
    decreases n, 0nat,
{
    match n.e {
        ExpressionView::Const(_, fr) => fr,
        ExpressionView::Column(h, _) => src.read(h, i, wrap),
        ExpressionView::ArrayColumn(_, _) => None,
        ExpressionView::Void => None,
        ExpressionView::List(xs) => first_non_zero(xs, 0, i, src, wrap),
        ExpressionView::Funcall { func, args } => eval_call(func, args, i, src, wrap),
    }
}

/// The value on row `i` of the operation `func` applied to `args`.
pub open spec fn eval_call<S: ColumnSource>(
    func: Builtin,
    args: Seq<NodeView>,
    i: int,
    src: &S,
    wrap: bool,
) -> Option<nat>
    decreases args, args.len() + 1,
{
    match func {
    Builtin::Add => eval_fold(func, args, 0, 0, i, src, wrap),
    Builtin::Mul => eval_fold(func, args, 0, 1, i, src, wrap),
    Builtin::Sub => if args.len() == 0 {
        None
    } else {
        match eval_spec(args[0], i, src, wrap) {
            Some(a) => eval_fold(func, args, 1, a, i, src, wrap),
            None => None,
        }
    },
    Builtin::Exp => if args.len() == 2 {
        match (eval_spec(args[0], i, src, wrap), pure_value(args[1])) {
            (Some(b), Some(e)) => if 0 <= e <= usize::MAX {
                Some(pow_mod(b, e as nat))
            } else {
                None
            },
            _ => None,
        }
    } else {
        None
    },
    Builtin::Shift => if args.len() == 2 {
        match pure_value(args[1]) {
            Some(k) => if isize::MIN <= k <= isize::MAX && isize::MIN <= i + k
                <= isize::MAX {
                eval_spec(args[0], i + k, src, false)
            } else {
                None
            },
            None => None,
        }
    } else {
        None
    },
    Builtin::Eq => if args.len() == 2 {
        match (eval_spec(args[0], i, src, wrap), eval_spec(args[1], i, src, wrap)) {
            (Some(x), Some(y)) => Some(
                eq_value(
                    type_of(args[0]).is_bool_spec() && type_of(args[1]).is_bool_spec(),
                    x,
                    y,
                ),
            ),
            _ => None,
        }
    } else {
        None
    },
    Builtin::Neg => if args.len() == 1 {
        match eval_spec(args[0], i, src, wrap) {
            Some(x) => Some(neg_mod(x)),
            None => None,
        }
    } else {
        None
    },
    Builtin::Inv => if args.len() == 1 {
        match eval_spec(args[0], i, src, wrap) {
            Some(x) => Some(inverse_or_zero(x)),
            None => None,
        }
    } else {
        None
    },
    Builtin::Not => if args.len() == 1 {
        match eval_spec(args[0], i, src, wrap) {
            Some(x) => Some(sub_mod(1, x)),
            None => None,
        }
    } else {
        None
    },
    Builtin::IfZero => if 2 <= args.len() <= 3 {
        match eval_spec(args[0], i, src, wrap) {
            Some(c) => if c == 0 {
                eval_spec(args[1], i, src, wrap)
            } else if args.len() == 3 {
                eval_spec(args[2], i, src, wrap)
            } else {
                Some(0)
            },
            None => None,
        }
    } else {
        None
    },
    Builtin::IfNotZero => if 2 <= args.len() <= 3 {
        match eval_spec(args[0], i, src, wrap) {
            Some(c) => if c != 0 {
                eval_spec(args[1], i, src, wrap)
            } else if args.len() == 3 {
                eval_spec(args[2], i, src, wrap)
            } else {
                Some(0)
            },
            None => None,
        }
    } else {
        None
    },
    Builtin::Nth => None,
    Builtin::Len => None,
    Builtin::Begin => None,
    }
}

/// The value accumulated over the arguments from the `k`-th on, starting
/// from `acc`; nothing as soon as one argument has no value.
pub open spec fn eval_fold<S: ColumnSource>(
    func: Builtin,
    args: Seq<NodeView>,
    k: int,
    acc: nat,
    i: int,
    src: &S,
    wrap: bool,
) -> Option<nat>
    decreases args, args.len() - k,
{
    if k < 0 || k >= args.len() {
        Some(acc)
    } else {
        match eval_spec(args[k], i, src, wrap) {
            Some(x) => eval_fold(func, args, k + 1, combine(func, acc, x), i, src, wrap),
            None => None,
        }
    }
}

/// The first value among those of `xs[k..]` that is not zero, or zero.
/// Expressions without value are passed over.
pub open spec fn first_non_zero<S: ColumnSource>(
    xs: Seq<NodeView>,
    k: int,
    i: int,
    src: &S,
    wrap: bool,
) -> Option<nat>
    decreases xs, xs.len() - k,
{
    if k < 0 || k >= xs.len() {
        Some(0)
    } else {
        match eval_spec(xs[k], i, src, wrap) {
            Some(x) => if x != 0 {
                Some(x)
            } else {
                first_non_zero(xs, k + 1, i, src, wrap)
            },
            None => first_non_zero(xs, k + 1, i, src, wrap),
        }
    }
}

/// The representative of an element that may be absent.
pub open spec fn repr(r: Option<Fr>) -> Option<nat> {
    match r {
        Some(x) => Some(x.value()),
        None => None,
    }
}

/// The number of an integer that may be absent.
pub open spec fn number(r: Result<Integer, Error>) -> Option<int> {
    match r {
        Ok(x) => Some(x@),
        Err(_) => None,
    }
}

fn combine_integers(func: Builtin, acc: &Integer, x: &Integer) -> (r: Integer)
    ensures
        r@ == combine_int(func, acc@, x@),
{
    match func {
        Builtin::Add => acc.add(x),
        Builtin::Sub => acc.sub(x),
        _ => acc.mul(x),
    }
}

fn combine_elements(func: Builtin, acc: &Fr, x: &Fr) -> (r: Fr)
    ensures
        r.value() == combine(func, acc.value(), x.value()),
{
    match func {
        Builtin::Add => acc.add(x),
        Builtin::Sub => acc.sub(x),
        _ => acc.mul(x),
    }
}

fn pure_fold_exec(func: Builtin, args: &Vec<Node>, from: usize, init: Integer) -> (r: Result<
    Integer,
    Error,
>)
    requires
        from <= args@.len(),
    ensures
        number(r) == pure_fold(func, node_views(args@), from as int, init@),
        r matches Err(e) ==> e == Error::NotConstant,
    decreases args,
{
    let mut acc = init;
    let mut k: usize = from;
    while k < args.len()
        invariant
            from <= k <= args.len(),
            pure_fold(func, node_views(args@), from as int, init@) == pure_fold(
                func,
                node_views(args@),
                k as int,
                acc@,
            ),
        decreases args.len() - k,
    {
        proof {
            vstd::std_specs::vec::axiom_vec_index_decreases(*args, k as int);
        }
        match args[k].pure_eval() {
            Ok(x) => {
                acc = combine_integers(func, &acc, &x);
            },
            Err(e) => {
                return Err(e);
            },
        }
        k = k + 1;
    }
    Ok(acc)
}

fn eval_fold_exec<S: ColumnSource>(
    func: Builtin,
    args: &Vec<Node>,
    from: usize,
    init: Fr,
    i: isize,
    src: &S,
    cache: &mut Option<InverseCache>,
    wrap: bool,
) -> (r: Option<Fr>)
    requires
        from <= args@.len(),
    ensures
        repr(r) == eval_fold(func, node_views(args@), from as int, init.value(), i as int, src, wrap),
    decreases args, 0nat,
{
    let mut acc = init;
    let mut k: usize = from;
    while k < args.len()
        invariant
            from <= k <= args.len(),
            eval_fold(func, node_views(args@), from as int, init.value(), i as int, src, wrap)
                == eval_fold(func, node_views(args@), k as int, acc.value(), i as int, src, wrap),
        decreases args.len() - k,
    {
        proof {
            vstd::std_specs::vec::axiom_vec_index_decreases(*args, k as int);
        }
        match args[k].eval_at(i, src, cache, wrap) {
            Some(x) => {
                acc = combine_elements(func, &acc, &x);
            },
            None => {
                return None;
            },
        }
        k = k + 1;
    }
    Some(acc)
}

fn first_non_zero_exec<S: ColumnSource>(
    xs: &Vec<Node>,
    i: isize,
    src: &S,
    cache: &mut Option<InverseCache>,
    wrap: bool,
) -> (r: Option<Fr>)
    ensures
        repr(r) == first_non_zero(node_views(xs@), 0, i as int, src, wrap),
    decreases xs, 0nat,
{
    let mut k: usize = 0;
    while k < xs.len()
        invariant
            k <= xs.len(),
            first_non_zero(node_views(xs@), 0, i as int, src, wrap) == first_non_zero(
                node_views(xs@),
                k as int,
                i as int,
                src,
                wrap,
            ),
        decreases xs.len() - k,
    {
        proof {
            vstd::std_specs::vec::axiom_vec_index_decreases(*xs, k as int);
        }
        match xs[k].eval_at(i, src, cache, wrap) {
            Some(x) => {
                if !x.is_zero() {
                    return Some(x);
                }
            },
            None => {},
        }
        k = k + 1;
    }
    Some(Fr::zero())
}

fn power(b: &Fr, e: usize) -> (r: Fr)
    ensures
        r.value() == pow_mod(b.value(), e as nat),
{
    let mut acc = Fr::one();
    let mut k: usize = 0;
    while k < e
        invariant
            k <= e,
            acc.value() == pow_mod(b.value(), k as nat),
        decreases e - k,
    {
        acc = acc.mul(b);
        k = k + 1;
    }
    acc
}

fn inverse_with(x: &Fr, cache: &mut Option<InverseCache>) -> (r: Fr)
    ensures
        r.value() == inverse_or_zero(x.value()),
{
    match cache {
        Some(c) => match c.lookup(x) {
            Some(y) => y,
            None => {
                let y = x.inverse_or_zero();
                c.store(*x, y);
                y
            },
        },
        None => x.inverse_or_zero(),
    }
}

impl Node {
    /// The value of the node at compile time, where the node is made of
    /// constants, sums, differences, products and opposites only.
    pub fn pure_eval(&self) -> (r: Result<Integer, Error>)
        ensures
            number(r) == pure_value(self@),
            r matches Err(e) ==> e == Error::NotConstant,
        decreases self,
    {
        match &self._e {
            Expression::Const(x, _) => Ok(x.clone()),
            Expression::Funcall { func, args } => {
                proof {
                    assert(decreases_to!(self._e => self._e->args));
                }
                match func {
                    Builtin::Add => pure_fold_exec(*func, args, 0, Integer::from_u64(0)),
                    Builtin::Mul => pure_fold_exec(*func, args, 0, Integer::from_u64(1)),
                    Builtin::Sub => {
                        if args.len() == 0 {
                            Err(Error::NotConstant)
                        } else {
                            proof {
                                vstd::std_specs::vec::axiom_vec_index_decreases(*args, 0);
                            }
                            match args[0].pure_eval() {
                                Ok(a) => pure_fold_exec(*func, args, 1, a),
                                Err(e) => Err(e),
                            }
                        }
                    },
                    Builtin::Neg => {
                        if args.len() == 1 {
                            proof {
                                vstd::std_specs::vec::axiom_vec_index_decreases(*args, 0);
                            }
                            match args[0].pure_eval() {
                                Ok(a) => Ok(a.neg()),
                                Err(e) => Err(e),
                            }
                        } else {
                            Err(Error::NotConstant)
                        }
                    },
                    _ => Err(Error::NotConstant),
                }
            },
            _ => Err(Error::NotConstant),
        }
    }

    /// The value of the node on row `i`, where the columns read as `src`
    /// says. Inverses are looked up in `cache` and kept there, if there is
    /// one.
    pub fn eval<S: ColumnSource>(
        &self,
        i: isize,
        src: &S,
        cache: &mut Option<InverseCache>,
        settings: &EvalSettings,
    ) -> (r: Option<Fr>)
        ensures
            repr(r) == eval_spec(self@, i as int, src, settings.wrap),
    {
        self.eval_at(i, src, cache, settings.wrap)
    }

    /// The value of the node on row `i`.
    pub fn eval_at<S: ColumnSource>(
        &self,
        i: isize,
        src: &S,
        cache: &mut Option<InverseCache>,
        wrap: bool,
    ) -> (r: Option<Fr>)
        ensures
            repr(r) == eval_spec(self@, i as int, src, wrap),
        decreases self, 0nat,
    {
        match &self._e {
            Expression::Const(_, fr) => *fr,
            Expression::Column(h, _) => src.get(h, i, wrap),
            Expression::ArrayColumn(_, _) => None,
            Expression::Void => None,
            Expression::List(xs) => {
                proof {
                    assert(decreases_to!(self._e => self._e->List_0));
                }
                first_non_zero_exec(xs, i, src, cache, wrap)
            },
            Expression::Funcall { func, args } => {
                proof {
                    assert(decreases_to!(self._e => self._e->args));
                }
                eval_call_exec(*func, args, i, src, cache, wrap)
            },
        }
    }
}

fn eval_unary<S: ColumnSource>(
    func: Builtin,
    args: &Vec<Node>,
    i: isize,
    src: &S,
    cache: &mut Option<InverseCache>,
    wrap: bool,
) -> (r: Option<Fr>)
    requires
        func == Builtin::Neg || func == Builtin::Inv || func == Builtin::Not,
    ensures
        repr(r) == eval_call(func, node_views(args@), i as int, src, wrap),
    decreases args, 0nat,
{
    if args.len() == 1 {
        proof {
            vstd::std_specs::vec::axiom_vec_index_decreases(*args, 0);
        }
        match args[0].eval_at(i, src, cache, wrap) {
            Some(x) => match func {
                Builtin::Neg => Some(x.neg()),
                Builtin::Inv => Some(inverse_with(&x, cache)),
                _ => Some(Fr::one().sub(&x)),
            },
            None => None,
        }
    } else {
        None
    }
}

fn eval_conditional<S: ColumnSource>(
    func: Builtin,
    args: &Vec<Node>,
    i: isize,
    src: &S,
    cache: &mut Option<InverseCache>,
    wrap: bool,
) -> (r: Option<Fr>)
    requires
        func == Builtin::IfZero || func == Builtin::IfNotZero,
    ensures
        repr(r) == eval_call(func, node_views(args@), i as int, src, wrap),
    decreases args, 0nat,
{
    if args.len() == 2 || args.len() == 3 {
        proof {
            vstd::std_specs::vec::axiom_vec_index_decreases(*args, 0);
            vstd::std_specs::vec::axiom_vec_index_decreases(*args, 1);
            if args@.len() > 2 {
                vstd::std_specs::vec::axiom_vec_index_decreases(*args, 2);
            }
        }
        match args[0].eval_at(i, src, cache, wrap) {
            Some(c) => {
                let zero = c.is_zero();
                let first = match func {
                    Builtin::IfZero => zero,
                    _ => !zero,
                };
                if first {
                    args[1].eval_at(i, src, cache, wrap)
                } else if args.len() == 3 {
                    args[2].eval_at(i, src, cache, wrap)
                } else {
                    Some(Fr::zero())
                }
            },
            None => None,
        }
    } else {
        None
    }
}

fn eval_binary<S: ColumnSource>(
    func: Builtin,
    args: &Vec<Node>,
    i: isize,
    src: &S,
    cache: &mut Option<InverseCache>,
    wrap: bool,
) -> (r: Option<Fr>)
    requires
        func == Builtin::Exp || func == Builtin::Shift || func == Builtin::Eq,
    ensures
        repr(r) == eval_call(func, node_views(args@), i as int, src, wrap),
    decreases args, 0nat,
{
    if args.len() != 2 {
        return None;
    }
    proof {
        vstd::std_specs::vec::axiom_vec_index_decreases(*args, 0);
        vstd::std_specs::vec::axiom_vec_index_decreases(*args, 1);
    }
    match func {
        Builtin::Exp => {
            let b = args[0].eval_at(i, src, cache, wrap);
            let e = args[1].pure_eval();
            match (b, e) {
                (Some(b), Ok(e)) => match e.to_usize() {
                    Some(e) => Some(power(&b, e)),
                    None => None,
                },
                _ => None,
            }
        },
        Builtin::Shift => {
            match args[1].pure_eval() {
                Ok(k) => match k.to_isize() {
                    Some(k) => match i.checked_add(k) {
                        Some(j) => args[0].eval_at(j, src, cache, false),
                        None => None,
                    },
                    None => None,
                },
                Err(_) => None,
            }
        },
        _ => {
            let x = args[0].eval_at(i, src, cache, wrap);
            let y = args[1].eval_at(i, src, cache, wrap);
            match (x, y) {
                (Some(x), Some(y)) => {
                    if args[0].t().is_bool() && args[1].t().is_bool() {
                        let one = Fr::one();
                        let l = one.sub(&x).add(&y);
                        let r = one.sub(&y).add(&x);
                        Some(one.sub(&l.mul(&r)))
                    } else {
                        Some(x.sub(&y))
                    }
                },
                _ => None,
            }
        },
    }
}

fn eval_call_exec<S: ColumnSource>(
    func: Builtin,
    args: &Vec<Node>,
    i: isize,
    src: &S,
    cache: &mut Option<InverseCache>,
    wrap: bool,
) -> (r: Option<Fr>)
    ensures
        repr(r) == eval_call(func, node_views(args@), i as int, src, wrap),
    decreases args, 1nat,
{
    match func {
        Builtin::Add => eval_fold_exec(func, args, 0, Fr::zero(), i, src, cache, wrap),
        Builtin::Mul => eval_fold_exec(func, args, 0, Fr::one(), i, src, cache, wrap),
        Builtin::Sub => {
            if args.len() == 0 {
                None
            } else {
                proof {
                    vstd::std_specs::vec::axiom_vec_index_decreases(*args, 0);
                }
                match args[0].eval_at(i, src, cache, wrap) {
                    Some(a) => eval_fold_exec(func, args, 1, a, i, src, cache, wrap),
                    None => None,
                }
            }
        },
        Builtin::Exp | Builtin::Shift | Builtin::Eq => eval_binary(func, args, i, src, cache, wrap),
        Builtin::Neg | Builtin::Inv | Builtin::Not => eval_unary(func, args, i, src, cache, wrap),
        Builtin::IfZero | Builtin::IfNotZero => eval_conditional(func, args, i, src, cache, wrap),
        Builtin::Nth => None,
        Builtin::Len => None,
        Builtin::Begin => None,
    }
}

/// Whether two sources give the same values on every read.
pub open spec fn same_reads<A: ColumnSource, B: ColumnSource>(a: &A, b: &B) -> bool {
    forall|h: crate::compiler::common::HandleView, i: int, wrap: bool|
        #[trigger] a.read(h, i, wrap) == b.read(h, i, wrap)
}

/// The value of an expression depends on the columns only through what
/// reading them gives.
pub proof fn lemma_eval_same_reads<A: ColumnSource, B: ColumnSource>(
    n: NodeView,
    i: int,
    a: &A,
    b: &B,
    wrap: bool,
)
    requires
        same_reads(a, b),
    ensures
        eval_spec(n, i, a, wrap) == eval_spec(n, i, b, wrap),
    decreases n, 0nat,
{
    match n.e {
        ExpressionView::Column(h, _) => {
            assert(a.read(h, i, wrap) == b.read(h, i, wrap));
        },
        ExpressionView::List(xs) => {
            lemma_first_non_zero_same_reads(xs, 0, i, a, b, wrap);
        },
        ExpressionView::Funcall { func, args } => {
            lemma_eval_call_same_reads(func, args, i, a, b, wrap);
        },
        _ => {},
    }
}

proof fn lemma_eval_call_same_reads<A: ColumnSource, B: ColumnSource>(
    func: Builtin,
    args: Seq<NodeView>,
    i: int,
    a: &A,
    b: &B,
    wrap: bool,
)
    requires
        same_reads(a, b),
    ensures
        eval_call(func, args, i, a, wrap) == eval_call(func, args, i, b, wrap),
    decreases args, args.len() + 1,
{
    if args.len() > 0 {
        lemma_eval_same_reads(args[0], i, a, b, wrap);
    }
    if args.len() > 1 {
        lemma_eval_same_reads(args[1], i, a, b, wrap);
    }
    if args.len() > 2 {
        lemma_eval_same_reads(args[2], i, a, b, wrap);
    }
    match func {
        Builtin::Add => {
            lemma_eval_fold_same_reads(func, args, 0, 0, i, a, b, wrap);
        },
        Builtin::Mul => {
            lemma_eval_fold_same_reads(func, args, 0, 1, i, a, b, wrap);
        },
        Builtin::Sub => {
            if args.len() > 0 {
                match eval_spec(args[0], i, a, wrap) {
                    Some(x) => {
                        lemma_eval_fold_same_reads(func, args, 1, x, i, a, b, wrap);
                    },
                    None => {},
                }
            }
        },
        Builtin::Shift => {
            if args.len() == 2 {
                match pure_value(args[1]) {
                    Some(k) => {
                        lemma_eval_same_reads(args[0], i + k, a, b, false);
                    },
                    None => {},
                }
            }
        },
        _ => {},
    }
}

proof fn lemma_eval_fold_same_reads<A: ColumnSource, B: ColumnSource>(
    func: Builtin,
    args: Seq<NodeView>,
    k: int,
    acc: nat,
    i: int,
    a: &A,
    b: &B,
    wrap: bool,
)
    requires
        same_reads(a, b),
    ensures
        eval_fold(func, args, k, acc, i, a, wrap) == eval_fold(func, args, k, acc, i, b, wrap),
    decreases args, args.len() - k,
{
    if 0 <= k < args.len() {
        lemma_eval_same_reads(args[k], i, a, b, wrap);
        match eval_spec(args[k], i, a, wrap) {
            Some(x) => {
                lemma_eval_fold_same_reads(func, args, k + 1, combine(func, acc, x), i, a, b, wrap);
            },
            None => {},
        }
    }
}

proof fn lemma_first_non_zero_same_reads<A: ColumnSource, B: ColumnSource>(
    xs: Seq<NodeView>,
    k: int,
    i: int,
    a: &A,
    b: &B,
    wrap: bool,
)
    requires
        same_reads(a, b),
    ensures
        first_non_zero(xs, k, i, a, wrap) == first_non_zero(xs, k, i, b, wrap),
    decreases xs, xs.len() - k,
{
    if 0 <= k < xs.len() {
        lemma_eval_same_reads(xs[k], i, a, b, wrap);
        lemma_first_non_zero_same_reads(xs, k + 1, i, a, b, wrap);
    }
}

} // verus!
