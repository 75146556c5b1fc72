//! From a trace to the values of all the columns of a program: the trace is
//! read into the atomic columns, the columns are padded, and the derived
//! columns are computed.

use crate::column::{field_values, padding_of, Column, ColumnSet, ColumnSource, Padding};
use crate::compiler::common::{witness, Handle, HandleView};
use crate::compiler::constraint_set::ConstraintSet;
use crate::compiler::eval::{eval_spec, repr};
use crate::compiler::node::{Kind, Node};
use crate::compiler::types::{Magma, Type};
use crate::errors::Error;
use crate::field::{is_numeral, modulus, Fr};
use crate::text::{decimal_value, split, split_spec, string_views};
use vstd::prelude::*;
use vstd::string::*;

verus! {

/// A JSON value, as traces are made of. A number is held as its text.
pub enum Json {
    Null,
    Bool(bool),
    Number(String),
    String(String),
    Array(Vec<Json>),
    Object(Vec<(String, Json)>),
}

/// The values of the columns of a program, each under the mangled name of
/// its column.
pub struct ComputeResult {
    pub columns: Vec<(String, Vec<Fr>)>,
}

/// How columns are padded.
#[derive(Debug, Clone, Copy, PartialEq, Eq, Structural)]
pub enum PaddingStrategy {
    /// Up to the power of two that follows the length of the longest
    /// column.
    Full,
    /// By one row.
    OneLine,
}

/// Accepts `x` as a value of a column of type `t`: any element where the
/// type is of integers, zero and one only where it is of booleans.
pub fn validate(t: Type, x: Fr) -> (r: Result<Fr, Error>)
    ensures
        match r {
            Ok(y) => y == x && (t.is_bool_spec() ==> x.value() == 0 || x.value() == 1),
            Err(e) => e == Error::NotBoolean && t.is_bool_spec() && x.value() != 0 && x.value()
                != 1,
        },
{
    if t.is_bool() {
        if x.is_zero() || x.is_one() {
            Ok(x)
        } else {
            Err(Error::NotBoolean)
        }
    } else {
        Ok(x)
    }
}

/// The text of a numeral of a trace, if `x` is one: the text of a number or
/// of a string.
pub open spec fn numeral_of(x: Json) -> Option<Seq<char>> {
    match x {
        Json::Number(n) => Some(n@),
        Json::String(s) => Some(s@),
        _ => None,
    }
}

/// Whether `x` is a value that a column of type `t` can hold: a decimal
/// numeral, which writes zero or one modulo the order of the field where
/// the type is of booleans.
pub open spec fn is_value_of(x: Json, t: Type) -> bool {
    numeral_of(x) matches Some(s) && is_numeral(s) && (t.is_bool_spec() ==> decimal_value(s)
        % modulus() == 0 || decimal_value(s) % modulus() == 1)
}

/// The element that the numeral `x` writes.
pub open spec fn value_of(x: Json) -> nat {
    match numeral_of(x) {
        Some(s) => decimal_value(s) % modulus(),
        None => 0,
    }
}

/// Reads the values of a column of type `t`: every one of `xs` must be a
/// decimal numeral, as a number or as a string, and a boolean where the
/// type asks for one.
pub fn parse_column(xs: &Vec<Json>, t: Type) -> (r: Result<Vec<Fr>, Error>)
    ensures
        match r {
            Ok(v) => v@.len() == xs@.len() && forall|i: int|
                0 <= i < xs@.len() ==> is_value_of(#[trigger] xs@[i], t) && v@[i].value()
                    == value_of(xs@[i]),
            Err(e) => exists|i: int| 0 <= i < xs@.len() && !is_value_of(#[trigger] xs@[i], t),
        },
{
    let mut out: Vec<Fr> = Vec::new();
    let mut i: usize = 0;
    while i < xs.len()
        invariant
            i <= xs.len(),
            out@.len() == i,
            forall|j: int|
                0 <= j < i ==> is_value_of(#[trigger] xs@[j], t) && out@[j].value() == value_of(
                    xs@[j],
                ),
        decreases xs.len() - i,
    {
        let parsed = match &xs[i] {
            Json::Number(n) => Fr::from_str(n.as_str()),
            Json::String(s) => Fr::from_str(s.as_str()),
            _ => None,
        };
        match parsed {
            Some(x) => match validate(t, x) {
                Ok(x) => {
                    out.push(x);
                },
                Err(e) => {
                    assert(!is_value_of(xs@[i as int], t));
                    return Err(e);
                },
            },
            None => {
                assert(!is_value_of(xs@[i as int], t));
                return Err(Error::Parse);
            },
        }
        i = i + 1;
    }
    Ok(out)
}

/// The pieces of `parts` from the `k`-th on, with an underscore before
/// each.
pub open spec fn joined_from(parts: Seq<Seq<char>>, k: int) -> Seq<char>
    decreases parts.len() - k,
{
    if k < 0 || k >= parts.len() {
        Seq::empty()
    } else {
        seq!['_'] + parts[k] + joined_from(parts, k + 1)
    }
}

/// The name of the column that the entry `name` of a trace fills. Where
/// the name ends in an underscore and a number, it is the name of the column
/// of that number of the array column called as what stands before the
/// underscore: the number is written anew, without sign or superfluous
/// zeros. Any other name is the name of its column.
pub open spec fn routed(name: Seq<char>) -> Seq<char> {
    let parts = split_spec(name, '_');
    if parts.len() >= 2 {
        match crate::text::parse_usize_spec(parts.last()) {
            Some(k) => Handle::ith_name(
                parts[0] + joined_from(parts.take(parts.len() - 1), 1),
                k as nat,
            ),
            None => name,
        }
    } else {
        name
    }
}

/// The name of the column that the entry `name` of a trace fills.
pub fn route(name: &str) -> (r: String)
    ensures
        r@ == routed(name@),
{
    let chars = crate::text::to_chars(name);
    let parts = split(&chars, '_');
    let ghost views = string_views(parts@);
    if parts.len() >= 2 {
        let last = crate::text::to_chars(parts[parts.len() - 1].as_str());
        assert(last@ =~= last@.subrange(0, last@.len() as int));
        assert(views.last() == parts@[parts@.len() - 1]@);
        match crate::text::parse_usize(&last, 0) {
            Some(k) => {
                let mut base = parts[0].clone();
                let ghost init = views.take(views.len() - 1);
                let mut i: usize = 1;
                assert(views[0] == parts@[0]@);
                proof {
                    assert(base@ + joined_from(init, 1) =~= views[0] + joined_from(init, 1));
                }
                while i < parts.len() - 1
                    invariant
                        1 <= i <= parts.len() - 1,
                        views == string_views(parts@),
                        init == views.take(views.len() - 1),
                        base@ + joined_from(init, i as int) == views[0] + joined_from(init, 1),
                    decreases parts.len() - i,
                {
                    let ghost before = base@;
                    crate::text::push_char(&mut base, '_');
                    base.append(parts[i].as_str());
                    proof {
                        assert(init[i as int] == parts@[i as int]@);
                        assert(base@ =~= before + (seq!['_'] + init[i as int]));
                        assert(before + (seq!['_'] + init[i as int] + joined_from(init, i + 1))
                            =~= base@ + joined_from(init, i + 1));
                    }
                    i = i + 1;
                }
                proof {
                    assert(base@ + joined_from(init, i as int) =~= base@);
                }
                let h = Handle::new("", base.as_str());
                h.ith(k).name
            },
            None => name.to_owned(),
        }
    } else {
        name.to_owned()
    }
}

/// What filling the column `name` of `module` with `values` does.
pub open spec fn fills(
    before: ColumnSet,
    after: ColumnSet,
    module: Seq<char>,
    name: Seq<char>,
    values: Seq<nat>,
) -> bool {
    &&& after.spec_len() == before.spec_len()
    &&& forall|m: Seq<char>, n: Seq<char>| after.spec_id(m, n) == before.spec_id(m, n)
    &&& forall|m: Seq<char>| after.raw_len_of(m) == before.raw_len_of(m)
    &&& forall|i: int| #[trigger] after.handle_at(i) == before.handle_at(i)
    &&& before.spec_id(module, name) matches Some(id)
    &&& forall|j: int|
        0 <= j < before.spec_len() && j != id ==> after.column_at(j) == before.column_at(j)
    &&& after.column_at(id as int).values() == Some(values)
    &&& after.column_at(id as int).spilling_of() == 0
    &&& after.column_at(id as int).kind_of() == before.column_at(id as int).kind_of()
    &&& after.column_at(id as int).type_of() == before.column_at(id as int).type_of()
}

/// The type that the values read from a trace must have to fill a column:
/// its own type for a column of the trace, integers for any other.
pub open spec fn expected_type(c: Column) -> Type {
    if c.kind_of() is Atomic {
        c.type_of()
    } else {
        Type::Column(Magma::Integer)
    }
}

/// What filling the column that the entry `name` of the module `module`
/// of a trace is for with the values `xs` gives and does: a name that
/// stands for no column is an error, and so are values that the column
/// cannot hold; both leave the columns as they are.
pub open spec fn column_fills(
    before: ColumnSet,
    after: ColumnSet,
    module: Seq<char>,
    name: Seq<char>,
    xs: Seq<Json>,
    r: Result<(), Error>,
) -> bool {
    match before.spec_id(module, routed(name)) {
        None => r == Err::<(), Error>(Error::UnknownColumn) && after == before,
        Some(id) => match r {
            Ok(_) => exists|values: Seq<Fr>| #[trigger]
                fills(before, after, module, routed(name), field_values(values)) && values.len()
                    == xs.len() && forall|i: int|
                    0 <= i < xs.len() ==> is_value_of(
                        #[trigger] xs[i],
                        expected_type(before.column_at(id as int)),
                    ) && values[i].value() == value_of(xs[i]),
            Err(e) => after == before && exists|i: int|
                0 <= i < xs.len() && !is_value_of(
                    #[trigger] xs[i],
                    expected_type(before.column_at(id as int)),
                ),
        },
    }
}

/// Fills the column that the entry `name` of the module `module` of a
/// trace is for with the values `xs`. A name that stands for no column is
/// refused, and so are values that the column cannot hold.
pub fn fill_column(columns: &mut ColumnSet, module: &str, name: &str, xs: &Vec<Json>) -> (r: Result<
    (),
    Error,
>)
    ensures
        column_fills(*old(columns), *final(columns), module@, name@, xs@, r),
{
    let target = route(name);
    let h = Handle::new(module, target.as_str());
    match columns.id_of(&h) {
        None => Err(Error::UnknownColumn),
        Some(id) => {
            let t = match columns.column(id).kind() {
                Kind::Atomic => columns.column(id).t(),
                _ => Type::Column(Magma::Integer),
            };
            match parse_column(xs, t) {
                Ok(values) => {
                    let ghost stored = values@;
                    columns.set_raw_value(id, values, 0);
                    assert(fills(
                        *old(columns),
                        *columns,
                        module@,
                        routed(name@),
                        field_values(stored),
                    ));
                    Ok(())
                },
                Err(e) => Err(e),
            }
        },
    }
}

/// What holds of a set of columns of which some have been given values:
/// no column comes or goes, and none changes its name, kind or type.
pub open spec fn same_columns(before: ColumnSet, after: ColumnSet) -> bool {
    &&& after.spec_len() == before.spec_len()
    &&& forall|m: Seq<char>, n: Seq<char>| after.spec_id(m, n) == before.spec_id(m, n)
    &&& forall|m: Seq<char>| after.raw_len_of(m) == before.raw_len_of(m)
    &&& forall|i: int| #[trigger] after.handle_at(i) == before.handle_at(i)
    &&& forall|i: int|
        0 <= i < before.spec_len() ==> (#[trigger] after.column_at(i)).kind_of()
            == before.column_at(i).kind_of() && after.column_at(i).type_of() == before.column_at(
            i,
        ).type_of()
}

fn copy_path(path: &Vec<String>) -> (r: Vec<String>)
    ensures
        r@ == path@,
{
    crate::compiler::generator::clone_strings(path)
}

/// The path under which what the key `key` holds is found, from the path
/// `path` of what holds the key: the keys `Trace` and `Assignment` do not
/// count.
pub open spec fn path_under(path: Seq<Seq<char>>, key: Seq<char>) -> Seq<Seq<char>> {
    if key == "Trace"@ || key == "Assignment"@ {
        path
    } else {
        path.push(key)
    }
}

/// What walking the first `k` of the members of an object of a trace,
/// found under `path`, does to the columns and to the problems met.
pub open spec fn members_filled(
    members: Seq<(String, Json)>,
    k: int,
    path: Seq<Seq<char>>,
    c0: ColumnSet,
    met0: Seq<Error>,
    ck: ColumnSet,
    metk: Seq<Error>,
) -> bool
    decreases members, 0nat, k,
{
    if k <= 0 {
        ck == c0 && metk == met0
    } else {
        0 <= k - 1 < members.len() && exists|cp: ColumnSet, metp: Seq<Error>|
            #[trigger] witness((cp, metp)) && members_filled(members, k - 1, path, c0, met0, cp, metp)
                && traces_filled(
                members[k - 1].1,
                path_under(path, members[k - 1].0@),
                cp,
                metp,
                ck,
                metk,
            )
    }
}

/// What walking the trace `v`, found under `path`, does to the columns and
/// to the problems met. An object has its members walked in turn. An
/// array holds the values of the column that the last two keys of the path
/// name, module then name: the column is filled with them, or else the
/// reason why it cannot be is added to the problems; under a shorter path
/// the array is a problem. Anything else is passed over.
pub open spec fn traces_filled(
    v: Json,
    path: Seq<Seq<char>>,
    c0: ColumnSet,
    met0: Seq<Error>,
    c1: ColumnSet,
    met1: Seq<Error>,
) -> bool
    decreases v, 1nat, 0int,
{
    match v {
        Json::Object(members) => members_filled(
            members@,
            members@.len() as int,
            path,
            c0,
            met0,
            c1,
            met1,
        ),
        Json::Array(xs) => if path.len() >= 2 {
            exists|rf: Result<(), Error>|
                #[trigger] witness(rf) && column_fills(
                    c0,
                    c1,
                    path[path.len() - 2],
                    path[path.len() - 1],
                    xs@,
                    rf,
                ) && met1 == match rf {
                    Ok(_) => met0,
                    Err(e) => met0.push(e),
                }
        } else {
            c1 == c0 && met1 == met0.push(Error::Parse)
        },
        _ => c1 == c0 && met1 == met0,
    }
}

fn fill_members(
    members: &Vec<(String, Json)>,
    path: &Vec<String>,
    columns: &mut ColumnSet,
    problems: &mut Vec<Error>,
)
    ensures
        same_columns(*old(columns), *final(columns)),
        final(problems)@.len() >= old(problems)@.len(),
        members_filled(
            members@,
            members@.len() as int,
            string_views(path@),
            *old(columns),
            old(problems)@,
            *final(columns),
            final(problems)@,
        ),
    decreases members, 0nat,
{
    let mut k: usize = 0;
    while k < members.len()
        invariant
            k <= members.len(),
            same_columns(*old(columns), *columns),
            problems@.len() >= old(problems)@.len(),
            members_filled(
                members@,
                k as int,
                string_views(path@),
                *old(columns),
                old(problems)@,
                *columns,
                problems@,
            ),
        decreases members.len() - k,
    {
        proof {
            vstd::std_specs::vec::axiom_vec_index_decreases(*members, k as int);
            assert(decreases_to!(members@[k as int] => members@[k as int].1));
            reveal_strlit("Trace");
            reveal_strlit("Assignment");
        }
        let key = &members[k].0;
        let ghost before = *columns;
        let ghost met = problems@;
        if crate::text::str_eq(key.as_str(), "Trace") || crate::text::str_eq(
            key.as_str(),
            "Assignment",
        ) {
            fill_traces(&members[k].1, copy_path(path), columns, problems);
        } else {
            let mut longer = copy_path(path);
            longer.push(key.clone());
            assert(string_views(longer@) =~= string_views(path@).push(key@));
            fill_traces(&members[k].1, longer, columns, problems);
        }
        proof {
            lemma_same_columns_twice(*old(columns), before, *columns);
            assert(members@[(k + 1) - 1] == members@[k as int]);
            assert(witness((before, met)));
        }
        k = k + 1;
    }
}

/// Walks the trace `v` and fills the columns it has values for. An array
/// found under a path that ends in `module`, `name` holds the values of the
/// column that `name` stands for in `module`; the keys `Trace` and
/// `Assignment` do not count in paths. What cannot be used (an array under
/// too short a path, values for a column that does not exist, values that
/// are no numerals) is passed over, and the reason is added to `problems`.
pub fn fill_traces(v: &Json, path: Vec<String>, columns: &mut ColumnSet, problems: &mut Vec<Error>)
    ensures
        same_columns(*old(columns), *final(columns)),
        final(problems)@.len() >= old(problems)@.len(),
        traces_filled(
            *v,
            string_views(path@),
            *old(columns),
            old(problems)@,
            *final(columns),
            final(problems)@,
        ),
    decreases v, 1nat,
{
    match v {
        Json::Object(members) => {
            fill_members(members, &path, columns, problems);
        },
        Json::Array(xs) => {
            if path.len() >= 2 {
                let module = &path[path.len() - 2];
                let name = &path[path.len() - 1];
                let rf = fill_column(columns, module.as_str(), name.as_str(), xs);
                proof {
                    assert(witness(rf));
                }
                match rf {
                    Ok(_) => {},
                    Err(e) => {
                        problems.push(e);
                    },
                }
            } else {
                problems.push(Error::Parse);
            }
        },
        _ => {},
    }
}

/// The least of `p`, `2p`, `4p`, ... that is at least `n`: where `p` is
/// one, the least power of two that is at least `n`.
pub open spec fn power_from(n: nat, p: nat) -> nat
    decreases (if p <= n {
        n - p
    } else {
        0
    }),
{
    if p == 0 || p >= n {
        p
    } else {
        power_from(n, 2 * p)
    }
}

proof fn lemma_power_from(n: nat, p: nat)
    ensures
        power_from(n, p) >= p,
        p > 0 ==> power_from(n, p) >= n,
    decreases (if p <= n {
        n - p
    } else {
        0
    }),
{
    if !(p == 0 || p >= n) {
        lemma_power_from(n, 2 * p);
    }
}

/// The least power of two that is at least `n`, if a `usize` can hold it.
pub fn next_power_of_two(n: usize) -> (r: Option<usize>)
    ensures
        match r {
            Some(p) => p == power_from(n as nat, 1),
            None => power_from(n as nat, 1) > usize::MAX,
        },
{
    let mut p: usize = 1;
    while p < n
        invariant
            p >= 1,
            power_from(n as nat, 1) == power_from(n as nat, p as nat),
        decreases usize::MAX - p,
    {
        if p > usize::MAX / 2 {
            proof {
                lemma_power_from(n as nat, 2 * (p as nat));
            }
            return None;
        }
        p = p * 2;
    }
    Some(p)
}

/// The column `v`, after `count` rows that hold `pad`.
pub open spec fn padded(v: Seq<nat>, pad: nat, count: nat) -> Seq<nat> {
    Seq::new(count, |i: int| pad) + v
}

/// The `i`-th row of `s` counted from the last.
pub open spec fn from_end(s: Seq<nat>, i: int) -> nat {
    s[s.len() - 1 - i]
}

/// Padding a column by one row twice is padding it by one row and adding
/// one more row of padding: the rows of the column, counted from the last,
/// are those of the column padded once, and one more row of padding stands
/// before them.
pub proof fn lemma_one_line_twice(v: Seq<nat>, pad: nat)
    ensures
        padded(padded(v, pad, 1), pad, 1) == seq![pad] + padded(v, pad, 1),
        padded(padded(v, pad, 1), pad, 1) == padded(v, pad, 2),
        forall|i: int|
            0 <= i < padded(v, pad, 1).len() ==> from_end(padded(padded(v, pad, 1), pad, 1), i)
                == #[trigger] from_end(padded(v, pad, 1), i),
{
    assert(padded(padded(v, pad, 1), pad, 1) =~= seq![pad] + padded(v, pad, 1));
    assert(padded(padded(v, pad, 1), pad, 1) =~= padded(v, pad, 2));
}

fn prepend(v: &Vec<Fr>, pad: Fr, count: usize) -> (r: Vec<Fr>)
    ensures
        field_values(r@) == padded(field_values(v@), pad.value(), count as nat),
{
    let mut out: Vec<Fr> = Vec::new();
    let mut i: usize = 0;
    while i < count
        invariant
            i <= count,
            out@.len() == i,
            forall|j: int| 0 <= j < i ==> out@[j] == pad,
        decreases count - i,
    {
        out.push(pad);
        i = i + 1;
    }
    let mut k: usize = 0;
    while k < v.len()
        invariant
            k <= v.len(),
            out@.len() == count + k,
            forall|j: int| 0 <= j < count ==> out@[j] == pad,
            forall|j: int| 0 <= j < k ==> out@[count + j] == v@[j],
        decreases v.len() - k,
    {
        out.push(v[k]);
        k = k + 1;
    }
    assert(field_values(out@) =~= padded(field_values(v@), pad.value(), count as nat));
    out
}

/// What a column that is not filled from the trace is padded with: for a
/// column computed from an expression, the value of the expression where
/// every column reads as its padding, and for any other zero, but for the
/// column `NOT` of the module `binary`, which is padded with 255.
pub open spec fn padding_value(cs: ConstraintSet, h: HandleView, kind: Kind<()>) -> nat {
    if kind is Composite {
        match cs.computations.index_for(h.module, h.name) {
            Some(i) => match cs.computations.computation_at(i as int) {
                crate::column::Computation::Composite { target, exp } => match eval_spec(
                    exp@,
                    0,
                    &Padding {  },
                    true,
                ) {
                    Some(x) => x,
                    None => 0,
                },
                _ => 0,
            },
            None => 0,
        }
    } else {
        padding_of(h)
    }
}

/// What the column that `h` names, of kind `kind`, is padded with.
pub fn padding(cs: &ConstraintSet, h: &Handle, kind: &Kind<()>) -> (r: Fr)
    ensures
        r.value() == padding_value(*cs, h@, *kind),
{
    match kind {
        Kind::Composite(_) => {
            match cs.computations.computation_for(h) {
                Some(crate::column::Computation::Composite { target, exp }) => {
                    let mut cache = None;
                    match exp.eval_at(0, &Padding {  }, &mut cache, true) {
                        Some(x) => x,
                        None => Fr::zero(),
                    }
                },
                _ => Fr::zero(),
            }
        },
        _ => {
            match (Padding {  }).get(h, 0, true) {
                Some(x) => x,
                None => Fr::zero(),
            }
        },
    }
}

/// How many rows a column of `len` values is padded with: one under
/// `OneLine`, and under `Full` as many as it takes to reach `target`.
pub open spec fn padding_count(strategy: PaddingStrategy, len: nat, target: nat) -> nat {
    match strategy {
        PaddingStrategy::OneLine => 1,
        PaddingStrategy::Full => if target >= len {
            (target - len) as nat
        } else {
            0
        },
    }
}

/// What padding does to the column of index `i`: a column that holds
/// values holds them after `count` rows of its padding; its name, kind,
/// type and spilling stay, and a column without values stays as it is.
pub open spec fn pads(
    before: ConstraintSet,
    after: ColumnSet,
    i: int,
    strategy: PaddingStrategy,
    target: nat,
) -> bool {
    let c = before.modules.column_at(i);
    match c.values() {
        Some(v) => after.column_at(i).values() == Some(
            padded(
                v,
                padding_value(before, before.modules.handle_at(i), c.kind_of()),
                padding_count(strategy, v.len(), target),
            ),
        ) && after.column_at(i).spilling_of() == c.spilling_of(),
        None => after.column_at(i) == c,
    }
}

/// The length of the longest of the columns of `cs` from the `k`-th on,
/// or `acc`, whichever is more.
pub open spec fn longest_from(cs: ColumnSet, k: int, acc: nat) -> nat
    decreases cs.spec_len() - k,
{
    if k < 0 || k >= cs.spec_len() {
        acc
    } else {
        longest_from(
            cs,
            k + 1,
            match cs.column_at(k).values() {
                Some(v) => if v.len() > acc {
                    v.len()
                } else {
                    acc
                },
                None => acc,
            },
        )
    }
}

fn longest_column(cs: &ColumnSet) -> (r: usize)
    ensures
        r == longest_from(*cs, 0, 0),
{
    let mut acc: usize = 0;
    let mut k: usize = 0;
    while k < cs.len()
        invariant
            k <= cs.spec_len(),
            longest_from(*cs, 0, 0) == longest_from(*cs, k as int, acc as nat),
        decreases cs.spec_len() - k,
    {
        match cs.column(k).padded_len() {
            Some(l) => {
                if l > acc {
                    acc = l;
                }
            },
            None => {},
        }
        k = k + 1;
    }
    acc
}

/// What padding the columns of a program does: each column that holds
/// values is padded, and nothing else changes; or, under `Full`, where no
/// `usize` holds the least power of two that is more than the length of
/// the longest column, nothing changes at all.
pub open spec fn padded_by(
    before: ConstraintSet,
    strategy: PaddingStrategy,
    after: ConstraintSet,
    r: Result<(), Error>,
) -> bool {
    &&& same_columns(before.modules, after.modules)
    &&& after.constraints == before.constraints
    &&& after.constants == before.constants
    &&& after.computations == before.computations
    &&& after.spilling == before.spilling
    &&& match r {
        Ok(_) => (strategy == PaddingStrategy::OneLine || power_from(
            longest_from(before.modules, 0, 0) + 1,
            1,
        ) <= usize::MAX) && forall|i: int|
            0 <= i < before.modules.spec_len() ==> #[trigger] pads(
                before,
                after.modules,
                i,
                strategy,
                power_from(longest_from(before.modules, 0, 0) + 1, 1),
            ),
        Err(e) => e == Error::TooLong && strategy == PaddingStrategy::Full && power_from(
            longest_from(before.modules, 0, 0) + 1,
            1,
        ) > usize::MAX && after == before,
    }
}

/// Pads the columns of `cs` that hold values. Under `OneLine` each gets
/// one row of its padding before its values. Under `Full` each gets as many
/// as it takes to have as many values as the least power of two that is
/// more than the length of the longest column; where no `usize` holds that
/// power, nothing is done.
pub fn pad(cs: &mut ConstraintSet, strategy: PaddingStrategy) -> (r: Result<(), Error>)
    ensures
        padded_by(*old(cs), strategy, *final(cs), r),
{
    let longest = longest_column(&cs.modules);
    let ghost goal = power_from(longest as nat + 1, 1);
    let target: usize = match strategy {
        PaddingStrategy::OneLine => 0,
        PaddingStrategy::Full => {
            if longest == usize::MAX {
                proof {
                    lemma_power_from(longest as nat + 1, 1);
                }
                return Err(Error::TooLong);
            }
            match next_power_of_two(longest + 1) {
                Some(t) => t,
                None => {
                    return Err(Error::TooLong);
                },
            }
        },
    };
    let ghost before = *cs;
    let n = cs.modules.len();
    let mut i: usize = 0;
    while i < n
        invariant
            i <= n,
            n == before.modules.spec_len(),
            before == *old(cs),
            same_columns(before.modules, cs.modules),
            cs.constraints == before.constraints,
            cs.constants == before.constants,
            cs.computations == before.computations,
            cs.spilling == before.spilling,
            strategy == PaddingStrategy::Full ==> target == goal,
            forall|j: int| 0 <= j < i ==> #[trigger] pads(before, cs.modules, j, strategy, goal),
            forall|j: int|
                i <= j < n ==> #[trigger] cs.modules.column_at(j) == before.modules.column_at(j),
        decreases n - i,
    {
        let padded_values = match cs.modules.column(i).value() {
            Some(v) => {
                let count: usize = match strategy {
                    PaddingStrategy::OneLine => 1,
                    PaddingStrategy::Full => if target >= v.len() {
                        target - v.len()
                    } else {
                        0
                    },
                };
                let pad_value = padding(cs, cs.modules.handle(i), cs.modules.column(i).kind());
                Some(prepend(v, pad_value, count))
            },
            None => None,
        };
        match padded_values {
            Some(values) => {
                let spilling = cs.modules.column(i).spilling();
                let rows = cs.modules.column(i).len();
                let ghost prev = cs.modules;
                assert(field_values(values@).len() == values@.len());
                assert(spilling <= values@.len());
                cs.modules.set_raw_value(i, values, spilling);
                proof {
                    assert forall|j: int| 0 <= j < i implies #[trigger] pads(
                        before,
                        cs.modules,
                        j,
                        strategy,
                        goal,
                    ) by {
                        assert(pads(before, prev, j, strategy, goal));
                        assert(cs.modules.column_at(j) == prev.column_at(j));
                    }
                }
            },
            None => {},
        }
        i = i + 1;
    }
    Ok(())
}

/// The values of the columns of `cs` from the `k`-th on that hold values,
/// each under the mangled name of its column.
pub open spec fn results_from(cs: ColumnSet, k: int) -> Seq<(Seq<char>, Seq<nat>)>
    decreases cs.spec_len() - k,
{
    if k < 0 || k >= cs.spec_len() {
        Seq::empty()
    } else {
        (match cs.column_at(k).values() {
            Some(v) => seq![
                (
                    crate::compiler::common::mangle_spec(
                        cs.handle_at(k).module,
                        cs.handle_at(k).name,
                    ),
                    v,
                ),
            ],
            None => Seq::empty(),
        }) + results_from(cs, k + 1)
    }
}

/// The contents of a list of named columns.
pub open spec fn result_views(r: Seq<(String, Vec<Fr>)>) -> Seq<(Seq<char>, Seq<nat>)> {
    Seq::new(r.len(), |i: int| (r[i].0@, field_values(r[i].1@)))
}

/// The values of the columns of `cs` that hold values, in the order of
/// their ids, each under the mangled name of its column.
pub fn results(cs: &ColumnSet) -> (r: ComputeResult)
    ensures
        result_views(r.columns@) == results_from(*cs, 0),
{
    let mut out: Vec<(String, Vec<Fr>)> = Vec::new();
    let mut k: usize = 0;
    proof {
        assert(result_views(out@) + results_from(*cs, 0) =~= results_from(*cs, 0));
    }
    while k < cs.len()
        invariant
            k <= cs.spec_len(),
            result_views(out@) + results_from(*cs, k as int) == results_from(*cs, 0),
        decreases cs.spec_len() - k,
    {
        match cs.column(k).value() {
            Some(v) => {
                let ghost before = result_views(out@);
                let name = cs.handle(k).mangle();
                let values = prepend(v, Fr::zero(), 0);
                proof {
                    assert(padded(field_values(v@), 0, 0) =~= field_values(v@));
                }
                let ghost entry = (name@, field_values(values@));
                out.push((name, values));
                proof {
                    assert(result_views(out@) =~= before + seq![entry]);
                    assert((before + seq![entry]) + results_from(*cs, k + 1) =~= before + (
                    seq![entry] + results_from(*cs, k + 1)));
                }
            },
            None => {
                proof {
                    assert(Seq::<(Seq<char>, Seq<nat>)>::empty() + results_from(*cs, k + 1)
                        =~= results_from(*cs, k + 1));
                }
            },
        }
        k = k + 1;
    }
    proof {
        assert(result_views(out@) + Seq::<(Seq<char>, Seq<nat>)>::empty() =~= result_views(out@));
    }
    ComputeResult { columns: out }
}

/// What computing the columns of the program `a` from the trace `trace`
/// gives and does. The trace is walked, from the empty path and with the
/// columns of the program; the columns are padded; the computations are
/// all run, whatever becomes of each; and the result holds the values of
/// all the columns that hold some. Only padding can fail.
pub open spec fn computes(
    trace: Json,
    a: ConstraintSet,
    strategy: PaddingStrategy,
    b: ConstraintSet,
    r: Result<ComputeResult, Error>,
) -> bool {
    exists|
        filled: ConstraintSet,
        problems: Seq<Error>,
        rp: Result<(), Error>,
        padded_set: ConstraintSet,
        failures: Seq<(usize, Error)>,
    |
        #[trigger] witness((filled, problems, rp, padded_set, failures)) && traces_filled(
            trace,
            Seq::empty(),
            a.modules,
            Seq::empty(),
            filled.modules,
            problems,
        ) && filled.constraints == a.constraints && filled.constants == a.constants
            && filled.computations == a.computations && filled.spilling == a.spilling && padded_by(
            filled,
            strategy,
            padded_set,
            rp,
        ) && match rp {
            Err(e) => b == padded_set && (r matches Err(x) && x == e),
            Ok(_) => ConstraintSet::all_computed(
                padded_set,
                padded_set.computations.spec_len() as int,
                b,
                failures,
            ) && (r matches Ok(res) && result_views(res.columns@) == results_from(b.modules, 0)),
        }
}

/// Fills the columns of `cs` from the trace `trace`, pads them, computes
/// the derived columns, and hands out the values of all the columns that
/// hold some. What the trace holds that cannot be used, and the
/// computations that fail, do not stop the others.
pub fn compute(trace: &Json, cs: &mut ConstraintSet, strategy: PaddingStrategy) -> (r: Result<
    ComputeResult,
    Error,
>)
    ensures
        same_columns(old(cs).modules, final(cs).modules),
        final(cs).constraints == old(cs).constraints,
        final(cs).constants == old(cs).constants,
        final(cs).computations == old(cs).computations,
        computes(*trace, *old(cs), strategy, *final(cs), r),
{
    let mut problems: Vec<Error> = Vec::new();
    fill_traces(trace, Vec::new(), &mut cs.modules, &mut problems);
    let ghost filled = *cs;
    let rp = pad(cs, strategy);
    let ghost padded_set = *cs;
    proof {
        assert(string_views(Seq::<String>::empty()) =~= Seq::<Seq<char>>::empty());
        assert(witness((filled, problems@, rp, padded_set, Seq::<(usize, Error)>::empty())));
    }
    match rp {
        Ok(_) => {},
        Err(e) => {
            return Err(e);
        },
    }
    let failures = cs.compute_all();
    proof {
        assert(witness((filled, problems@, rp, padded_set, failures@)));
        lemma_same_columns_twice(old(cs).modules, filled.modules, padded_set.modules);
        lemma_advances_same_columns(padded_set.modules, cs.modules);
        lemma_same_columns_twice(old(cs).modules, padded_set.modules, cs.modules);
    }
    Ok(results(&cs.modules))
}

/// Giving values to columns twice in a row is giving values to columns.
pub proof fn lemma_same_columns_twice(a: ColumnSet, b: ColumnSet, c: ColumnSet)
    requires
        same_columns(a, b),
        same_columns(b, c),
    ensures
        same_columns(a, c),
{
    assert forall|i: int| 0 <= i < a.spec_len() implies (#[trigger] c.column_at(i)).kind_of()
        == a.column_at(i).kind_of() && c.column_at(i).type_of() == a.column_at(i).type_of() by {
        assert(b.column_at(i).kind_of() == a.column_at(i).kind_of());
        assert(c.column_at(i).kind_of() == b.column_at(i).kind_of());
    }
    assert forall|i: int| #[trigger] c.handle_at(i) == a.handle_at(i) by {
        assert(b.handle_at(i) == a.handle_at(i));
    }
}

/// Filling columns gives values to columns.
pub proof fn lemma_advances_same_columns(a: ColumnSet, b: ColumnSet)
    requires
        crate::compiler::constraint_set::advances(a, b),
    ensures
        same_columns(a, b),
{
}

} // verus!
