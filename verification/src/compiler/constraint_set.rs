//! A compiled program, ready to be evaluated on a trace: its columns, its
//! constraints and the computations that fill its derived columns.

use crate::column::{
    computation_with_ids, field_values, Column, ColumnSet, ColumnSource, Computation,
    ComputationView,
};
use crate::compiler::common::{witness, Handle, HandleView};
use crate::compiler::definitions::ComputationTable;
use crate::compiler::generator::{constraint_with_ids, Constraint};
use crate::compiler::node::{handle_views, spill, Kind, Node, NodeView};
use crate::dict::{Dict, HandleMap};
use crate::errors::Error;
use crate::field::Fr;
use crate::integer::Integer;
use crate::rows::{evaluate_rows, interleave, permute, sorted_order, sorts};
use vstd::prelude::*;
use vstd::string::*;

verus! {

/// A compiled program.
pub struct ConstraintSet {
    pub modules: ColumnSet,
    pub constraints: Vec<Constraint>,
    pub constants: HandleMap<Integer>,
    pub computations: ComputationTable,
    /// For each module, how many rows before row zero its computed columns
    /// hold, once that has been worked out.
    pub spilling: Dict<usize>,
}

/// What filling columns does to a set of columns: no column comes or goes,
/// none changes its name, kind or type, and a column that was filled keeps
/// its values.
pub open spec fn advances(before: ColumnSet, after: ColumnSet) -> bool {
    &&& after.spec_len() == before.spec_len()
    &&& forall|m: Seq<char>, n: Seq<char>| after.spec_id(m, n) == before.spec_id(m, n)
    &&& forall|m: Seq<char>| after.raw_len_of(m) == before.raw_len_of(m)
    &&& forall|i: int| #[trigger] after.handle_at(i) == before.handle_at(i)
    &&& forall|i: int|
        0 <= i < before.spec_len() ==> (#[trigger] after.column_at(i)).kind_of()
            == before.column_at(i).kind_of() && after.column_at(i).type_of() == before.column_at(
            i,
        ).type_of() && (before.column_at(i).values() is Some ==> after.column_at(i).values()
            == before.column_at(i).values() && after.column_at(i).spilling_of()
            == before.column_at(i).spilling_of())
}

/// The lesser of `acc` and of how far the expression of `c` reads into the
/// past, if `c` computes a column of `module`; where `past` is unset, the
/// greater of `acc` and of how far it reads into the future.
pub open spec fn spill_step(c: ComputationView, module: Seq<char>, acc: int, past: bool) -> int {
    match c {
        ComputationView::Composite { target, exp } => if target.module == module {
            crate::compiler::node::pick(past, acc, spill(exp, past))
        } else {
            acc
        },
        _ => acc,
    }
}

/// How far the composite columns of `module` among those that
/// `comps[k..]` compute read into the past, or into the future, starting
/// from `acc`.
pub open spec fn module_spill(
    comps: Seq<Computation>,
    module: Seq<char>,
    k: int,
    acc: int,
    past: bool,
) -> int
    decreases comps.len() - k,
{
    if k < 0 || k >= comps.len() {
        acc
    } else {
        module_spill(comps, module, k + 1, spill_step(comps[k]@, module, acc, past), past)
    }
}

/// How many rows before row zero the computed columns of `module` must
/// hold: as many as its composite columns read into the past or into the
/// future, whichever is more.
pub open spec fn module_spilling(comps: Seq<Computation>, module: Seq<char>) -> nat {
    let past = -module_spill(comps, module, 0, 0, true);
    let future = module_spill(comps, module, 0, 0, false);
    if past >= future {
        past as nat
    } else {
        future as nat
    }
}

proof fn lemma_spill_sign(n: NodeView, past: bool)
    ensures
        past ==> isize::MIN <= spill(n, past) <= 0,
        !past ==> 0 <= spill(n, past) <= isize::MAX,
    decreases n, 1nat,
{
    match n.e {
        crate::compiler::node::ExpressionView::List(xs) => {
            lemma_spill_from_sign(xs, 0, 0, past);
        },
        crate::compiler::node::ExpressionView::Funcall { func, args } => {
            let init = if func == crate::compiler::generator::Builtin::Shift && args.len() == 2 {
                crate::compiler::node::pick(past, 0, crate::compiler::node::shift_amount(args[1]))
            } else {
                0
            };
            lemma_spill_from_sign(args, 0, init, past);
        },
        _ => {},
    }
}

proof fn lemma_spill_from_sign(ns: Seq<NodeView>, k: int, acc: int, past: bool)
    requires
        past ==> isize::MIN <= acc <= 0,
        !past ==> 0 <= acc <= isize::MAX,
    ensures
        past ==> isize::MIN <= crate::compiler::node::spill_from(ns, k, acc, past) <= 0,
        !past ==> 0 <= crate::compiler::node::spill_from(ns, k, acc, past) <= isize::MAX,
    decreases ns, ns.len() - k,
{
    if 0 <= k < ns.len() {
        lemma_spill_sign(ns[k], past);
        lemma_spill_from_sign(
            ns,
            k + 1,
            crate::compiler::node::pick(past, acc, spill(ns[k], past)),
            past,
        );
    }
}

fn module_spill_exec(comps: &Vec<Computation>, module: &str, past: bool) -> (r: isize)
    ensures
        r == module_spill(comps@, module@, 0, 0, past),
        past ==> r <= 0,
        !past ==> r >= 0,
{
    let mut acc: isize = 0;
    let mut k: usize = 0;
    while k < comps.len()
        invariant
            k <= comps.len(),
            module_spill(comps@, module@, 0, 0, past) == module_spill(
                comps@,
                module@,
                k as int,
                acc as int,
                past,
            ),
            past ==> acc <= 0,
            !past ==> acc >= 0,
        decreases comps.len() - k,
    {
        match &comps[k] {
            Computation::Composite { target, exp } => {
                if crate::text::str_eq(target.module.as_str(), module) {
                    let x = if past {
                        exp.past_spill()
                    } else {
                        exp.future_spill()
                    };
                    proof {
                        lemma_spill_sign(exp@, past);
                    }
                    if past == (acc <= x) {
                    } else {
                        acc = x;
                    }
                }
            },
            _ => {},
        }
        k = k + 1;
    }
    acc
}

/// The rows of a column from row zero on.
pub open spec fn rows_of(c: Column) -> Seq<nat> {
    match c.values() {
        Some(v) => v.skip(c.spilling_of() as int),
        None => Seq::empty(),
    }
}

fn copy_rows(c: &Column) -> (r: Vec<Fr>)
    ensures
        field_values(r@) == rows_of(*c),
{
    let mut out: Vec<Fr> = Vec::new();
    match c.value() {
        Some(v) => {
            let from = c.spilling();
            let ghost all = field_values(v@);
            let rows = c.len();
            assert(from <= v@.len());
            let mut i: usize = from;
            while i < v.len()
                invariant
                    from <= i <= v.len(),
                    out@.len() == i - from,
                    forall|j: int| 0 <= j < out@.len() ==> out@[j] == v@[from + j],
                decreases v.len() - i,
            {
                out.push(v[i]);
                i = i + 1;
            }
            assert(field_values(out@) =~= all.skip(from as int));
        },
        None => {
            assert(field_values(out@) =~= Seq::<nat>::empty());
        },
    }
    out
}

impl ConstraintSet {
    /// Whether the program is made of the given columns, constraints,
    /// constants and computations, the handles of the constraints and of
    /// the computations bearing the ids of the columns they name.
    pub open spec fn made_of(
        self,
        columns: ColumnSet,
        constraints: Seq<Constraint>,
        constants: HandleMap<Integer>,
        computations: ComputationTable,
    ) -> bool {
        &&& self.modules == columns
        &&& self.constants == constants
        &&& self.constraints@.len() == constraints.len()
        &&& forall|i: int|
            0 <= i < constraints.len() ==> (#[trigger] self.constraints@[i])@
                == constraint_with_ids(constraints[i]@, columns)
        &&& self.computations.spec_len() == computations.spec_len()
        &&& forall|m: Seq<char>, n: Seq<char>|
            self.computations.index_for(m, n) == computations.index_for(m, n)
        &&& forall|i: int|
            0 <= i < computations.spec_len() ==> (#[trigger] self.computations.computation_at(i))@
                == computation_with_ids(computations.computation_at(i)@, columns)
        &&& forall|m: Seq<char>| !self.spilling.contains(m)
    }

    /// The program made of the given columns, constraints, constants and
    /// computations. The handles of the constraints and of the computations
    /// are given the ids of the columns they name.
    pub fn new(
        columns: ColumnSet,
        constraints: Vec<Constraint>,
        constants: HandleMap<Integer>,
        computations: ComputationTable,
    ) -> (r: ConstraintSet)
        ensures
            r.made_of(columns, constraints@, constants, computations),
    {
        let mut r = ConstraintSet {
            modules: columns,
            constraints,
            constants,
            computations,
            spilling: Dict::new(),
        };
        r.update_ids();
        r
    }

    /// Gives the handles of the constraints and of the computations the ids
    /// of the columns they name.
    pub fn update_ids(&mut self)
        ensures
            final(self).modules == old(self).modules,
            final(self).constants == old(self).constants,
            final(self).spilling == old(self).spilling,
            final(self).constraints@.len() == old(self).constraints@.len(),
            forall|i: int|
                0 <= i < old(self).constraints@.len() ==> (#[trigger] final(self).constraints@[i])@
                    == constraint_with_ids(old(self).constraints@[i]@, old(self).modules),
            final(self).computations.spec_len() == old(self).computations.spec_len(),
            forall|m: Seq<char>, n: Seq<char>|
                final(self).computations.index_for(m, n) == old(self).computations.index_for(m, n),
            forall|i: int|
                0 <= i < old(self).computations.spec_len() ==> (
                #[trigger] final(self).computations.computation_at(i))@ == computation_with_ids(
                    old(self).computations.computation_at(i)@,
                    old(self).modules,
                ),
    {
        let ghost before = self.constraints@;
        let mut i: usize = 0;
        while i < self.constraints.len()
            invariant
                i <= self.constraints.len(),
                self.modules == old(self).modules,
                self.constants == old(self).constants,
                self.spilling == old(self).spilling,
                self.computations == old(self).computations,
                before == old(self).constraints@,
                self.constraints@.len() == before.len(),
                forall|j: int|
                    0 <= j < i ==> (#[trigger] self.constraints@[j])@ == constraint_with_ids(
                        before[j]@,
                        self.modules,
                    ),
                forall|j: int| i <= j < before.len() ==> #[trigger] self.constraints@[j] == before[j],
            decreases self.constraints.len() - i,
        {
            let mut c = Constraint::Permutation(Handle::new("", ""), Vec::new(), Vec::new());
            core::mem::swap(&mut self.constraints[i], &mut c);
            c.add_id_to_handles(&self.modules);
            core::mem::swap(&mut self.constraints[i], &mut c);
            i = i + 1;
        }
        self.computations.update_ids(&self.modules);
    }

    /// The column that `handle` names.
    pub fn get(&self, handle: &Handle) -> (r: Result<&Column, Error>)
        ensures
            match r {
                Ok(c) => self.modules.spec_id(handle@.module, handle@.name) matches Some(i) && *c
                    == self.modules.column_at(i as int),
                Err(e) => self.modules.spec_id(handle@.module, handle@.name) is None && e
                    == Error::UnknownColumn,
            },
    {
        self.modules.get(handle)
    }

    /// The length recorded for the columns of the module `m`; records `x`
    /// first where none was.
    pub fn raw_len_for_or_set(&mut self, m: &str, x: isize) -> (r: isize)
        ensures
            r == match old(self).modules.raw_len_of(m@) {
                Some(l) => l,
                None => x,
            },
            final(self).modules.raw_len_of(m@) == Some(r),
            forall|k: Seq<char>|
                k != m@ ==> final(self).modules.raw_len_of(k) == old(self).modules.raw_len_of(k),
            final(self).modules.spec_len() == old(self).modules.spec_len(),
            final(self).computations == old(self).computations,
            final(self).spilling == old(self).spilling,
    {
        self.modules.raw_len_for_or_set(m, x)
    }

    /// How many rows before row zero the computed columns of the module
    /// `m` hold, if that has been worked out.
    pub fn spilling(&self, m: &str) -> (r: Option<usize>)
        ensures
            r == self.spilling.lookup(m@),
    {
        match self.spilling.get(m) {
            Some(s) => Some(*s),
            None => None,
        }
    }

    /// How many rows before row zero the computed columns of the module
    /// `m` hold: what was worked out before, or else as many as the
    /// composite columns of the module read into the past or into the
    /// future, whichever is more.
    pub fn spilling_or_insert(&mut self, m: &str) -> (r: usize)
        ensures
            r == match old(self).spilling.lookup(m@) {
                Some(s) => s as nat,
                None => module_spilling(old(self).computations.iter_spec(), m@),
            },
            final(self).spilling.lookup(m@) == Some(r),
            forall|k: Seq<char>| k != m@ ==> final(self).spilling.lookup(k) == old(self).spilling.lookup(k),
            final(self).modules == old(self).modules,
            final(self).computations == old(self).computations,
            final(self).constraints == old(self).constraints,
            final(self).constants == old(self).constants,
            Self::progresses(*old(self), *final(self)),
            Self::spills(*old(self), *final(self), m@),
    {
        match self.spilling.get(m) {
            Some(s) => *s,
            None => {
                let comps = self.computations.iter();
                assert(comps@ =~= self.computations.iter_spec());
                let past = module_spill_exec(comps, m, true);
                let future = module_spill_exec(comps, m, false);
                // The opposite of the least isize is one more than the greatest.
                let back: usize = if past == isize::MIN {
                    (isize::MAX as usize) + 1
                } else {
                    (-past) as usize
                };
                let r = if back >= future as usize {
                    back
                } else {
                    future as usize
                };
                self.spilling.insert(m.to_owned(), r);
                r
            },
        }
    }
}

/// Filling columns twice in a row is filling columns.
pub proof fn lemma_advances_twice(a: ColumnSet, b: ColumnSet, c: ColumnSet)
    requires
        advances(a, b),
        advances(b, c),
    ensures
        advances(a, c),
{
    assert forall|i: int| 0 <= i < a.spec_len() implies (#[trigger] c.column_at(i)).kind_of()
        == a.column_at(i).kind_of() && c.column_at(i).type_of() == a.column_at(i).type_of() && (
    a.column_at(i).values() is Some ==> c.column_at(i).values() == a.column_at(i).values()
        && c.column_at(i).spilling_of() == a.column_at(i).spilling_of()) by {
        assert(b.column_at(i).kind_of() == a.column_at(i).kind_of());
        assert(c.column_at(i).kind_of() == b.column_at(i).kind_of());
    }
}

/// A column that has been filled stays filled.
pub proof fn lemma_filled_stays(a: ColumnSet, b: ColumnSet, h: HandleView)
    requires
        advances(a, b),
        filled(a, h),
    ensures
        filled(b, h),
{
    a.lemma_ids_in_range(h.module, h.name);
    let i = a.spec_id(h.module, h.name)->0;
    assert(b.column_at(i as int).values() == a.column_at(i as int).values());
}

/// Whether the column that `h` names in `cs` has been filled and holds
/// `rows` from row zero on.
pub open spec fn holds_rows(cs: ColumnSet, h: HandleView, rows: Seq<nat>) -> bool {
    cs.spec_id(h.module, h.name) matches Some(i) && cs.column_at(i as int).values() is Some
        && rows == rows_of(cs.column_at(i as int))
}

/// The columns of a set, of which one reads as if it had not been filled.
pub struct Without<'a> {
    pub cs: &'a ColumnSet,
    /// The index of the column that reads as if it had not been filled.
    pub hidden: usize,
}

impl<'a> ColumnSource for Without<'a> {
    open spec fn read(&self, h: HandleView, i: int, wrap: bool) -> Option<nat> {
        if h.id == Some(self.hidden) {
            None
        } else {
            self.cs.read(h, i, wrap)
        }
    }

    fn get(&self, h: &Handle, i: isize, wrap: bool) -> (r: Option<Fr>) {
        match h.id {
            Some(id) => if id == self.hidden {
                None
            } else {
                ColumnSource::get(self.cs, h, i, wrap)
            },
            None => ColumnSource::get(self.cs, h, i, wrap),
        }
    }
}

/// The rows from row zero on of the column that `h` names in `cs`; none
/// where there is no such column, or where it has not been filled.
pub open spec fn rows_of_handle(cs: ColumnSet, h: HandleView) -> Seq<nat> {
    match cs.spec_id(h.module, h.name) {
        Some(i) => rows_of(cs.column_at(i as int)),
        None => Seq::empty(),
    }
}

/// The rows of the columns that `hs` name in `cs`.
pub open spec fn rows_of_each(cs: ColumnSet, hs: Seq<HandleView>) -> Seq<Seq<nat>> {
    Seq::new(hs.len(), |k: int| rows_of_handle(cs, hs[k]))
}

/// The number of rows from row zero on of the column that `h` names in
/// `cs`, if it has been filled.
pub open spec fn length_of(cs: ColumnSet, h: HandleView) -> Option<nat> {
    match cs.spec_id(h.module, h.name) {
        Some(i) => match cs.column_at(i as int).values() {
            Some(v) => Some((v.len() - cs.column_at(i as int).spilling_of()) as nat),
            None => None,
        },
        None => None,
    }
}

/// Whether `length` is the number of rows of the longest of the columns
/// that `hs` name in `cs`, which have all been filled; zero where `hs` names
/// none.
pub open spec fn covers(cs: ColumnSet, hs: Seq<HandleView>, length: nat) -> bool {
    &&& forall|j: int|
        0 <= j < hs.len() ==> ((#[trigger] length_of(cs, hs[j])) matches Some(x) && x <= length)
    &&& length > 0 ==> exists|j: int|
        0 <= j < hs.len() && #[trigger] length_of(cs, hs[j]) == Some(length)
}

/// Whether the column that `target` names in `cs` holds the rows of the
/// columns `froms`, taken in turn, and nothing before row zero.
pub open spec fn interleaves(cs: ColumnSet, froms: Seq<HandleView>, target: HandleView) -> bool {
    &&& cs.spec_id(target.module, target.name) matches Some(t)
    &&& cs.column_at(t as int).spilling_of() == 0
    &&& crate::rows::same_lengths(rows_of_each(cs, froms))
    &&& cs.column_at(t as int).values() == Some(
        crate::rows::interleaved(
            rows_of_each(cs, froms),
            crate::rows::common_length(rows_of_each(cs, froms)),
        ),
    )
}

/// Whether the column that `target` names in `cs` holds `rows` in the
/// order of `perm`, after as many zeros as it has rows before row zero.
pub open spec fn holds_permuted(
    cs: ColumnSet,
    target: HandleView,
    rows: Seq<nat>,
    perm: Seq<usize>,
) -> bool {
    &&& cs.spec_id(target.module, target.name) matches Some(t)
    &&& cs.column_at(t as int).values() matches Some(v)
    &&& cs.column_at(t as int).spilling_of() <= v.len()
    &&& forall|a: int| 0 <= a < cs.column_at(t as int).spilling_of() ==> #[trigger] v[a] == 0
    &&& v.skip(cs.column_at(t as int).spilling_of() as int) == crate::rows::permuted(rows, perm)
}

/// Whether the column that `target` names in `cs` holds the values of
/// `exp`, row by row: it has `spilling` rows before row zero, and as many
/// from row zero on as the longest of the columns that `exp` reads. A row on
/// which `exp` has no value holds zero. The column itself reads as if it had
/// not been filled.
pub open spec fn evaluates(cs: ColumnSet, exp: NodeView, target: HandleView, spilling: nat) -> bool {
    &&& cs.spec_id(target.module, target.name) matches Some(t)
    &&& cs.column_at(t as int).values() matches Some(v)
    &&& cs.column_at(t as int).spilling_of() == spilling
    &&& spilling <= v.len()
    &&& covers(cs, crate::compiler::node::leaves(exp), (v.len() - spilling) as nat)
    &&& forall|k: int|
        0 <= k < v.len() ==> #[trigger] v[k] == crate::rows::value_or_zero(
            exp,
            k - spilling,
            &(Without { cs: &cs, hidden: t }),
        )
}

/// Whether the column that `h` names in `cs` has been filled.
pub open spec fn filled(cs: ColumnSet, h: HandleView) -> bool {
    cs.spec_id(h.module, h.name) matches Some(i) && cs.column_at(i as int).values() is Some
}

/// How many values the column that `h` names in `cs` holds, those before
/// row zero counted, if it has been filled.
pub open spec fn stored_length(cs: ColumnSet, h: HandleView) -> Option<usize> {
    match cs.spec_id(h.module, h.name) {
        Some(i) => match cs.column_at(i as int).values() {
            Some(v) => Some(v.len() as usize),
            None => None,
        },
        None => None,
    }
}

/// Whether the columns that `hs` name in `cs` hold as many values, those
/// before row zero counted.
pub open spec fn same_padded(cs: ColumnSet, hs: Seq<HandleView>) -> bool {
    forall|k: int|
        0 <= k < hs.len() ==> (#[trigger] stored_length(cs, hs[k])) == stored_length(cs, hs[0])
}

/// Whether each of the columns that `hs` name in `cs` has as many rows as
/// the first of them, at least.
pub open spec fn readable(cs: ColumnSet, hs: Seq<HandleView>) -> bool {
    forall|k: int|
        0 <= k < hs.len() ==> (#[trigger] rows_of_handle(cs, hs[k])).len() >= rows_of_handle(
            cs,
            hs[0],
        ).len()
}

/// The rows that a sort of the columns `hs` of `cs` sorts: of each column
/// as many rows, from row zero on, as the first of them has.
pub open spec fn sorted_rows(cs: ColumnSet, hs: Seq<HandleView>) -> Seq<Seq<nat>> {
    Seq::new(
        hs.len(),
        |k: int| rows_of_handle(cs, hs[k]).take(rows_of_handle(cs, hs[0]).len() as int),
    )
}

fn first_rows_of(rows: &Vec<Vec<Fr>>, n: usize) -> (r: Vec<Vec<Fr>>)
    requires
        forall|k: int| 0 <= k < rows@.len() ==> (#[trigger] rows@[k])@.len() >= n,
    ensures
        r@.len() == rows@.len(),
        forall|k: int| 0 <= k < rows@.len() ==> (#[trigger] r@[k])@ == rows@[k]@.take(n as int),
{
    let mut out: Vec<Vec<Fr>> = Vec::new();
    let mut k: usize = 0;
    while k < rows.len()
        invariant
            k <= rows.len(),
            out@.len() == k,
            forall|j: int| 0 <= j < rows@.len() ==> (#[trigger] rows@[j])@.len() >= n,
            forall|j: int| 0 <= j < k ==> (#[trigger] out@[j])@ == rows@[j]@.take(n as int),
        decreases rows.len() - k,
    {
        let mut cut: Vec<Fr> = Vec::new();
        let mut i: usize = 0;
        assert(rows@[k as int]@.len() >= n);
        while i < n
            invariant
                i <= n,
                k < rows.len(),
                rows@[k as int]@.len() >= n,
                cut@ == rows@[k as int]@.take(i as int),
            decreases n - i,
        {
            cut.push(rows[k][i]);
            assert(rows@[k as int]@.take(i + 1) =~= rows@[k as int]@.take(i as int).push(
                rows@[k as int]@[i as int],
            ));
            i = i + 1;
        }
        out.push(cut);
        k = k + 1;
    }
    out
}

/// The error that reading the columns `hs[k..]` of `cs` meets, if any: the
/// first of them that `cs` does not hold is unknown, and the first that has
/// not been filled is not computed.
pub open spec fn rows_error(cs: ColumnSet, hs: Seq<HandleView>, k: int) -> Option<Error>
    decreases hs.len() - k,
{
    if k < 0 || k >= hs.len() {
        None
    } else {
        match cs.spec_id(hs[k].module, hs[k].name) {
            None => Some(Error::UnknownColumn),
            Some(i) => if cs.column_at(i as int).values() is None {
                Some(Error::NotComputed)
            } else {
                rows_error(cs, hs, k + 1)
            },
        }
    }
}

/// Whether `cs` holds no column under one of the names `hs`.
pub open spec fn unknown_among(cs: ColumnSet, hs: Seq<HandleView>) -> bool {
    exists|k: int| 0 <= k < hs.len() && (#[trigger] cs.spec_id(hs[k].module, hs[k].name)) is None
}

impl ConstraintSet {
    /// What working out the spilling of the module `m` does: it is
    /// recorded, where it was not, as the most that the composite columns of
    /// the module read into the past or into the future. Nothing else
    /// changes.
    pub open spec fn spills(before: ConstraintSet, after: ConstraintSet, m: Seq<char>) -> bool {
        &&& after.spilling.lookup(m) == Some(
            match before.spilling.lookup(m) {
                Some(s) => s,
                None => module_spilling(before.computations.iter_spec(), m) as usize,
            },
        )
        &&& before.spilling.lookup(m) is None ==> module_spilling(
            before.computations.iter_spec(),
            m,
        ) <= usize::MAX
        &&& forall|k: Seq<char>| k != m ==> after.spilling.lookup(k) == before.spilling.lookup(k)
        &&& after.modules == before.modules
        &&& after.computations == before.computations
        &&& after.constraints == before.constraints
        &&& after.constants == before.constants
    }

    /// What filling the column of index `id` does, apart from what the
    /// column then holds: no other column changes, and no spilling.
    pub open spec fn stored(before: ConstraintSet, after: ConstraintSet, id: usize) -> bool {
        &&& Self::progresses(before, after)
        &&& after.spilling == before.spilling
        &&& before.modules.column_at(id as int).values() is None
        &&& after.modules.column_at(id as int).values() is Some
        &&& forall|j: int|
            0 <= j < before.modules.spec_len() && j != id ==> #[trigger] after.modules.column_at(j)
                == before.modules.column_at(j)
    }

    /// What filling the first `k` of the columns `hs`, one after another,
    /// does.
    pub open spec fn each_computed(
        a: ConstraintSet,
        hs: Seq<HandleView>,
        k: int,
        fuel: nat,
        bk: ConstraintSet,
    ) -> bool
        decreases fuel, 1nat, k,
    {
        if k <= 0 {
            bk == a
        } else {
            0 <= k - 1 < hs.len() && exists|bp: ConstraintSet, u: Result<(), Error>|
                #[trigger] witness((bp, u)) && u is Ok && Self::each_computed(
                    a,
                    hs,
                    k - 1,
                    fuel,
                    bp,
                ) && Self::column_computes(bp, hs[k - 1], fuel, bk, u)
        }
    }

    /// What filling the columns `hs`, one after another, gives and does:
    /// the first that cannot be filled gives its error. Columns are only
    /// ever filled: none comes, goes or changes.
    pub open spec fn each_computes(
        a: ConstraintSet,
        hs: Seq<HandleView>,
        fuel: nat,
        b: ConstraintSet,
        r: Result<(), Error>,
    ) -> bool
        decreases fuel, 2nat, 0int,
    {
        Self::progresses(a, b) && match r {
            Ok(_) => Self::each_computed(a, hs, hs.len() as int, fuel, b),
            Err(x) => exists|k: int, bk: ConstraintSet|
                #[trigger] witness((k, bk)) && 0 <= k < hs.len() && Self::each_computed(
                    a,
                    hs,
                    k,
                    fuel,
                    bk,
                ) && Self::column_computes(bk, hs[k], fuel, b, Err::<(), Error>(x)),
        }
    }

    /// What filling the column `target` with the values of `exp` gives and
    /// does. A column that is not there is an error, and one that is filled
    /// is left alone. An expression that holds a constant outside the field
    /// where an element of the field is wanted is an error too. Else the
    /// spilling of the module is worked out, the
    /// columns that `exp` reads are filled, in the order in which it first
    /// reads them, and the column is
    /// filled with the values of `exp`; unless one of these columns cannot
    /// be filled, the column turns out to be read by what it reads, or the
    /// rows are more than can be counted.
    pub open spec fn composite_computes(
        a: ConstraintSet,
        exp: NodeView,
        target: HandleView,
        fuel: nat,
        b: ConstraintSet,
        r: Result<(), Error>,
    ) -> bool
        decreases fuel, 3nat, 0int,
    {
        match a.modules.spec_id(target.module, target.name) {
            None => b == a && r == Err::<(), Error>(Error::UnknownColumn),
            Some(id) => if a.modules.column_at(id as int).values() is Some {
                b == a && r is Ok
            } else if !crate::compiler::node::evaluable(exp) {
                b == a && r == Err::<(), Error>(Error::NotInField)
            } else {
                exists|a1: ConstraintSet, b1: ConstraintSet, re: Result<(), Error>, length: nat|
                    #[trigger] witness((a1, b1, re, length)) && Self::spills(
                        a,
                        a1,
                        target.module,
                    ) && Self::each_computes(
                        a1,
                        crate::compiler::node::dependencies_of(exp),
                        fuel,
                        b1,
                        re,
                    ) && match re {
                        Err(x) => b == b1 && r == Err::<(), Error>(x),
                        Ok(_) => if b1.modules.column_at(id as int).values() is Some {
                            b == b1 && r == Err::<(), Error>(Error::CircularDefinition)
                        } else {
                            match rows_error(
                                b1.modules,
                                crate::compiler::node::dependencies_of(exp),
                                0,
                            ) {
                                Some(e) => b == b1 && r == Err::<(), Error>(e),
                                None => covers(
                                    b1.modules,
                                    crate::compiler::node::dependencies_of(exp),
                                    length,
                                ) && if a1.spilling.lookup(
                                    target.module,
                                )->0 > isize::MAX || length > isize::MAX {
                                    b == b1 && r == Err::<(), Error>(Error::TooLong)
                                } else {
                                    r is Ok && Self::stored(b1, b, id) && evaluates(
                                        b.modules,
                                        exp,
                                        target,
                                        a1.spilling.lookup(target.module)->0 as nat,
                                    )
                                },
                            }
                        },
                    }
            },
        }
    }

    /// What filling the column `target` by interleaving the columns
    /// `froms` gives and does. A column that is not there is an error, and
    /// one that is filled is left alone. Else the columns `froms` are
    /// filled, and the column is filled with their rows taken in turn;
    /// unless one of them cannot be filled, the column turns out to be one
    /// that they are made from, they do not have as many rows, or the rows
    /// are more than can be counted.
    pub open spec fn interleaved_computes(
        a: ConstraintSet,
        froms: Seq<HandleView>,
        target: HandleView,
        fuel: nat,
        b: ConstraintSet,
        r: Result<(), Error>,
    ) -> bool
        decreases fuel, 3nat, 0int,
    {
        match a.modules.spec_id(target.module, target.name) {
            None => b == a && r == Err::<(), Error>(Error::UnknownColumn),
            Some(id) => if a.modules.column_at(id as int).values() is Some {
                b == a && r is Ok
            } else {
                exists|b1: ConstraintSet, re: Result<(), Error>|
                    #[trigger] witness((b1, re)) && Self::each_computes(a, froms, fuel, b1, re)
                        && match re {
                        Err(x) => b == b1 && r == Err::<(), Error>(x),
                        Ok(_) => if b1.modules.column_at(id as int).values() is Some {
                            b == b1 && r == Err::<(), Error>(Error::CircularDefinition)
                        } else {
                            match rows_error(b1.modules, froms, 0) {
                                Some(e) => b == b1 && r == Err::<(), Error>(e),
                                None => if !crate::rows::same_lengths(
                                    rows_of_each(b1.modules, froms),
                                ) {
                                    b == b1 && r == Err::<(), Error>(Error::IncoherentLengths)
                                } else if froms.len() * crate::rows::common_length(
                                    rows_of_each(b1.modules, froms),
                                ) > usize::MAX {
                                    b == b1 && r == Err::<(), Error>(Error::TooLong)
                                } else {
                                    r is Ok && Self::stored(b1, b, id) && interleaves(
                                        b.modules,
                                        froms,
                                        target,
                                    )
                                },
                            }
                        },
                    }
            },
        }
    }

    /// What filling the first `k` of the columns `tos` with the rows `cols`
    /// in the order of `perm` does: a column that was filled in `start` is
    /// left alone, and any other is filled with the rows that stand at its
    /// place in `cols`, after `spilling` zeros.
    pub open spec fn targets_stored(
        start: ColumnSet,
        b1: ConstraintSet,
        cols: Seq<Seq<nat>>,
        tos: Seq<HandleView>,
        perm: Seq<usize>,
        spilling: nat,
        k: int,
        bk: ConstraintSet,
    ) -> bool
        decreases k,
    {
        if k <= 0 {
            bk == b1
        } else {
            0 <= k - 1 < tos.len() && k - 1 < cols.len() && exists|bp: ConstraintSet|
                #[trigger] witness(bp) && Self::targets_stored(
                    start,
                    b1,
                    cols,
                    tos,
                    perm,
                    spilling,
                    k - 1,
                    bp,
                ) && if filled(start, tos[k - 1]) {
                    bk == bp
                } else {
                    &&& start.spec_id(tos[k - 1].module, tos[k - 1].name) matches Some(id)
                    &&& Self::stored(bp, bk, id)
                    &&& bk.modules.column_at(id as int).spilling_of() == spilling
                    &&& holds_permuted(bk.modules, tos[k - 1], cols[k - 1], perm)
                }
        }
    }

    /// What filling the columns `tos` with the rows of the columns `froms`,
    /// sorted, gives and does. The columns must be as many, one at least,
    /// and `tos` must be there. The spilling of the module of the first of
    /// `froms` is worked out and the columns `froms` are filled; they must
    /// then hold as many values, those before row zero counted, and none
    /// may have fewer rows than the first, whose rows are as many as are
    /// sorted. Then each of `tos` that was not filled at
    /// first is filled in turn; one that has been filled in between is an
    /// error, which leaves those before it filled.
    pub open spec fn sorted_computes(
        a: ConstraintSet,
        froms: Seq<HandleView>,
        tos: Seq<HandleView>,
        fuel: nat,
        b: ConstraintSet,
        r: Result<(), Error>,
    ) -> bool
        decreases fuel, 3nat, 0int,
    {
        if froms.len() == 0 || froms.len() != tos.len() {
            b == a && r == Err::<(), Error>(Error::IncoherentLengths)
        } else if unknown_among(a.modules, tos) {
            b == a && r == Err::<(), Error>(Error::UnknownColumn)
        } else {
            exists|a1: ConstraintSet, b1: ConstraintSet, re: Result<(), Error>|
                #[trigger] witness((a1, b1, re)) && Self::spills(a, a1, froms[0].module)
                    && Self::each_computes(a1, froms, fuel, b1, re) && match re {
                    Err(x) => b == b1 && r == Err::<(), Error>(x),
                    Ok(_) => match rows_error(b1.modules, froms, 0) {
                        Some(e) => b == b1 && r == Err::<(), Error>(e),
                        None => if !same_padded(b1.modules, froms) || !readable(b1.modules, froms) {
                            b == b1 && r == Err::<(), Error>(Error::IncoherentLengths)
                        } else {
                            exists|perm: Seq<usize>, k: int|
                                #[trigger] witness((perm, k)) && sorts(
                                    perm,
                                    sorted_rows(b1.modules, froms),
                                    rows_of_handle(b1.modules, froms[0]).len(),
                                ) && 0 <= k <= tos.len() && Self::targets_stored(
                                    a.modules,
                                    b1,
                                    sorted_rows(b1.modules, froms),
                                    tos,
                                    perm,
                                    a1.spilling.lookup(froms[0].module)->0 as nat,
                                    k,
                                    b,
                                ) && if k == tos.len() {
                                    r is Ok
                                } else {
                                    r == Err::<(), Error>(Error::CircularDefinition) && !filled(
                                        a.modules,
                                        tos[k],
                                    ) && filled(b.modules, tos[k])
                                }
                        },
                    },
                }
        }
    }

    /// What running the computation of index `i` gives and does: a
    /// computation that is not there is missing; one that fills a single
    /// column fills it unless it is filled, and an error if it is not there;
    /// a sort fills its columns.
    pub open spec fn computes_with(
        a: ConstraintSet,
        i: int,
        fuel: nat,
        b: ConstraintSet,
        r: Result<(), Error>,
    ) -> bool
        decreases fuel, 4nat, 0int,
    {
        if !(0 <= i < a.computations.spec_len()) {
            b == a && r == Err::<(), Error>(Error::ComputationMissing)
        } else {
            match a.computations.computation_at(i)@ {
                ComputationView::Composite { target, exp } => Self::composite_computes(
                    a,
                    exp,
                    target,
                    fuel,
                    b,
                    r,
                ),
                ComputationView::Interleaved { target, froms } => Self::interleaved_computes(
                    a,
                    froms,
                    target,
                    fuel,
                    b,
                    r,
                ),
                ComputationView::Sorted { froms, tos } => Self::sorted_computes(
                    a,
                    froms,
                    tos,
                    fuel,
                    b,
                    r,
                ),
            }
        }
    }

    /// What filling the column `target` gives and does. A column that is
    /// not there is an error, and one that is filled is left alone. Else
    /// the computation that fills the column is run: the column must have
    /// one, and be filled once it has run.
    pub open spec fn column_computes(
        a: ConstraintSet,
        target: HandleView,
        fuel: nat,
        b: ConstraintSet,
        r: Result<(), Error>,
    ) -> bool
        decreases fuel, 0nat, 0int,
    {
        match a.modules.spec_id(target.module, target.name) {
            None => b == a && r == Err::<(), Error>(Error::UnknownColumn),
            Some(id) => if a.modules.column_at(id as int).values() is Some {
                b == a && r is Ok
            } else {
                match a.computations.index_for(target.module, target.name) {
                    None => b == a && r == Err::<(), Error>(Error::ComputationMissing),
                    Some(i) => if fuel == 0 {
                        b == a && r == Err::<(), Error>(Error::CircularDefinition)
                    } else {
                        exists|rw: Result<(), Error>|
                            #[trigger] witness(rw) && Self::computes_with(
                                a,
                                i as int,
                                (fuel - 1) as nat,
                                b,
                                rw,
                            ) && r == match rw {
                            Err(x) => Err::<(), Error>(x),
                            Ok(_) => if filled(b.modules, target) {
                                Ok::<(), Error>(())
                            } else {
                                Err::<(), Error>(Error::ComputationMissing)
                            },
                        }
                    },
                }
            },
        }
    }
}

impl ConstraintSet {
    /// What holds of a program of which only columns have been filled and
    /// spillings worked out.
    pub open spec fn progresses(before: ConstraintSet, after: ConstraintSet) -> bool {
        &&& advances(before.modules, after.modules)
        &&& after.constraints == before.constraints
        &&& after.constants == before.constants
        &&& after.computations == before.computations
    }

    /// Progress after progress is progress.
    pub proof fn lemma_progresses_twice(a: ConstraintSet, b: ConstraintSet, c: ConstraintSet)
        requires
            Self::progresses(a, b),
            Self::progresses(b, c),
        ensures
            Self::progresses(a, c),
    {
        lemma_advances_twice(a.modules, b.modules, c.modules);
    }

    fn store(&mut self, id: usize, values: Vec<Fr>, spilling: usize)
        requires
            id < old(self).modules.spec_len(),
            old(self).modules.column_at(id as int).values() is None,
            spilling <= values@.len(),
        ensures
            Self::progresses(*old(self), *final(self)),
            final(self).spilling == old(self).spilling,
            final(self).modules.column_at(id as int).values() == Some(field_values(values@)),
            final(self).modules.column_at(id as int).spilling_of() == spilling,
            forall|j: int|
                0 <= j < old(self).modules.spec_len() && j != id ==> #[trigger] final(self).modules.column_at(j) == old(self).modules.column_at(j),
            Self::stored(*old(self), *final(self), id),
    {
        self.modules.set_raw_value(id, values, spilling);
    }

    fn rows_of_all(&self, hs: &Vec<Handle>) -> (r: Result<Vec<Vec<Fr>>, Error>)
        ensures
            r matches Ok(v) ==> v@.len() == hs@.len() && forall|k: int|
                0 <= k < hs@.len() ==> holds_rows(
                    self.modules,
                    (#[trigger] hs@[k])@,
                    field_values(v@[k]@),
                ),
            match r {
                Ok(_) => rows_error(self.modules, handle_views(hs@), 0) is None,
                Err(e) => rows_error(self.modules, handle_views(hs@), 0) == Some(e),
            },
    {
        let mut out: Vec<Vec<Fr>> = Vec::new();
        let mut k: usize = 0;
        while k < hs.len()
            invariant
                k <= hs.len(),
                out@.len() == k,
                rows_error(self.modules, handle_views(hs@), 0) == rows_error(
                    self.modules,
                    handle_views(hs@),
                    k as int,
                ),
                forall|j: int|
                    0 <= j < k ==> holds_rows(
                        self.modules,
                        (#[trigger] hs@[j])@,
                        field_values(out@[j]@),
                    ),
            decreases hs.len() - k,
        {
            assert(handle_views(hs@)[k as int] == hs@[k as int]@);
            match self.modules.get(&hs[k]) {
                Err(e) => {
                    return Err(e);
                },
                Ok(c) => {
                    if !c.is_computed() {
                        return Err(Error::NotComputed);
                    }
                    out.push(copy_rows(c));
                },
            }
            k = k + 1;
        }
        Ok(out)
    }

    fn compute_each(&mut self, hs: &Vec<Handle>, fuel: usize) -> (r: Result<(), Error>)
        ensures
            Self::progresses(*old(self), *final(self)),
            r is Ok ==> forall|k: int|
                0 <= k < hs@.len() ==> filled(final(self).modules, (#[trigger] hs@[k])@),
            Self::each_computes(*old(self), handle_views(hs@), fuel as nat, *final(self), r),
        decreases fuel, 1nat,
    {
        let mut k: usize = 0;
        while k < hs.len()
            invariant
                k <= hs.len(),
                Self::progresses(*old(self), *self),
                forall|j: int| 0 <= j < k ==> filled(self.modules, (#[trigger] hs@[j])@),
                Self::each_computed(*old(self), handle_views(hs@), k as int, fuel as nat, *self),
            decreases hs.len() - k,
        {
            let ghost before = *self;
            let u = self.compute_column(&hs[k], fuel);
            proof {
                assert(handle_views(hs@)[(k + 1) - 1] == hs@[k as int]@);
                assert(witness((before, u)));
                assert(witness((k as int, before)));
            }
            match u {
                Ok(_) => {},
                Err(e) => {
                    proof {
                        Self::lemma_progresses_twice(*old(self), before, *self);
                    }
                    return Err(e);
                },
            }
            proof {
                Self::lemma_progresses_twice(*old(self), before, *self);
                assert forall|j: int| 0 <= j < k + 1 implies filled(
                    self.modules,
                    (#[trigger] hs@[j])@,
                ) by {
                    if j < k {
                        lemma_filled_stays(before.modules, self.modules, hs@[j]@);
                    }
                }
            }
            k = k + 1;
        }
        Ok(())
    }

    /// Fills the column that `target` names by interleaving the columns
    /// `froms`, which are filled first where they are not. A column that is
    /// filled already is left as it is. `fuel` bounds how deep the
    /// computations of the columns that are needed may nest.
    pub fn compute_interleaved(&mut self, froms: &Vec<Handle>, target: &Handle, fuel: usize) -> (r:
        Result<(), Error>)
        ensures
            Self::progresses(*old(self), *final(self)),
            filled(old(self).modules, target@) ==> r is Ok && final(self).modules == old(self).modules,
            r is Ok ==> filled(final(self).modules, target@),
            r is Ok && !filled(old(self).modules, target@) ==> interleaves(
                final(self).modules,
                handle_views(froms@),
                target@,
            ),
            Self::interleaved_computes(
                *old(self),
                handle_views(froms@),
                target@,
                fuel as nat,
                *final(self),
                r,
            ),
        decreases fuel, 2nat,
    {
        let ghost start = *self;
        let id = match self.modules.id_of(target) {
            Some(id) => id,
            None => {
                return Err(Error::UnknownColumn);
            },
        };
        if self.modules.column(id).is_computed() {
            return Ok(());
        }
        let re = self.compute_each(froms, fuel);
        let ghost middle = *self;
        proof {
            assert(witness((middle, re)));
        }
        match re {
            Ok(_) => {},
            Err(e) => {
                return Err(e);
            },
        }
        if self.modules.column(id).is_computed() {
            // The columns to interleave are computed from their own interleaving.
            return Err(Error::CircularDefinition);
        }
        let rows = match self.rows_of_all(froms) {
            Ok(rows) => rows,
            Err(e) => {
                return Err(e);
            },
        };
        proof {
            let cols = crate::rows::columns_values(rows@);
            assert(cols =~= rows_of_each(middle.modules, handle_views(froms@))) by {
                assert forall|k: int| 0 <= k < froms@.len() implies cols[k] == rows_of_handle(
                    middle.modules,
                    handle_views(froms@)[k],
                ) by {
                    assert(holds_rows(middle.modules, froms@[k]@, field_values(rows@[k]@)));
                }
            }
        }
        let values = match interleave(&rows) {
            Ok(values) => values,
            Err(e) => {
                return Err(e);
            },
        };
        let total = values.len();
        self.store(id, values, 0);
        proof {
            Self::lemma_progresses_twice(start, middle, *self);
            let cols = crate::rows::columns_values(rows@);
            assert(rows@.len() * crate::rows::common_length(cols) == total);
            assert(cols =~= rows_of_each(self.modules, handle_views(froms@))) by {
                assert forall|k: int| 0 <= k < froms@.len() implies cols[k] == rows_of_handle(
                    self.modules,
                    handle_views(froms@)[k],
                ) by {
                    assert(holds_rows(middle.modules, froms@[k]@, field_values(rows@[k]@)));
                    middle.modules.lemma_ids_in_range(froms@[k]@.module, froms@[k]@.name);
                }
            }
            let before = rows_of_each(middle.modules, handle_views(froms@));
            assert(cols == before);
            let n = rows@.len();
            let c = crate::rows::common_length(cols);
            let n2 = handle_views(froms@).len();
            let c2 = crate::rows::common_length(before);
            assert(n2 * c2 == n * c) by (nonlinear_arith)
                requires
                    n2 == n,
                    c2 == c,
            ;
            assert(n2 * c2 <= usize::MAX);
        }
        Ok(())
    }

    /// Fills the columns that `tos` name with the rows of the columns
    /// `froms`, sorted; `froms` are filled first where they are not, and
    /// must then hold as many values, those before row zero counted. As
    /// many rows are sorted as the first of `froms` has. A column that is
    /// filled already is left as it is.
    pub fn compute_sorted(&mut self, froms: &Vec<Handle>, tos: &Vec<Handle>, fuel: usize) -> (r:
        Result<(), Error>)
        ensures
            Self::progresses(*old(self), *final(self)),
            r is Ok ==> forall|k: int|
                0 <= k < tos@.len() ==> filled(final(self).modules, (#[trigger] tos@[k])@),
            Self::sorted_computes(
                *old(self),
                handle_views(froms@),
                handle_views(tos@),
                fuel as nat,
                *final(self),
                r,
            ),
        decreases fuel, 2nat,
    {
        let ghost start = *self;
        if froms.len() == 0 || froms.len() != tos.len() {
            return Err(Error::IncoherentLengths);
        }
        // Which of the targets are to be filled.
        let mut ids: Vec<Option<usize>> = Vec::new();
        let mut k: usize = 0;
        while k < tos.len()
            invariant
                k <= tos.len(),
                ids@.len() == k,
                *self == start,
                start == *old(self),
                froms@.len() != 0,
                froms@.len() == tos@.len(),
                forall|j: int|
                    0 <= j < k ==> match #[trigger] ids@[j] {
                        Some(id) => !filled(start.modules, tos@[j]@) && start.modules.spec_id(
                            tos@[j]@.module,
                            tos@[j]@.name,
                        ) == Some(id),
                        None => filled(start.modules, tos@[j]@),
                    },
            decreases tos.len() - k,
        {
            match self.modules.id_of(&tos[k]) {
                None => {
                    proof {
                        let hs = handle_views(tos@);
                        assert(start.modules.spec_id(hs[k as int].module, hs[k as int].name) is None);
                    }
                    return Err(Error::UnknownColumn);
                },
                Some(id) => {
                    if self.modules.column(id).is_computed() {
                        ids.push(None);
                    } else {
                        ids.push(Some(id));
                    }
                },
            }
            k = k + 1;
        }
        proof {
            let hs = handle_views(tos@);
            assert forall|j: int| 0 <= j < hs.len() implies (#[trigger] start.modules.spec_id(
                hs[j].module,
                hs[j].name,
            )) is Some by {
                assert(hs[j] == tos@[j]@);
                assert(ids@[j] is Some || ids@[j] is None);
            }
        }
        let spilling = self.spilling_or_insert(froms[0].module.as_str());
        let ghost first = *self;
        let re = self.compute_each(froms, fuel);
        let ghost middle = *self;
        proof {
            Self::lemma_progresses_twice(start, first, middle);
            assert(handle_views(froms@)[0] == froms@[0]@);
            assert(witness((first, middle, re)));
        }
        match re {
            Ok(_) => {},
            Err(e) => {
                return Err(e);
            },
        }
        let rows = match self.rows_of_all(froms) {
            Ok(rows) => rows,
            Err(e) => {
                return Err(e);
            },
        };
        let ghost sources = handle_views(froms@);
        proof {
            assert forall|j: int| 0 <= j < froms@.len() implies field_values(
                (#[trigger] rows@[j])@,
            ) == rows_of_handle(middle.modules, sources[j]) by {
                assert(holds_rows(middle.modules, froms@[j]@, field_values(rows@[j]@)));
            }
        }
        if !self.same_padded_lengths(froms) {
            return Err(Error::IncoherentLengths);
        }
        let n = rows[0].len();
        let mut enough = true;
        let mut k: usize = 1;
        while k < rows.len()
            invariant
                1 <= k <= rows.len(),
                n == rows@[0]@.len(),
                enough ==> forall|j: int| 0 <= j < k ==> (#[trigger] rows@[j])@.len() >= n,
                !enough ==> exists|j: int| 0 <= j < k && (#[trigger] rows@[j])@.len() < n,
            decreases rows.len() - k,
        {
            if rows[k].len() < n {
                enough = false;
            }
            k = k + 1;
        }
        if !enough {
            proof {
                let j = choose|j: int| 0 <= j < rows@.len() && (#[trigger] rows@[j])@.len() < n;
                assert(field_values(rows@[j]@).len() < field_values(rows@[0]@).len());
                assert(rows_of_handle(middle.modules, sources[j]).len() < rows_of_handle(
                    middle.modules,
                    sources[0],
                ).len());
            }
            return Err(Error::IncoherentLengths);
        }
        let cut = first_rows_of(&rows, n);
        let ghost cols = sorted_rows(middle.modules, sources);
        proof {
            assert(readable(middle.modules, sources)) by {
                assert forall|j: int| 0 <= j < sources.len() implies (#[trigger] rows_of_handle(
                    middle.modules,
                    sources[j],
                )).len() >= rows_of_handle(middle.modules, sources[0]).len() by {
                    assert(field_values(rows@[j]@).len() >= n);
                    assert(field_values(rows@[0]@).len() == n);
                }
            }
            assert(crate::rows::columns_values(cut@) =~= cols) by {
                assert forall|j: int| 0 <= j < cols.len() implies crate::rows::columns_values(
                    cut@,
                )[j] == cols[j] by {
                    assert(field_values(rows@[j]@) == rows_of_handle(middle.modules, sources[j]));
                    assert(field_values(rows@[0]@) == rows_of_handle(middle.modules, sources[0]));
                    assert(field_values(cut@[j]@) =~= field_values(rows@[j]@).take(n as int));
                }
            }
            assert forall|j: int| 0 <= j < cols.len() implies (#[trigger] cols[j]).len()
                == cols[0].len() by {
                assert(field_values(rows@[j]@).len() >= n);
                assert(field_values(rows@[0]@).len() == n);
            }
            assert(cols[0].len() == n);
        }
        let perm = sorted_order(&cut);
        let mut k: usize = 0;
        while k < tos.len()
            invariant
                k <= tos.len(),
                tos.len() == rows.len(),
                froms.len() == tos.len(),
                froms@.len() != 0,
                ids@.len() == tos@.len(),
                perm@.len() == n,
                sources == handle_views(froms@),
                cols == sorted_rows(middle.modules, sources),
                forall|a: int| 0 <= a < n ==> (#[trigger] perm@[a]) < n,
                forall|j: int| 0 <= j < rows@.len() ==> (#[trigger] rows@[j])@.len() >= n,
                forall|j: int|
                    0 <= j < froms@.len() ==> field_values((#[trigger] rows@[j])@) == rows_of_handle(
                        middle.modules,
                        sources[j],
                    ),
                n == rows_of_handle(middle.modules, sources[0]).len(),
                Self::progresses(start, *self),
                Self::progresses(middle, *self),
                start == *old(self),
                forall|j: int|
                    0 <= j < tos@.len() ==> match #[trigger] ids@[j] {
                        Some(id) => !filled(start.modules, tos@[j]@) && start.modules.spec_id(
                            tos@[j]@.module,
                            tos@[j]@.name,
                        ) == Some(id),
                        None => filled(start.modules, tos@[j]@),
                    },
                forall|j: int|
                    0 <= j < k && !filled(start.modules, (#[trigger] tos@[j])@) ==> filled(
                        self.modules,
                        tos@[j]@,
                    ),
                first.spilling.lookup(froms@[0]@.module) == Some(spilling),
                sorts(perm@, cols, n as nat),
                rows_error(middle.modules, sources, 0) is None,
                same_padded(middle.modules, sources),
                readable(middle.modules, sources),
                !unknown_among(start.modules, handle_views(tos@)),
                Self::spills(start, first, sources[0].module),
                Self::each_computes(first, sources, fuel as nat, middle, re),
                re is Ok,
                Self::targets_stored(
                    start.modules,
                    middle,
                    cols,
                    handle_views(tos@),
                    perm@,
                    spilling as nat,
                    k as int,
                    *self,
                ),
            decreases tos.len() - k,
        {
            let ghost bp = *self;
            proof {
                assert(witness(bp));
                assert(witness((perm@, k as int)));
                assert(witness((first, middle, re)));
                assert(handle_views(tos@)[(k + 1) - 1] == tos@[k as int]@);
            }
            match ids[k] {
                None => {},
                Some(id) => {
                    proof {
                        start.modules.lemma_ids_in_range(tos@[k as int]@.module, tos@[k as int]@.name);
                    }
                    if self.modules.column(id).is_computed() {
                        // The column is computed from its own sorting, or is sorted twice.
                        return Err(Error::CircularDefinition);
                    }
                    assert(rows@[k as int]@.len() >= n);
                    let values = permute(&rows[k], &perm, spilling);
                    let ghost before = *self;
                    self.store(id, values, spilling);
                    proof {
                        Self::lemma_progresses_twice(start, before, *self);
                        Self::lemma_progresses_twice(middle, before, *self);
                        assert(cols[k as int] == field_values(rows@[k as int]@).take(n as int));
                        assert(crate::rows::permuted(field_values(rows@[k as int]@), perm@)
                            =~= crate::rows::permuted(cols[k as int], perm@));
                        assert(holds_permuted(self.modules, tos@[k as int]@, cols[k as int], perm@));
                        assert forall|j: int|
                            0 <= j < k && !filled(
                                start.modules,
                                (#[trigger] tos@[j])@,
                            ) implies filled(self.modules, tos@[j]@) by {
                            lemma_filled_stays(before.modules, self.modules, tos@[j]@);
                        }
                    }
                },
            }
            k = k + 1;
        }
        proof {
            assert forall|j: int| 0 <= j < tos@.len() implies filled(
                self.modules,
                (#[trigger] tos@[j])@,
            ) by {
                if filled(start.modules, tos@[j]@) {
                    lemma_filled_stays(start.modules, self.modules, tos@[j]@);
                }
            }
            assert(witness((perm@, tos@.len() as int)));
            assert(witness((first, middle, re)));
        }
        Ok(())
    }

    fn same_padded_lengths(&self, hs: &Vec<Handle>) -> (r: bool)
        requires
            hs@.len() > 0,
        ensures
            r == same_padded(self.modules, handle_views(hs@)),
    {
        let first = match self.modules.get(&hs[0]) {
            Ok(c) => c.padded_len(),
            Err(_) => None,
        };
        assert(handle_views(hs@)[0] == hs@[0]@);
        let mut k: usize = 1;
        while k < hs.len()
            invariant
                1 <= k <= hs.len(),
                first == stored_length(self.modules, handle_views(hs@)[0]),
                forall|j: int|
                    0 <= j < k ==> (#[trigger] stored_length(self.modules, handle_views(hs@)[j]))
                        == first,
            decreases hs.len() - k,
        {
            assert(handle_views(hs@)[k as int] == hs@[k as int]@);
            let here = match self.modules.get(&hs[k]) {
                Ok(c) => c.padded_len(),
                Err(_) => None,
            };
            let same = match (here, first) {
                (Some(x), Some(y)) => x == y,
                (None, None) => true,
                _ => false,
            };
            if !same {
                assert(stored_length(self.modules, handle_views(hs@)[k as int]) != first);
                return false;
            }
            k = k + 1;
        }
        true
    }

    fn longest(&self, hs: &Vec<Handle>) -> (r: Result<usize, Error>)
        ensures
            r matches Ok(l) ==> covers(self.modules, handle_views(hs@), l as nat),
            match r {
                Ok(_) => rows_error(self.modules, handle_views(hs@), 0) is None,
                Err(e) => rows_error(self.modules, handle_views(hs@), 0) == Some(e),
            },
    {
        let mut length: usize = 0;
        let mut k: usize = 0;
        while k < hs.len()
            invariant
                k <= hs.len(),
                rows_error(self.modules, handle_views(hs@), 0) == rows_error(
                    self.modules,
                    handle_views(hs@),
                    k as int,
                ),
                covers(self.modules, handle_views(hs@).take(k as int), length as nat),
            decreases hs.len() - k,
        {
            let ghost done = handle_views(hs@).take(k as int);
            let ghost next = handle_views(hs@).take(k + 1);
            let ghost before = length;
            assert(handle_views(hs@)[k as int] == hs@[k as int]@);
            match self.modules.get(&hs[k]) {
                Err(e) => {
                    return Err(e);
                },
                Ok(c) => match c.len() {
                    Some(l) => {
                        if l > length {
                            length = l;
                        }
                        proof {
                            assert(next[k as int] == hs@[k as int]@);
                            assert(length_of(self.modules, next[k as int]) == Some(l as nat));
                            assert forall|j: int| 0 <= j < next.len() implies (
                            #[trigger] length_of(self.modules, next[j])) matches Some(x) && x
                                <= length by {
                                if j < k {
                                    assert(done[j] == next[j]);
                                    assert(length_of(self.modules, done[j]) is Some);
                                }
                            }
                            if length > 0 {
                                if l == length {
                                    assert(length_of(self.modules, next[k as int]) == Some(
                                        length as nat,
                                    ));
                                } else {
                                    let j = choose|j: int|
                                        0 <= j < done.len() && #[trigger] length_of(
                                            self.modules,
                                            done[j],
                                        ) == Some(before as nat);
                                    assert(done[j] == next[j]);
                                    assert(length_of(self.modules, next[j]) == Some(length as nat));
                                }
                            }
                        }
                    },
                    None => {
                        return Err(Error::NotComputed);
                    },
                },
            }
            k = k + 1;
        }
        assert(handle_views(hs@).take(k as int) =~= handle_views(hs@));
        Ok(length)
    }

    /// Fills the column that `target` names with the values of `exp`, row
    /// by row, from as many rows before row zero as the module spills up to
    /// the last row of the longest of the columns that `exp` reads. These
    /// columns are filled first where they are not. A column that is filled
    /// already is left as it is.
    pub fn compute_composite(&mut self, exp: &Node, target: &Handle, fuel: usize) -> (r: Result<
        (),
        Error,
    >)
        ensures
            Self::progresses(*old(self), *final(self)),
            filled(old(self).modules, target@) ==> r is Ok && final(self).modules == old(self).modules,
            r is Ok ==> filled(final(self).modules, target@),
            r is Ok && !filled(old(self).modules, target@) ==> evaluates(
                final(self).modules,
                exp@,
                target@,
                match old(self).spilling.lookup(target@.module) {
                    Some(s) => s as nat,
                    None => module_spilling(old(self).computations.iter_spec(), target@.module),
                },
            ),
            Self::composite_computes(*old(self), exp@, target@, fuel as nat, *final(self), r),
        decreases fuel, 2nat,
    {
        let ghost start = *self;
        let id = match self.modules.id_of(target) {
            Some(id) => id,
            None => {
                return Err(Error::UnknownColumn);
            },
        };
        if self.modules.column(id).is_computed() {
            return Ok(());
        }
        if !exp.is_evaluable() {
            return Err(Error::NotInField);
        }
        let spilling = self.spilling_or_insert(target.module.as_str());
        let ghost first = *self;
        let deps = exp.dependencies();
        let re = self.compute_each(&deps, fuel);
        let ghost middle = *self;
        proof {
            Self::lemma_progresses_twice(start, first, middle);
            assert(witness((first, middle, re, 0nat)));
        }
        match re {
            Ok(_) => {},
            Err(e) => {
                return Err(e);
            },
        }
        if self.modules.column(id).is_computed() {
            // The column is computed from itself.
            return Err(Error::CircularDefinition);
        }
        let length = match self.longest(&deps) {
            Ok(l) => l,
            Err(e) => {
                return Err(e);
            },
        };
        proof {
            assert(witness((first, middle, re, length as nat)));
        }
        if spilling > isize::MAX as usize || length > isize::MAX as usize {
            return Err(Error::TooLong);
        }
        let values = evaluate_rows(exp, &self.modules, spilling, length);
        let ghost stored = field_values(values@);
        self.store(id, values, spilling);
        proof {
            Self::lemma_progresses_twice(start, middle, *self);
            let hidden = Without { cs: &self.modules, hidden: id };
            assert(crate::compiler::eval::same_reads(&middle.modules, &hidden)) by {
                assert forall|h: HandleView, i: int, wrap: bool| #[trigger]
                    middle.modules.read(h, i, wrap) == hidden.read(h, i, wrap) by {
                    match h.id {
                        Some(x) => {
                            if x != id && x < middle.modules.spec_len() {
                                assert(self.modules.column_at(x as int) == middle.modules.column_at(
                                    x as int,
                                ));
                            }
                        },
                        None => {},
                    }
                }
            }
            assert forall|k: int| 0 <= k < stored.len() implies #[trigger] stored[k]
                == crate::rows::value_or_zero(exp@, k - spilling, &hidden) by {
                crate::compiler::eval::lemma_eval_same_reads(
                    exp@,
                    k - spilling,
                    &middle.modules,
                    &hidden,
                    false,
                );
            }
            Self::lemma_covers(middle.modules, self.modules, deps@, exp@, id, length as nat);
        }
        Ok(())
    }

    proof fn lemma_covers(
        middle: ColumnSet,
        after: ColumnSet,
        deps: Seq<Handle>,
        exp: NodeView,
        id: usize,
        length: nat,
    )
        requires
            covers(middle, handle_views(deps), length),
            forall|h: HandleView| #[trigger]
                crate::compiler::node::has_key(handle_views(deps), h)
                    <==> crate::compiler::node::has_key(crate::compiler::node::leaves(exp), h),
            after.spec_len() == middle.spec_len(),
            middle.column_at(id as int).values() is None,
            forall|m: Seq<char>, n: Seq<char>| after.spec_id(m, n) == middle.spec_id(m, n),
            forall|j: int|
                0 <= j < middle.spec_len() && j != id ==> #[trigger] after.column_at(j)
                    == middle.column_at(j),
        ensures
            covers(after, crate::compiler::node::leaves(exp), length),
    {
        let hs = handle_views(deps);
        let ls = crate::compiler::node::leaves(exp);
        assert forall|h: HandleView| length_of(middle, h) is Some implies length_of(after, h)
            == length_of(middle, h) by {
            middle.lemma_ids_in_range(h.module, h.name);
        }
        assert forall|j: int| 0 <= j < ls.len() implies (#[trigger] length_of(after, ls[j]))
            matches Some(x) && x <= length by {
            assert(crate::compiler::node::has_key(ls, ls[j]));
            assert(crate::compiler::node::has_key(hs, ls[j]));
            let k = choose|k: int| 0 <= k < hs.len() && (#[trigger] hs[k]).key() == ls[j].key();
            assert(length_of(middle, hs[k]) is Some);
            assert(length_of(middle, ls[j]) == length_of(middle, hs[k]));
        }
        if length > 0 {
            let k = choose|k: int|
                0 <= k < hs.len() && #[trigger] length_of(middle, hs[k]) == Some(length);
            assert(crate::compiler::node::has_key(hs, hs[k]));
            assert(crate::compiler::node::has_key(ls, hs[k]));
            let j = choose|j: int| 0 <= j < ls.len() && (#[trigger] ls[j]).key() == hs[k].key();
            assert(length_of(middle, ls[j]) == length_of(middle, hs[k]));
            assert(length_of(after, ls[j]) == Some(length));
        }
    }

    /// What evaluating `exp` on the columns as they are gives: its values
    /// on the rows from row zero up to the last row of the longest of the
    /// columns that it reads, a row on which it has no value counting as
    /// zero. A constant outside the field where an element of the field is
    /// wanted is an error. A column that is not there or has not been
    /// filled is an error, the first of the columns that are read, in the
    /// order in which they are first read; and so are more rows than can be
    /// counted.
    pub open spec fn evaluates_static(self, exp: NodeView, r: Result<Vec<Fr>, Error>) -> bool {
        if !crate::compiler::node::evaluable(exp) {
            r matches Err(x) && x == Error::NotInField
        } else {
            self.evaluates_rows(exp, r)
        }
    }

    /// What evaluating an expression that can be evaluated gives.
    pub open spec fn evaluates_rows(self, exp: NodeView, r: Result<Vec<Fr>, Error>) -> bool {
        let deps = crate::compiler::node::dependencies_of(exp);
        match rows_error(self.modules, deps, 0) {
            Some(e) => r matches Err(x) && x == e,
            None => exists|length: nat|
                #[trigger] witness(length) && covers(self.modules, deps, length) && if length
                    > isize::MAX {
                    r matches Err(x) && x == Error::TooLong
                } else {
                    &&& r matches Ok(v)
                    &&& v@.len() == length
                    &&& forall|k: int|
                        0 <= k < length ==> (#[trigger] v@[k]).value()
                            == crate::rows::value_or_zero(exp, k, &self.modules)
                },
        }
    }

    /// The values of `exp` on the rows from row zero up to the last row of
    /// the longest of the columns that `exp` reads, which must all have been
    /// filled.
    pub fn compute_composite_static(&self, exp: &Node) -> (r: Result<Vec<Fr>, Error>)
        ensures
            self.evaluates_static(exp@, r),
    {
        if !exp.is_evaluable() {
            return Err(Error::NotInField);
        }
        let deps = exp.dependencies();
        let rl = self.longest(&deps);
        proof {
            let length: nat = match rl {
                Ok(l) => l as nat,
                Err(_) => 0,
            };
            assert(witness(length));
        }
        let length = match rl {
            Ok(l) => l,
            Err(e) => {
                return Err(e);
            },
        };
        if length > isize::MAX as usize {
            return Err(Error::TooLong);
        }
        Ok(evaluate_rows(exp, &self.modules, 0, length))
    }

    /// Fills the column that `target` names, unless it is filled already:
    /// by the computation that produces it.
    pub fn compute_column(&mut self, target: &Handle, fuel: usize) -> (r: Result<(), Error>)
        ensures
            Self::progresses(*old(self), *final(self)),
            r is Ok ==> filled(final(self).modules, target@),
            Self::column_computes(*old(self), target@, fuel as nat, *final(self), r),
        decreases fuel, 0nat,
    {
        let computed = match self.modules.get(target) {
            Ok(c) => c.is_computed(),
            Err(e) => {
                return Err(e);
            },
        };
        if computed {
            Ok(())
        } else {
            match self.computations.dependencies(target) {
                None => Err(Error::ComputationMissing),
                Some(i) => {
                    if fuel == 0 {
                        // Computations that nest deeper than there are computations go round.
                        return Err(Error::CircularDefinition);
                    }
                    let r = self.compute_with(i, fuel - 1);
                    proof {
                        assert(witness(r));
                    }
                    match r {
                        Ok(_) => {
                            // The computation may be one that fills other columns only.
                            match self.modules.get(target) {
                                Ok(c) => if c.is_computed() {
                                    Ok(())
                                } else {
                                    Err(Error::ComputationMissing)
                                },
                                Err(e) => Err(e),
                            }
                        },
                        Err(e) => Err(e),
                    }
                },
            }
        }
    }

    fn compute_with(&mut self, i: usize, fuel: usize) -> (r: Result<(), Error>)
        ensures
            Self::progresses(*old(self), *final(self)),
            Self::computes_with(*old(self), i as int, fuel as nat, *final(self), r),
        decreases fuel, 3nat,
    {
        let comp = match self.computations.get(i) {
            Some(c) => c.clone(),
            None => {
                return Err(Error::ComputationMissing);
            },
        };
        match &comp {
            Computation::Composite { target, exp } => {
                let computed = match self.modules.get(target) {
                    Ok(c) => c.is_computed(),
                    Err(e) => {
                        return Err(e);
                    },
                };
                if !computed {
                    self.compute_composite(exp, target, fuel)
                } else {
                    Ok(())
                }
            },
            Computation::Interleaved { target, froms } => {
                let computed = match self.modules.get(target) {
                    Ok(c) => c.is_computed(),
                    Err(e) => {
                        return Err(e);
                    },
                };
                if !computed {
                    self.compute_interleaved(froms, target, fuel)
                } else {
                    Ok(())
                }
            },
            Computation::Sorted { froms, tos } => self.compute_sorted(froms, tos, fuel),
        }
    }

    /// Runs the computation of index `i`.
    pub fn compute(&mut self, i: usize) -> (r: Result<(), Error>)
        ensures
            Self::progresses(*old(self), *final(self)),
            Self::computes_with(
                *old(self),
                i as int,
                old(self).computations.spec_len(),
                *final(self),
                r,
            ),
    {
        let fuel = self.computations.len();
        self.compute_with(i, fuel)
    }

    /// What running the first `k` computations, in the order of the table,
    /// gives and does: `failures` holds the error of each that failed, with
    /// its index. Each is given as much fuel as there are computations.
    pub open spec fn all_computed(
        a: ConstraintSet,
        k: int,
        bk: ConstraintSet,
        failures: Seq<(usize, Error)>,
    ) -> bool
        decreases k,
    {
        if k <= 0 {
            bk == a && failures.len() == 0
        } else {
            exists|bp: ConstraintSet, prev: Seq<(usize, Error)>, u: Result<(), Error>|
                #[trigger] witness((bp, prev, u)) && Self::all_computed(a, k - 1, bp, prev)
                    && Self::computes_with(bp, k - 1, bp.computations.spec_len(), bk, u)
                    && failures == match u {
                    Ok(_) => prev,
                    Err(e) => prev.push(((k - 1) as usize, e)),
                }
        }
    }

    /// Runs all the computations, in the order of the table. A computation
    /// that fails does not stop the others: the failures are returned, each
    /// with the index of the computation that failed.
    pub fn compute_all(&mut self) -> (r: Vec<(usize, Error)>)
        ensures
            Self::progresses(*old(self), *final(self)),
            forall|k: int| 0 <= k < r@.len() ==> (#[trigger] r@[k]).0 < old(self).computations.spec_len(),
            Self::all_computed(
                *old(self),
                old(self).computations.spec_len() as int,
                *final(self),
                r@,
            ),
    {
        let mut failures: Vec<(usize, Error)> = Vec::new();
        let n = self.computations.len();
        let mut i: usize = 0;
        while i < n
            invariant
                i <= n,
                n == old(self).computations.spec_len(),
                Self::progresses(*old(self), *self),
                forall|k: int| 0 <= k < failures@.len() ==> (#[trigger] failures@[k]).0 < n,
                Self::all_computed(*old(self), i as int, *self, failures@),
            decreases n - i,
        {
            let ghost before = *self;
            let ghost prev = failures@;
            let u = self.compute(i);
            match u {
                Ok(_) => {},
                Err(e) => {
                    failures.push((i, e));
                },
            }
            proof {
                Self::lemma_progresses_twice(*old(self), before, *self);
                assert(witness((before, prev, u)));
            }
            i = i + 1;
        }
        failures
    }
}

/// The product of two numbers, or the greatest `usize` where it exceeds
/// it.
pub open spec fn capped_product(a: nat, b: nat) -> nat {
    if a * b > usize::MAX {
        usize::MAX as nat
    } else {
        a * b
    }
}

/// By how much the column that `h` names is longer than the columns of the
/// trace it is derived from: a column made by interleaving `n` columns is
/// `n` times as long as the first of them, a column computed from an
/// expression is as long as the first column it reads, a sorted column is
/// as long as the first column that is sorted, and any other column counts
/// for one. Derivations are followed `fuel` deep.
pub open spec fn multiplier(comps: ComputationTable, h: HandleView, fuel: nat) -> nat
    decreases fuel,
{
    if fuel == 0 {
        1
    } else {
        match comps.index_for(h.module, h.name) {
            None => 1,
            Some(i) => match comps.computation_at(i as int)@ {
                ComputationView::Composite { target, exp } => if crate::compiler::node::leaves(
                    exp,
                ).len() > 0 {
                    multiplier(comps, crate::compiler::node::leaves(exp)[0], (fuel - 1) as nat)
                } else {
                    1
                },
                ComputationView::Interleaved { target, froms } => if froms.len() > 0 {
                    capped_product(multiplier(comps, froms[0], (fuel - 1) as nat), froms.len())
                } else {
                    1
                },
                ComputationView::Sorted { froms, tos } => if froms.len() > 0 {
                    multiplier(comps, froms[0], (fuel - 1) as nat)
                } else {
                    1
                },
            },
        }
    }
}

/// The text of the values `vals[k..]`, each between quotes, with commas
/// between them.
pub open spec fn rendered_values(vals: Seq<nat>, k: int) -> Seq<char>
    decreases vals.len() - k,
{
    if k < 0 || k >= vals.len() {
        Seq::empty()
    } else {
        (if k > 0 {
            seq![',']
        } else {
            Seq::empty()
        }) + seq!['"'] + crate::field::render_hex(vals[k]) + seq!['"'] + rendered_values(
            vals,
            k + 1,
        )
    }
}

/// The text of a column: its name, its values, and what it is padded
/// with.
pub open spec fn rendered_column(name: Seq<char>, vals: Seq<nat>, pad: nat) -> Seq<char> {
    seq!['"'] + name + "\":{\n\"values\":["@ + rendered_values(vals, 0)
        + "],\n\"padding_strategy\": {\"action\": \"prepend\", \"value\": \""@
        + crate::field::render_hex(pad) + "\"}\n}\n"@
}

impl ConstraintSet {
    /// The values of the column of index `i`: none for a column that has not
    /// been filled.
    pub open spec fn values_at(self, i: int) -> Seq<nat> {
        match self.modules.column_at(i).values() {
            Some(v) => v,
            None => Seq::empty(),
        }
    }

    /// What the column of index `i` is padded with: its first value if it
    /// holds values, and else its padding.
    pub open spec fn pad_at(self, i: int) -> nat {
        if self.values_at(i).len() > 0 {
            self.values_at(i)[0]
        } else {
            crate::compute::padding_value(
                self,
                self.modules.handle_at(i),
                self.modules.column_at(i).kind_of(),
            )
        }
    }

    /// The text of the columns from the `k`-th on, with commas between
    /// them.
    pub open spec fn rendered_from(self, k: int) -> Seq<char>
        decreases self.modules.spec_len() - k,
    {
        if k < 0 || k >= self.modules.spec_len() {
            Seq::empty()
        } else {
            (if k > 0 {
                seq![',']
            } else {
                Seq::empty()
            }) + rendered_column(
                crate::compiler::common::mangle_spec(
                    self.modules.handle_at(k).module,
                    self.modules.handle_at(k).name,
                ),
                self.values_at(k),
                self.pad_at(k),
            ) + self.rendered_from(k + 1)
        }
    }

    /// The text of the program's columns: a JSON object that holds, under
    /// `columns`, each column under its mangled name, with its values and
    /// its padding.
    pub open spec fn rendered(self) -> Seq<char> {
        "{\"columns\":{\n"@ + self.rendered_from(0) + "}}"@
    }

    /// By how much the column that `h` names is longer than the columns of
    /// the trace it is derived from.
    pub fn length_multiplier(&self, h: &Handle) -> (r: usize)
        ensures
            r == multiplier(self.computations, h@, self.computations.spec_len()),
    {
        self.multiplier_exec(h, self.computations.len())
    }

    fn multiplier_exec(&self, h: &Handle, fuel: usize) -> (r: usize)
        ensures
            r == multiplier(self.computations, h@, fuel as nat),
        decreases fuel,
    {
        if fuel == 0 {
            return 1;
        }
        match self.computations.computation_for(h) {
            None => 1,
            Some(comp) => match comp {
                Computation::Composite { target, exp } => match exp.first_dependency() {
                    Some(first) => self.multiplier_exec(&first, fuel - 1),
                    None => 1,
                },
                Computation::Interleaved { target, froms } => {
                    if froms.len() > 0 {
                        let m = self.multiplier_exec(&froms[0], fuel - 1);
                        assert(crate::compiler::node::handle_views(froms@)[0] == froms@[0]@);
                        match m.checked_mul(froms.len()) {
                            Some(p) => p,
                            None => usize::MAX,
                        }
                    } else {
                        1
                    }
                },
                Computation::Sorted { froms, tos } => {
                    if froms.len() > 0 {
                        assert(crate::compiler::node::handle_views(froms@)[0] == froms@[0]@);
                        self.multiplier_exec(&froms[0], fuel - 1)
                    } else {
                        1
                    }
                },
            },
        }
    }

    fn write_values(out: &mut String, vals: &Vec<Fr>)
        ensures
            final(out)@ == old(out)@ + rendered_values(field_values(vals@), 0),
    {
        let ghost values = field_values(vals@);
        let mut k: usize = 0;
        while k < vals.len()
            invariant
                k <= vals.len(),
                values == field_values(vals@),
                out@ + rendered_values(values, k as int) == old(out)@ + rendered_values(values, 0),
            decreases vals.len() - k,
        {
            let ghost before = out@;
            if k > 0 {
                crate::text::push_char(out, ',');
            }
            crate::text::push_char(out, '"');
            let hex = vals[k].to_hex();
            out.append(hex.as_str());
            crate::text::push_char(out, '"');
            proof {
                let piece = (if k > 0 {
                    seq![',']
                } else {
                    Seq::<char>::empty()
                }) + seq!['"'] + crate::field::render_hex(values[k as int]) + seq!['"'];
                assert(out@ =~= before + piece);
                assert(before + rendered_values(values, k as int) =~= (before + piece)
                    + rendered_values(values, k + 1));
            }
            k = k + 1;
        }
        proof {
            assert(out@ + Seq::<char>::empty() =~= out@);
        }
    }

    fn write_column(&self, out: &mut String, i: usize)
        requires
            i < self.modules.spec_len(),
        ensures
            final(out)@ == old(out)@ + rendered_column(
                crate::compiler::common::mangle_spec(
                    self.modules.handle_at(i as int).module,
                    self.modules.handle_at(i as int).name,
                ),
                self.values_at(i as int),
                self.pad_at(i as int),
            ),
    {
        let column = self.modules.column(i);
        let handle = self.modules.handle(i);
        let name = handle.mangle();
        let none: Vec<Fr> = Vec::new();
        let values = match column.value() {
            Some(v) => v,
            None => &none,
        };
        assert(field_values(values@) =~= self.values_at(i as int));
        let pad = if values.len() > 0 {
            values[0]
        } else {
            crate::compute::padding(self, handle, column.kind())
        };
        crate::text::push_char(out, '"');
        out.append(name.as_str());
        out.append("\":{\n\"values\":[");
        Self::write_values(out, values);
        out.append("],\n\"padding_strategy\": {\"action\": \"prepend\", \"value\": \"");
        let hex = pad.to_hex();
        out.append(hex.as_str());
        out.append("\"}\n}\n");
        proof {
            assert(out@ =~= old(out)@ + rendered_column(
                name@,
                self.values_at(i as int),
                self.pad_at(i as int),
            ));
        }
    }

    /// The text of the program's columns, as the tools that come after
    /// expect it.
    pub fn write(&self) -> (r: String)
        ensures
            r@ == self.rendered(),
    {
        let mut out = "{\"columns\":{\n".to_owned();
        let ghost start = out@;
        let n = self.modules.len();
        let mut k: usize = 0;
        while k < n
            invariant
                k <= n,
                n == self.modules.spec_len(),
                out@ + self.rendered_from(k as int) == start + self.rendered_from(0),
            decreases n - k,
        {
            let ghost before = out@;
            if k > 0 {
                crate::text::push_char(&mut out, ',');
            }
            let ghost middle = out@;
            self.write_column(&mut out, k);
            proof {
                let piece = out@.subrange(before.len() as int, out@.len() as int);
                assert(out@ =~= before + piece);
                assert(before + self.rendered_from(k as int) =~= out@ + self.rendered_from(k + 1));
            }
            k = k + 1;
        }
        proof {
            assert(out@ + Seq::<char>::empty() =~= out@);
        }
        out.append("}}");
        assert(out@ =~= self.rendered());
        out
    }
}

/// Whether the columns that `hs` name in `cs` are there, are not filled,
/// and are not the same column twice.
pub open spec fn to_be_filled(cs: ColumnSet, hs: Seq<HandleView>) -> bool {
    &&& forall|j: int|
        0 <= j < hs.len() ==> (#[trigger] cs.spec_id(hs[j].module, hs[j].name)) is Some && !filled(
            cs,
            hs[j],
        )
    &&& forall|i: int, j: int|
        0 <= i < j < hs.len() ==> cs.spec_id(hs[i].module, hs[i].name) != cs.spec_id(
            hs[j].module,
            hs[j].name,
        )
}

/// Whether the columns that `hs` name in `cs` have all been filled.
pub open spec fn all_filled(cs: ColumnSet, hs: Seq<HandleView>) -> bool {
    forall|j: int| 0 <= j < hs.len() ==> filled(cs, #[trigger] hs[j])
}

/// Columns that have been filled can be read.
pub proof fn lemma_rows_known(cs: ColumnSet, hs: Seq<HandleView>, k: int)
    requires
        all_filled(cs, hs),
        0 <= k,
    ensures
        rows_error(cs, hs, k) is None,
    decreases hs.len() - k,
{
    if k < hs.len() {
        assert(filled(cs, hs[k]));
        lemma_rows_known(cs, hs, k + 1);
    }
}

/// Rows of sorted columns compare as the rows they were taken from.
pub proof fn lemma_permuted_order(
    cols: Seq<Seq<nat>>,
    sorted: Seq<Seq<nat>>,
    perm: Seq<usize>,
    k: int,
    i: int,
    j: int,
)
    requires
        0 <= k,
        sorted.len() == cols.len(),
        0 <= i < perm.len(),
        0 <= j < perm.len(),
        forall|c: int| 0 <= c < cols.len() ==> #[trigger] sorted[c] == crate::rows::permuted(
            cols[c],
            perm,
        ),
    ensures
        crate::rows::row_order(sorted, k, i, j) == crate::rows::row_order(
            cols,
            k,
            perm[i] as int,
            perm[j] as int,
        ),
    decreases cols.len() - k,
{
    if k < cols.len() {
        assert(sorted[k] == crate::rows::permuted(cols[k], perm));
        assert(sorted[k][i] == cols[k][perm[i] as int]);
        assert(sorted[k][j] == cols[k][perm[j] as int]);
        lemma_permuted_order(cols, sorted, perm, k + 1, i, j);
    }
}

impl ConstraintSet {
    /// Filling columns that have been filled changes nothing.
    pub proof fn lemma_each_filled(
        a: ConstraintSet,
        hs: Seq<HandleView>,
        k: int,
        fuel: nat,
        bk: ConstraintSet,
    )
        requires
            0 <= k <= hs.len(),
            all_filled(a.modules, hs),
            Self::each_computed(a, hs, k, fuel, bk),
        ensures
            bk == a,
        decreases k,
    {
        if k > 0 {
            let (bp, u) = choose|bp: ConstraintSet, u: Result<(), Error>|
                #[trigger] witness((bp, u)) && u is Ok && Self::each_computed(
                    a,
                    hs,
                    k - 1,
                    fuel,
                    bp,
                ) && Self::column_computes(bp, hs[k - 1], fuel, bk, u);
            Self::lemma_each_filled(a, hs, k - 1, fuel, bp);
            assert(filled(a.modules, hs[k - 1]));
        }
    }

    /// Filling columns that have been filled succeeds, whatever the fuel,
    /// and changes nothing.
    pub proof fn lemma_all_filled(
        a: ConstraintSet,
        hs: Seq<HandleView>,
        fuel: nat,
        b: ConstraintSet,
        r: Result<(), Error>,
    )
        requires
            all_filled(a.modules, hs),
            Self::each_computes(a, hs, fuel, b, r),
        ensures
            b == a,
            r is Ok,
    {
        match r {
            Ok(_) => {
                Self::lemma_each_filled(a, hs, hs.len() as int, fuel, b);
            },
            Err(x) => {
                let (k, bk) = choose|k: int, bk: ConstraintSet|
                    #[trigger] witness((k, bk)) && 0 <= k < hs.len() && Self::each_computed(
                        a,
                        hs,
                        k,
                        fuel,
                        bk,
                    ) && Self::column_computes(bk, hs[k], fuel, b, Err::<(), Error>(x));
                Self::lemma_each_filled(a, hs, k, fuel, bk);
                assert(filled(a.modules, hs[k]));
            },
        }
    }

    /// The length of an interleaving. Interleaving columns that have been
    /// filled and have as many rows into a column that has not been filled
    /// succeeds, and the column then holds as many rows as all of them
    /// together, and nothing before row zero.
    pub proof fn lemma_interleave_length(
        a: ConstraintSet,
        froms: Seq<HandleView>,
        target: HandleView,
        fuel: nat,
        b: ConstraintSet,
        r: Result<(), Error>,
    )
        requires
            Self::interleaved_computes(a, froms, target, fuel, b, r),
            all_filled(a.modules, froms),
            crate::rows::same_lengths(rows_of_each(a.modules, froms)),
            froms.len() * crate::rows::common_length(rows_of_each(a.modules, froms)) <= usize::MAX,
            a.modules.spec_id(target.module, target.name) is Some,
            !filled(a.modules, target),
        ensures
            r is Ok,
            b.modules.spec_id(target.module, target.name) matches Some(t) && b.modules.column_at(
                t as int,
            ).spilling_of() == 0 && (b.modules.column_at(t as int).values() matches Some(v)
                && v.len() == froms.len() * crate::rows::common_length(
                rows_of_each(a.modules, froms),
            )),
    {
        let id = a.modules.spec_id(target.module, target.name)->0;
        a.modules.lemma_ids_in_range(target.module, target.name);
        let (b1, re) = choose|b1: ConstraintSet, re: Result<(), Error>|
            #[trigger] witness((b1, re)) && Self::each_computes(a, froms, fuel, b1, re)
                && match re {
                Err(x) => b == b1 && r == Err::<(), Error>(x),
                Ok(_) => if b1.modules.column_at(id as int).values() is Some {
                    b == b1 && r == Err::<(), Error>(Error::CircularDefinition)
                } else {
                    match rows_error(b1.modules, froms, 0) {
                        Some(e) => b == b1 && r == Err::<(), Error>(e),
                        None => if !crate::rows::same_lengths(rows_of_each(b1.modules, froms)) {
                            b == b1 && r == Err::<(), Error>(Error::IncoherentLengths)
                        } else if froms.len() * crate::rows::common_length(
                            rows_of_each(b1.modules, froms),
                        ) > usize::MAX {
                            b == b1 && r == Err::<(), Error>(Error::TooLong)
                        } else {
                            r is Ok && Self::stored(b1, b, id) && interleaves(
                                b.modules,
                                froms,
                                target,
                            )
                        },
                    }
                },
            };
        Self::lemma_all_filled(a, froms, fuel, b1, re);
        lemma_rows_known(a.modules, froms, 0);
        assert(rows_of_each(b.modules, froms) =~= rows_of_each(a.modules, froms)) by {
            assert forall|k: int| 0 <= k < froms.len() implies rows_of_handle(
                b.modules,
                froms[k],
            ) == rows_of_handle(a.modules, froms[k]) by {
                assert(filled(a.modules, froms[k]));
                a.modules.lemma_ids_in_range(froms[k].module, froms[k].name);
            }
        }
        let cols = rows_of_each(a.modules, froms);
        let l = crate::rows::common_length(cols);
        assert(crate::rows::interleaved(cols, l).len() == l * cols.len());
        assert(l * cols.len() == froms.len() * l) by (nonlinear_arith)
            requires
                cols.len() == froms.len(),
        ;
        assert(b.modules.spec_id(target.module, target.name) == Some(id));
    }

    /// What filling the first `k` of the columns `tos`, which are to be
    /// filled, leaves as it was, and what the columns then hold.
    pub proof fn lemma_targets_stored(
        start: ColumnSet,
        b1: ConstraintSet,
        cols: Seq<Seq<nat>>,
        tos: Seq<HandleView>,
        perm: Seq<usize>,
        spilling: nat,
        k: int,
        bk: ConstraintSet,
    )
        requires
            0 <= k <= tos.len(),
            b1.modules.spec_len() == start.spec_len(),
            forall|m: Seq<char>, n: Seq<char>| b1.modules.spec_id(m, n) == start.spec_id(m, n),
            to_be_filled(start, tos),
            Self::targets_stored(start, b1, cols, tos, perm, spilling, k, bk),
        ensures
            bk.modules.spec_len() == start.spec_len(),
            forall|m: Seq<char>, n: Seq<char>| bk.modules.spec_id(m, n) == start.spec_id(m, n),
            forall|j: int|
                0 <= j < k ==> holds_permuted(bk.modules, #[trigger] tos[j], cols[j], perm),
            forall|i: int|
                0 <= i < start.spec_len() && (forall|j: int|
                    0 <= j < k ==> start.spec_id(tos[j].module, tos[j].name)->0 != i)
                    ==> #[trigger] bk.modules.column_at(i) == b1.modules.column_at(i),
        decreases k,
    {
        if k > 0 {
            let bp = choose|bp: ConstraintSet|
                #[trigger] witness(bp) && Self::targets_stored(
                    start,
                    b1,
                    cols,
                    tos,
                    perm,
                    spilling,
                    k - 1,
                    bp,
                ) && if filled(start, tos[k - 1]) {
                    bk == bp
                } else {
                    &&& start.spec_id(tos[k - 1].module, tos[k - 1].name) matches Some(id)
                    &&& Self::stored(bp, bk, id)
                    &&& bk.modules.column_at(id as int).spilling_of() == spilling
                    &&& holds_permuted(bk.modules, tos[k - 1], cols[k - 1], perm)
                };
            Self::lemma_targets_stored(start, b1, cols, tos, perm, spilling, k - 1, bp);
            assert(start.spec_id(tos[k - 1].module, tos[k - 1].name) is Some);
            let id = start.spec_id(tos[k - 1].module, tos[k - 1].name)->0;
            start.lemma_ids_in_range(tos[k - 1].module, tos[k - 1].name);
            assert forall|j: int| 0 <= j < k implies holds_permuted(
                bk.modules,
                #[trigger] tos[j],
                cols[j],
                perm,
            ) by {
                if j < k - 1 {
                    assert(holds_permuted(bp.modules, tos[j], cols[j], perm));
                    assert(start.spec_id(tos[j].module, tos[j].name) is Some);
                    let other = start.spec_id(tos[j].module, tos[j].name)->0;
                    start.lemma_ids_in_range(tos[j].module, tos[j].name);
                    assert(other != id);
                    assert(bk.modules.column_at(other as int) == bp.modules.column_at(other as int));
                }
            }
            assert forall|i: int|
                0 <= i < start.spec_len() && (forall|j: int|
                    0 <= j < k ==> start.spec_id(tos[j].module, tos[j].name)->0
                        != i) implies #[trigger] bk.modules.column_at(i) == b1.modules.column_at(
                i,
            ) by {
                assert(start.spec_id(tos[k - 1].module, tos[k - 1].name)->0 != i);
                assert(i != id);
                assert(bk.modules.column_at(i) == bp.modules.column_at(i));
                assert forall|j: int| 0 <= j < k - 1 implies start.spec_id(
                    tos[j].module,
                    tos[j].name,
                )->0 != i by {}
            }
        }
    }

    /// The sorted permutation. Sorting columns that have been filled, hold
    /// as many values and have as many rows, into as many columns that are
    /// to be filled, succeeds. One order of the rows then serves all the
    /// columns: each holds the rows of its source in that order, so the
    /// same values as often; and no row of the columns that were filled
    /// comes before a lesser one, the columns being compared from the first
    /// on.
    pub proof fn lemma_sorted_permutation(
        a: ConstraintSet,
        froms: Seq<HandleView>,
        tos: Seq<HandleView>,
        fuel: nat,
        b: ConstraintSet,
        r: Result<(), Error>,
    )
        requires
            Self::sorted_computes(a, froms, tos, fuel, b, r),
            froms.len() >= 1,
            froms.len() == tos.len(),
            all_filled(a.modules, froms),
            same_padded(a.modules, froms),
            crate::rows::same_lengths(rows_of_each(a.modules, froms)),
            rows_of_handle(a.modules, froms[0]).len() <= usize::MAX,
            to_be_filled(a.modules, tos),
        ensures
            r is Ok,
            exists|perm: Seq<usize>| #[trigger]
                sorts(
                    perm,
                    rows_of_each(a.modules, froms),
                    rows_of_handle(a.modules, froms[0]).len(),
                ) && forall|k: int|
                    0 <= k < tos.len() ==> rows_of_handle(b.modules, #[trigger] tos[k])
                        == crate::rows::permuted(rows_of_handle(a.modules, froms[k]), perm),
            forall|k: int|
                0 <= k < tos.len() ==> rows_of_handle(b.modules, #[trigger] tos[k]).to_multiset()
                    == rows_of_handle(a.modules, froms[k]).to_multiset(),
            forall|i: int, j: int|
                0 <= i < j < rows_of_handle(a.modules, froms[0]).len() ==> crate::rows::row_order(
                    rows_of_each(b.modules, tos),
                    0,
                    i,
                    j,
                ) != crate::rows::Order::Greater,
    {
        let n = rows_of_handle(a.modules, froms[0]).len();
        let before = rows_of_each(a.modules, froms);
        assert(!unknown_among(a.modules, tos));
        let (a1, b1, re) = choose|a1: ConstraintSet, b1: ConstraintSet, re: Result<(), Error>|
            #[trigger] witness((a1, b1, re)) && Self::spills(a, a1, froms[0].module)
                && Self::each_computes(a1, froms, fuel, b1, re) && match re {
                Err(x) => b == b1 && r == Err::<(), Error>(x),
                Ok(_) => match rows_error(b1.modules, froms, 0) {
                    Some(e) => b == b1 && r == Err::<(), Error>(e),
                    None => if !same_padded(b1.modules, froms) || !readable(b1.modules, froms) {
                        b == b1 && r == Err::<(), Error>(Error::IncoherentLengths)
                    } else {
                        exists|perm: Seq<usize>, k: int|
                            #[trigger] witness((perm, k)) && sorts(
                                perm,
                                sorted_rows(b1.modules, froms),
                                rows_of_handle(b1.modules, froms[0]).len(),
                            ) && 0 <= k <= tos.len() && Self::targets_stored(
                                a.modules,
                                b1,
                                sorted_rows(b1.modules, froms),
                                tos,
                                perm,
                                a1.spilling.lookup(froms[0].module)->0 as nat,
                                k,
                                b,
                            ) && if k == tos.len() {
                                r is Ok
                            } else {
                                r == Err::<(), Error>(Error::CircularDefinition) && !filled(
                                    a.modules,
                                    tos[k],
                                ) && filled(b.modules, tos[k])
                            }
                    },
                },
            };
        Self::lemma_all_filled(a1, froms, fuel, b1, re);
        lemma_rows_known(a.modules, froms, 0);
        assert forall|k: int| 0 <= k < froms.len() implies (#[trigger] rows_of_handle(
            a.modules,
            froms[k],
        )).len() == n by {
            assert(before[k].len() == before[0].len());
        }
        assert(readable(a.modules, froms));
        assert(sorted_rows(a.modules, froms) =~= before) by {
            assert forall|k: int| 0 <= k < froms.len() implies sorted_rows(a.modules, froms)[k]
                == before[k] by {
                assert(rows_of_handle(a.modules, froms[k]).len() == n);
                assert(rows_of_handle(a.modules, froms[k]).take(n as int) =~= rows_of_handle(
                    a.modules,
                    froms[k],
                ));
            }
        }
        let (perm, k) = choose|perm: Seq<usize>, k: int|
            #[trigger] witness((perm, k)) && sorts(perm, before, n) && 0 <= k <= tos.len()
                && Self::targets_stored(
                a.modules,
                b1,
                before,
                tos,
                perm,
                a1.spilling.lookup(froms[0].module)->0 as nat,
                k,
                b,
            ) && if k == tos.len() {
                r is Ok
            } else {
                r == Err::<(), Error>(Error::CircularDefinition) && !filled(a.modules, tos[k])
                    && filled(b.modules, tos[k])
            };
        Self::lemma_targets_stored(
            a.modules,
            b1,
            before,
            tos,
            perm,
            a1.spilling.lookup(froms[0].module)->0 as nat,
            k,
            b,
        );
        if k < tos.len() {
            assert(a.modules.spec_id(tos[k].module, tos[k].name) is Some);
            let id = a.modules.spec_id(tos[k].module, tos[k].name)->0;
            a.modules.lemma_ids_in_range(tos[k].module, tos[k].name);
            assert(b.modules.column_at(id as int) == a.modules.column_at(id as int));
        }
        let sorted = rows_of_each(b.modules, tos);
        assert forall|c: int| 0 <= c < tos.len() implies rows_of_handle(
            b.modules,
            #[trigger] tos[c],
        ) == crate::rows::permuted(rows_of_handle(a.modules, froms[c]), perm)
            && rows_of_handle(b.modules, tos[c]).to_multiset() == rows_of_handle(
            a.modules,
            froms[c],
        ).to_multiset() by {
            assert(holds_permuted(b.modules, tos[c], before[c], perm));
            assert(before[c] == rows_of_handle(a.modules, froms[c]));
            assert(before[c].len() == n);
            crate::rows::lemma_permuted_is_permutation(before[c], perm);
        }
        assert forall|c: int| 0 <= c < before.len() implies #[trigger] sorted[c]
            == crate::rows::permuted(before[c], perm) by {
            assert(rows_of_handle(b.modules, tos[c]) == crate::rows::permuted(
                rows_of_handle(a.modules, froms[c]),
                perm,
            ));
        }
        assert forall|i: int, j: int| 0 <= i < j < n implies crate::rows::row_order(
            sorted,
            0,
            i,
            j,
        ) != crate::rows::Order::Greater by {
            lemma_permuted_order(before, sorted, perm, 0, i, j);
            assert(crate::rows::row_order(before, 0, perm[i] as int, perm[j] as int)
                != crate::rows::Order::Greater);
        }
        assert(sorts(perm, before, n));
    }

    /// The length of an interleaving, whenever it succeeds. Once a column
    /// has been filled by interleaving, the columns that were interleaved
    /// have as many rows, and the column holds as many rows as all of them
    /// together, and nothing before row zero.
    pub proof fn lemma_interleaving_length(
        a: ConstraintSet,
        froms: Seq<HandleView>,
        target: HandleView,
        fuel: nat,
        b: ConstraintSet,
        r: Result<(), Error>,
    )
        requires
            Self::interleaved_computes(a, froms, target, fuel, b, r),
            r is Ok,
            !filled(a.modules, target),
        ensures
            crate::rows::same_lengths(rows_of_each(b.modules, froms)),
            b.modules.spec_id(target.module, target.name) matches Some(t) && b.modules.column_at(
                t as int,
            ).spilling_of() == 0 && (b.modules.column_at(t as int).values() matches Some(v)
                && v.len() == froms.len() * crate::rows::common_length(
                rows_of_each(b.modules, froms),
            )),
    {
        assert(interleaves(b.modules, froms, target));
        let cols = rows_of_each(b.modules, froms);
        let l = crate::rows::common_length(cols);
        assert(crate::rows::interleaved(cols, l).len() == l * cols.len());
        assert(l * cols.len() == froms.len() * l) by (nonlinear_arith)
            requires
                cols.len() == froms.len(),
        ;
    }

    /// The sorted permutation, whenever a sort succeeds. Once columns that
    /// were to be filled have been filled by a sort, one order of the rows
    /// serves them all: each holds the rows of its source, as many as the
    /// first source has, in that order, so the same values as often; and
    /// no row of the columns that were filled comes before a lesser one,
    /// the columns being compared from the first on.
    pub proof fn lemma_sort_permutes(
        a: ConstraintSet,
        froms: Seq<HandleView>,
        tos: Seq<HandleView>,
        fuel: nat,
        b: ConstraintSet,
        r: Result<(), Error>,
    )
        requires
            Self::sorted_computes(a, froms, tos, fuel, b, r),
            r is Ok,
            to_be_filled(a.modules, tos),
            rows_of_handle(b.modules, froms[0]).len() <= usize::MAX,
        ensures
            froms.len() >= 1,
            froms.len() == tos.len(),
            exists|perm: Seq<usize>| #[trigger]
                sorts(
                    perm,
                    sorted_rows(b.modules, froms),
                    rows_of_handle(b.modules, froms[0]).len(),
                ) && forall|k: int|
                    0 <= k < tos.len() ==> rows_of_handle(b.modules, #[trigger] tos[k])
                        == crate::rows::permuted(sorted_rows(b.modules, froms)[k], perm),
            forall|k: int|
                0 <= k < tos.len() ==> rows_of_handle(b.modules, #[trigger] tos[k]).to_multiset()
                    == sorted_rows(b.modules, froms)[k].to_multiset(),
            forall|i: int, j: int|
                0 <= i < j < rows_of_handle(b.modules, froms[0]).len() ==> crate::rows::row_order(
                    rows_of_each(b.modules, tos),
                    0,
                    i,
                    j,
                ) != crate::rows::Order::Greater,
    {
        let g1 = a;
        let q1 = b;
        let r1 = r;
        let (s1, m1, e1) = choose|a1: ConstraintSet, b1: ConstraintSet, re: Result<(), Error>|
                #[trigger] witness((a1, b1, re)) && Self::spills(g1, a1, froms[0].module)
                    && Self::each_computes(a1, froms, fuel, b1, re) && match re {
                    Err(x) => q1 == b1 && r1 == Err::<(), Error>(x),
                    Ok(_) => match rows_error(b1.modules, froms, 0) {
                        Some(e) => q1 == b1 && r1 == Err::<(), Error>(e),
                        None => if !same_padded(b1.modules, froms) || !readable(b1.modules, froms) {
                            q1 == b1 && r1 == Err::<(), Error>(Error::IncoherentLengths)
                        } else {
                            exists|perm: Seq<usize>, k: int|
                                #[trigger] witness((perm, k)) && sorts(
                                    perm,
                                    sorted_rows(b1.modules, froms),
                                    rows_of_handle(b1.modules, froms[0]).len(),
                                ) && 0 <= k <= tos.len() && Self::targets_stored(
                                    g1.modules,
                                    b1,
                                    sorted_rows(b1.modules, froms),
                                    tos,
                                    perm,
                                    a1.spilling.lookup(froms[0].module)->0 as nat,
                                    k,
                                    q1,
                                ) && if k == tos.len() {
                                    r1 is Ok
                                } else {
                                    r1 == Err::<(), Error>(Error::CircularDefinition) && !filled(
                                        g1.modules,
                                        tos[k],
                                    ) && filled(q1.modules, tos[k])
                                }
                        },
                    },
                };
        let cols = sorted_rows(m1.modules, froms);
        let sp = s1.spilling.lookup(froms[0].module)->0 as nat;
        let (perm, k) = choose|perm: Seq<usize>, k: int|
                                #[trigger] witness((perm, k)) && sorts(
                                    perm,
                                    sorted_rows(m1.modules, froms),
                                    rows_of_handle(m1.modules, froms[0]).len(),
                                ) && 0 <= k <= tos.len() && Self::targets_stored(
                                    g1.modules,
                                    m1,
                                    sorted_rows(m1.modules, froms),
                                    tos,
                                    perm,
                                    s1.spilling.lookup(froms[0].module)->0 as nat,
                                    k,
                                    q1,
                                ) && if k == tos.len() {
                                    r1 is Ok
                                } else {
                                    r1 == Err::<(), Error>(Error::CircularDefinition) && !filled(
                                        g1.modules,
                                        tos[k],
                                    ) && filled(q1.modules, tos[k])
                                };
        let len = tos.len() as int;
        Self::lemma_targets_stored(a.modules, m1, cols, tos, perm, sp, len, b);
        assert forall|c: int| 0 <= c < froms.len() implies rows_of_handle(
            b.modules,
            #[trigger] froms[c],
        ) == rows_of_handle(m1.modules, froms[c]) by {
            lemma_rows_filled(m1.modules, froms, 0, c);
            let x = m1.modules.spec_id(froms[c].module, froms[c].name)->0;
            m1.modules.lemma_ids_in_range(froms[c].module, froms[c].name);
            assert forall|j: int| 0 <= j < len implies a.modules.spec_id(
                tos[j].module,
                tos[j].name,
            )->0 != x by {
                Self::lemma_targets_prefix(a.modules, m1, cols, tos, perm, sp, len, j, b);
                let (bj, nx) = choose|bj: ConstraintSet, nx: ConstraintSet|
                    #[trigger] witness((bj, nx)) && Self::targets_stored(
                        a.modules,
                        m1,
                        cols,
                        tos,
                        perm,
                        sp,
                        j,
                        bj,
                    ) && (!filled(a.modules, tos[j]) ==> bj.modules.column_at(
                        a.modules.spec_id(tos[j].module, tos[j].name)->0 as int,
                    ).values() is None && a.modules.spec_id(tos[j].module, tos[j].name) is Some);
                Self::lemma_targets_stored(a.modules, m1, cols, tos, perm, sp, j, bj);
                let y = a.modules.spec_id(tos[j].module, tos[j].name)->0;
                a.modules.lemma_ids_in_range(tos[j].module, tos[j].name);
                assert(bj.modules.column_at(y as int) == m1.modules.column_at(y as int));
            }
            assert(b.modules.column_at(x as int) == m1.modules.column_at(x as int));
        }
        let n = rows_of_handle(b.modules, froms[0]).len();
        assert(sorted_rows(b.modules, froms) =~= cols);
        let sorted = rows_of_each(b.modules, tos);
        assert forall|c: int| 0 <= c < tos.len() implies rows_of_handle(
            b.modules,
            #[trigger] tos[c],
        ) == crate::rows::permuted(cols[c], perm) && rows_of_handle(
            b.modules,
            tos[c],
        ).to_multiset() == cols[c].to_multiset() by {
            assert(holds_permuted(b.modules, tos[c], cols[c], perm));
            lemma_rows_filled(m1.modules, froms, 0, c);
            assert(rows_of_handle(m1.modules, froms[c]).len() >= n);
            assert(cols[c].len() == n);
            crate::rows::lemma_permuted_is_permutation(cols[c], perm);
        }
        assert forall|c: int| 0 <= c < cols.len() implies #[trigger] sorted[c]
            == crate::rows::permuted(cols[c], perm) by {
            assert(rows_of_handle(b.modules, tos[c]) == crate::rows::permuted(cols[c], perm));
        }
        assert forall|i: int, j: int| 0 <= i < j < n implies crate::rows::row_order(
            sorted,
            0,
            i,
            j,
        ) != crate::rows::Order::Greater by {
            lemma_permuted_order(cols, sorted, perm, 0, i, j);
            assert(crate::rows::row_order(cols, 0, perm[i] as int, perm[j] as int)
                != crate::rows::Order::Greater);
        }
        assert(sorts(perm, cols, n));
    }
}

/// Whether the columns of two sets hold the same values, with as many
/// before row zero.
pub open spec fn same_values(c1: ColumnSet, c2: ColumnSet) -> bool {
    &&& c1.spec_len() == c2.spec_len()
    &&& forall|m: Seq<char>, n: Seq<char>| c1.spec_id(m, n) == c2.spec_id(m, n)
    &&& forall|i: int|
        0 <= i < c1.spec_len() ==> (#[trigger] c1.column_at(i)).values() == c2.column_at(
            i,
        ).values() && c1.column_at(i).spilling_of() == c2.column_at(i).spilling_of()
}

/// Whether the columns of two sets hold the same values, with as many
/// before row zero, but perhaps for the column of index `t`.
pub open spec fn same_values_but(c1: ColumnSet, c2: ColumnSet, t: usize) -> bool {
    &&& c1.spec_len() == c2.spec_len()
    &&& forall|m: Seq<char>, n: Seq<char>| c1.spec_id(m, n) == c2.spec_id(m, n)
    &&& forall|i: int|
        0 <= i < c1.spec_len() && i != t ==> (#[trigger] c1.column_at(i)).values()
            == c2.column_at(i).values() && c1.column_at(i).spilling_of() == c2.column_at(
            i,
        ).spilling_of()
}

/// The longest of the columns that are read is one length.
pub proof fn lemma_covers_once(cs: ColumnSet, hs: Seq<HandleView>, l1: nat, l2: nat)
    requires
        covers(cs, hs, l1),
        covers(cs, hs, l2),
    ensures
        l1 == l2,
{
    if l1 > 0 {
        let j = choose|j: int| 0 <= j < hs.len() && #[trigger] length_of(cs, hs[j]) == Some(l1);
        assert(length_of(cs, hs[j]) matches Some(x) && x <= l2);
    }
    if l2 > 0 {
        let j = choose|j: int| 0 <= j < hs.len() && #[trigger] length_of(cs, hs[j]) == Some(l2);
        assert(length_of(cs, hs[j]) matches Some(x) && x <= l1);
    }
}

/// Evaluator determinism. What a column that is filled from an expression
/// holds depends on the expression, on the spilling and on what the other
/// columns hold, and on nothing else: in two sets of columns that hold the
/// same values but for that column, and have it filled from the same
/// expression, it holds the same values.
pub proof fn lemma_evaluation_is_determined(
    c1: ColumnSet,
    c2: ColumnSet,
    exp: NodeView,
    target: HandleView,
    spilling: nat,
)
    requires
        evaluates(c1, exp, target, spilling),
        evaluates(c2, exp, target, spilling),
        c1.spec_id(target.module, target.name) matches Some(t) && same_values_but(c1, c2, t),
        forall|j: int|
            0 <= j < crate::compiler::node::leaves(exp).len() ==> length_of(
                c1,
                #[trigger] crate::compiler::node::leaves(exp)[j],
            ) == length_of(c2, crate::compiler::node::leaves(exp)[j]),
    ensures
        same_values(c1, c2),
{
    let t = c1.spec_id(target.module, target.name)->0;
    c1.lemma_ids_in_range(target.module, target.name);
    let v1 = c1.column_at(t as int).values()->0;
    let v2 = c2.column_at(t as int).values()->0;
    let hs = crate::compiler::node::leaves(exp);
    assert(covers(c2, hs, (v1.len() - spilling) as nat)) by {
        assert forall|j: int| 0 <= j < hs.len() implies ((#[trigger] length_of(c2, hs[j]))
            matches Some(x) && x <= (v1.len() - spilling) as nat) by {
            assert(length_of(c1, hs[j]) == length_of(c2, hs[j]));
        }
        if v1.len() - spilling > 0 {
            let j = choose|j: int|
                0 <= j < hs.len() && #[trigger] length_of(c1, hs[j]) == Some(
                    (v1.len() - spilling) as nat,
                );
            assert(length_of(c2, hs[j]) == Some((v1.len() - spilling) as nat));
        }
    }
    lemma_covers_once(c2, hs, (v1.len() - spilling) as nat, (v2.len() - spilling) as nat);
    let s1 = Without { cs: &c1, hidden: t };
    let s2 = Without { cs: &c2, hidden: t };
    assert(crate::compiler::eval::same_reads(&s1, &s2)) by {
        assert forall|h: HandleView, i: int, wrap: bool| #[trigger]
            s1.read(h, i, wrap) == s2.read(h, i, wrap) by {
            match h.id {
                Some(x) => {
                    if x != t && x < c1.spec_len() {
                        assert(c1.column_at(x as int).values() == c2.column_at(x as int).values());
                    }
                },
                None => {},
            }
        }
    }
    assert(v1 =~= v2) by {
        assert forall|k: int| 0 <= k < v1.len() implies v1[k] == v2[k] by {
            crate::compiler::eval::lemma_eval_same_reads(exp, k - spilling, &s1, &s2, false);
        }
    }
}

/// What a column that is filled by interleaving holds depends on what the
/// interleaved columns hold, and on nothing else.
pub proof fn lemma_interleaving_is_determined(
    c1: ColumnSet,
    c2: ColumnSet,
    froms: Seq<HandleView>,
    target: HandleView,
)
    requires
        interleaves(c1, froms, target),
        interleaves(c2, froms, target),
        c1.spec_id(target.module, target.name) matches Some(t) && same_values_but(c1, c2, t),
        forall|j: int|
            0 <= j < froms.len() ==> c1.spec_id((#[trigger] froms[j]).module, froms[j].name)
                != c1.spec_id(target.module, target.name),
    ensures
        same_values(c1, c2),
{
    assert(rows_of_each(c1, froms) =~= rows_of_each(c2, froms)) by {
        assert forall|j: int| 0 <= j < froms.len() implies rows_of_handle(c1, froms[j])
            == rows_of_handle(c2, froms[j]) by {
            c1.lemma_ids_in_range(froms[j].module, froms[j].name);
            assert(c1.spec_id(froms[j].module, froms[j].name) != c1.spec_id(
                target.module,
                target.name,
            ));
        }
    }
    c1.lemma_ids_in_range(target.module, target.name);
}

/// What a column that is filled by a sort holds depends on the rows that
/// are sorted and on how many values stand before row zero, and on nothing
/// else.
pub proof fn lemma_sorting_is_determined(
    c1: ColumnSet,
    c2: ColumnSet,
    cols: Seq<Seq<nat>>,
    k: int,
    target: HandleView,
    g1: Seq<usize>,
    g2: Seq<usize>,
    n: nat,
)
    requires
        0 <= k < cols.len(),
        sorts(g1, cols, n),
        sorts(g2, cols, n),
        holds_permuted(c1, target, cols[k], g1),
        holds_permuted(c2, target, cols[k], g2),
        c1.spec_id(target.module, target.name) matches Some(t) && same_values_but(c1, c2, t)
            && c1.column_at(t as int).spilling_of() == c2.column_at(t as int).spilling_of(),
    ensures
        g1 == g2,
        same_values(c1, c2),
{
    crate::rows::lemma_sorted_once(g1, g2, cols);
    let t = c1.spec_id(target.module, target.name)->0;
    c1.lemma_ids_in_range(target.module, target.name);
    let v1 = c1.column_at(t as int).values()->0;
    let v2 = c2.column_at(t as int).values()->0;
    let s = c1.column_at(t as int).spilling_of() as int;
    assert(v1.skip(s) == v2.skip(s));
    assert(v1 =~= v2) by {
        assert(v1.skip(s).len() == v2.skip(s).len());
        assert forall|a: int| 0 <= a < v1.len() implies v1[a] == v2[a] by {
            if a >= s {
                assert(v1.skip(s)[a - s] == v1[a]);
                assert(v2.skip(s)[a - s] == v2[a]);
            }
        }
    }
}

/// Whether two programs are alike: they have the same columns under the
/// same names, holding the same values, the same computations, and the
/// same spillings.
pub open spec fn alike(p: ConstraintSet, q: ConstraintSet) -> bool {
    &&& same_values(p.modules, q.modules)
    &&& p.computations == q.computations
    &&& forall|m: Seq<char>| p.spilling.lookup(m) == q.spilling.lookup(m)
}

/// Whether two results are the same: both are a success, or both the same
/// error.
pub open spec fn agree(r1: Result<(), Error>, r2: Result<(), Error>) -> bool {
    match r1 {
        Ok(_) => r2 is Ok,
        Err(x) => r2 == Err::<(), Error>(x),
    }
}

/// In sets of columns that hold the same values, a name stands for the
/// same rows.
pub proof fn lemma_alike_column(c1: ColumnSet, c2: ColumnSet, h: HandleView)
    requires
        same_values(c1, c2),
    ensures
        filled(c1, h) == filled(c2, h),
        length_of(c1, h) == length_of(c2, h),
        rows_of_handle(c1, h) == rows_of_handle(c2, h),
        stored_length(c1, h) == stored_length(c2, h),
{
    c1.lemma_ids_in_range(h.module, h.name);
}

/// In sets of columns that hold the same values, reading columns meets the
/// same error.
pub proof fn lemma_alike_rows_error(c1: ColumnSet, c2: ColumnSet, hs: Seq<HandleView>, k: int)
    requires
        same_values(c1, c2),
    ensures
        rows_error(c1, hs, k) == rows_error(c2, hs, k),
    decreases hs.len() - k,
{
    if 0 <= k < hs.len() {
        c1.lemma_ids_in_range(hs[k].module, hs[k].name);
        lemma_alike_rows_error(c1, c2, hs, k + 1);
    }
}

/// In sets of columns that hold the same values, the same columns are as
/// long.
pub proof fn lemma_alike_covers(c1: ColumnSet, c2: ColumnSet, hs: Seq<HandleView>, l: nat)
    requires
        same_values(c1, c2),
        covers(c1, hs, l),
    ensures
        covers(c2, hs, l),
{
    assert forall|j: int| 0 <= j < hs.len() implies ((#[trigger] length_of(c2, hs[j]))
        matches Some(x) && x <= l) by {
        lemma_alike_column(c1, c2, hs[j]);
        assert(length_of(c1, hs[j]) matches Some(x) && x <= l);
    }
    if l > 0 {
        let j = choose|j: int| 0 <= j < hs.len() && #[trigger] length_of(c1, hs[j]) == Some(l);
        lemma_alike_column(c1, c2, hs[j]);
        assert(length_of(c2, hs[j]) == Some(l));
    }
}

/// In sets of columns that hold the same values, lists of names stand for
/// the same rows.
pub proof fn lemma_alike_lists(c1: ColumnSet, c2: ColumnSet, hs: Seq<HandleView>)
    requires
        same_values(c1, c2),
    ensures
        rows_of_each(c1, hs) == rows_of_each(c2, hs),
        sorted_rows(c1, hs) == sorted_rows(c2, hs),
        same_padded(c1, hs) == same_padded(c2, hs),
        readable(c1, hs) == readable(c2, hs),
        unknown_among(c1, hs) == unknown_among(c2, hs),
{
    assert forall|j: int| 0 <= j < hs.len() implies rows_of_handle(c1, #[trigger] hs[j])
        == rows_of_handle(c2, hs[j]) && stored_length(c1, hs[j]) == stored_length(c2, hs[j])
        && c1.spec_id(hs[j].module, hs[j].name) == c2.spec_id(hs[j].module, hs[j].name) by {
        lemma_alike_column(c1, c2, hs[j]);
    }
    if hs.len() > 0 {
        lemma_alike_column(c1, c2, hs[0]);
    }
    assert(rows_of_each(c1, hs) =~= rows_of_each(c2, hs));
    assert(sorted_rows(c1, hs) =~= sorted_rows(c2, hs));
    if same_padded(c1, hs) {
        assert forall|k: int| 0 <= k < hs.len() implies (#[trigger] stored_length(c2, hs[k]))
            == stored_length(c2, hs[0]) by {
            assert(stored_length(c1, hs[k]) == stored_length(c1, hs[0]));
            assert(hs[k] == hs[k]);
        }
    }
    if same_padded(c2, hs) {
        assert forall|k: int| 0 <= k < hs.len() implies (#[trigger] stored_length(c1, hs[k]))
            == stored_length(c1, hs[0]) by {
            assert(stored_length(c2, hs[k]) == stored_length(c2, hs[0]));
            assert(hs[k] == hs[k]);
        }
    }
    if readable(c1, hs) {
        assert forall|k: int| 0 <= k < hs.len() implies (#[trigger] rows_of_handle(
            c2,
            hs[k],
        )).len() >= rows_of_handle(c2, hs[0]).len() by {
            assert(rows_of_handle(c1, hs[k]).len() >= rows_of_handle(c1, hs[0]).len());
            assert(hs[k] == hs[k]);
        }
    }
    if readable(c2, hs) {
        assert forall|k: int| 0 <= k < hs.len() implies (#[trigger] rows_of_handle(
            c1,
            hs[k],
        )).len() >= rows_of_handle(c1, hs[0]).len() by {
            assert(rows_of_handle(c2, hs[k]).len() >= rows_of_handle(c2, hs[0]).len());
            assert(hs[k] == hs[k]);
        }
    }
    if unknown_among(c1, hs) {
        let k = choose|k: int|
            0 <= k < hs.len() && (#[trigger] c1.spec_id(hs[k].module, hs[k].name)) is None;
        assert(c2.spec_id(hs[k].module, hs[k].name) is None);
    }
    if unknown_among(c2, hs) {
        let k = choose|k: int|
            0 <= k < hs.len() && (#[trigger] c2.spec_id(hs[k].module, hs[k].name)) is None;
        assert(c1.spec_id(hs[k].module, hs[k].name) is None);
    }
}

/// Columns that can all be read have all been filled.
pub proof fn lemma_rows_filled(cs: ColumnSet, hs: Seq<HandleView>, k: int, j: int)
    requires
        0 <= k <= j < hs.len(),
        rows_error(cs, hs, k) is None,
    ensures
        filled(cs, hs[j]),
    decreases hs.len() - k,
{
    if k < j {
        lemma_rows_filled(cs, hs, k + 1, j);
    }
}

impl ConstraintSet {
    /// Filling the first columns of a list goes through filling each of
    /// them.
    pub proof fn lemma_each_prefix(
        p: ConstraintSet,
        hs: Seq<HandleView>,
        n: int,
        j: int,
        fuel: nat,
        q: ConstraintSet,
    )
        requires
            0 <= j < n,
            Self::each_computed(p, hs, n, fuel, q),
        ensures
            exists|bj: ConstraintSet, u: Result<(), Error>, nx: ConstraintSet|
                #[trigger] witness((bj, u, nx)) && u is Ok && Self::each_computed(
                    p,
                    hs,
                    j,
                    fuel,
                    bj,
                ) && Self::column_computes(bj, hs[j], fuel, nx, u),
        decreases n,
    {
        let k = n;
        let q1 = q;
        let g1 = p;
        let (bp, u) = choose|bp: ConstraintSet, u: Result<(), Error>|
                #[trigger] witness((bp, u)) && u is Ok && Self::each_computed(
                    g1,
                    hs,
                    k - 1,
                    fuel,
                    bp,
                ) && Self::column_computes(bp, hs[k - 1], fuel, q1, u);
        if j == n - 1 {
            assert(witness((bp, u, q)));
        } else {
            Self::lemma_each_prefix(p, hs, n - 1, j, fuel, bp);
        }
    }

    /// Filling a column gives one outcome.
    pub proof fn lemma_column_fixed(
        g1: ConstraintSet,
        g2: ConstraintSet,
        target: HandleView,
        fuel: nat,
        q1: ConstraintSet,
        r1: Result<(), Error>,
        q2: ConstraintSet,
        r2: Result<(), Error>,
    )
        requires
            alike(g1, g2),
            Self::column_computes(g1, target, fuel, q1, r1),
            Self::column_computes(g2, target, fuel, q2, r2),
        ensures
            alike(q1, q2),
            agree(r1, r2),
        decreases fuel, 0nat, 0int,
    {
        lemma_alike_column(g1.modules, g2.modules, target);
        g1.modules.lemma_ids_in_range(target.module, target.name);
        if g1.modules.spec_id(target.module, target.name) is Some && !filled(g1.modules, target) {
            match g1.computations.index_for(target.module, target.name) {
                None => {},
                Some(i) => {
                    if fuel > 0 {
                        let w1 = choose|rw: Result<(), Error>|
                            #[trigger] witness(rw) && Self::computes_with(
                                g1,
                                i as int,
                                (fuel - 1) as nat,
                                q1,
                                rw,
                            ) && r1 == match rw {
                            Err(x) => Err::<(), Error>(x),
                            Ok(_) => if filled(q1.modules, target) {
                                Ok::<(), Error>(())
                            } else {
                                Err::<(), Error>(Error::ComputationMissing)
                            },
                        };
                        let w2 = choose|rw: Result<(), Error>|
                            #[trigger] witness(rw) && Self::computes_with(
                                g2,
                                i as int,
                                (fuel - 1) as nat,
                                q2,
                                rw,
                            ) && r2 == match rw {
                            Err(x) => Err::<(), Error>(x),
                            Ok(_) => if filled(q2.modules, target) {
                                Ok::<(), Error>(())
                            } else {
                                Err::<(), Error>(Error::ComputationMissing)
                            },
                        };
                        Self::lemma_with_fixed(g1, g2, i as int, (fuel - 1) as nat, q1, w1, q2, w2);
                        lemma_alike_column(q1.modules, q2.modules, target);
                    }
                },
            }
        }
    }

    /// Filling the first columns of a list gives one outcome.
    pub proof fn lemma_each_fixed_upto(
        g1: ConstraintSet,
        g2: ConstraintSet,
        hs: Seq<HandleView>,
        k: int,
        fuel: nat,
        q1: ConstraintSet,
        q2: ConstraintSet,
    )
        requires
            0 <= k,
            alike(g1, g2),
            Self::each_computed(g1, hs, k, fuel, q1),
            Self::each_computed(g2, hs, k, fuel, q2),
        ensures
            alike(q1, q2),
        decreases fuel, 1nat, k,
    {
        if k > 0 {
            let (bp1, u1) = choose|bp: ConstraintSet, u: Result<(), Error>|
                #[trigger] witness((bp, u)) && u is Ok && Self::each_computed(
                    g1,
                    hs,
                    k - 1,
                    fuel,
                    bp,
                ) && Self::column_computes(bp, hs[k - 1], fuel, q1, u);
            let (bp2, u2) = choose|bp: ConstraintSet, u: Result<(), Error>|
                #[trigger] witness((bp, u)) && u is Ok && Self::each_computed(
                    g2,
                    hs,
                    k - 1,
                    fuel,
                    bp,
                ) && Self::column_computes(bp, hs[k - 1], fuel, q2, u);
            Self::lemma_each_fixed_upto(g1, g2, hs, k - 1, fuel, bp1, bp2);
            Self::lemma_column_fixed(bp1, bp2, hs[k - 1], fuel, q1, u1, q2, u2);
        }
    }

    /// Filling the columns of a list gives one outcome.
    pub proof fn lemma_each_fixed(
        g1: ConstraintSet,
        g2: ConstraintSet,
        hs: Seq<HandleView>,
        fuel: nat,
        q1: ConstraintSet,
        r1: Result<(), Error>,
        q2: ConstraintSet,
        r2: Result<(), Error>,
    )
        requires
            alike(g1, g2),
            Self::each_computes(g1, hs, fuel, q1, r1),
            Self::each_computes(g2, hs, fuel, q2, r2),
        ensures
            alike(q1, q2),
            agree(r1, r2),
        decreases fuel, 2nat, 0int,
    {
        let n = hs.len() as int;
        match (r1, r2) {
            (Ok(_), Ok(_)) => {
                Self::lemma_each_fixed_upto(g1, g2, hs, n, fuel, q1, q2);
            },
            (Err(x1), Err(x2)) => {
                let (k1, b1) = choose|k: int, bk: ConstraintSet|
                #[trigger] witness((k, bk)) && 0 <= k < hs.len() && Self::each_computed(
                    g1,
                    hs,
                    k,
                    fuel,
                    bk,
                ) && Self::column_computes(bk, hs[k], fuel, q1, Err::<(), Error>(x1));
                let (k2, b2) = choose|k: int, bk: ConstraintSet|
                #[trigger] witness((k, bk)) && 0 <= k < hs.len() && Self::each_computed(
                    g2,
                    hs,
                    k,
                    fuel,
                    bk,
                ) && Self::column_computes(bk, hs[k], fuel, q2, Err::<(), Error>(x2));
                if k1 == k2 {
                    Self::lemma_each_fixed_upto(g1, g2, hs, k1, fuel, b1, b2);
                    Self::lemma_column_fixed(b1, b2, hs[k1], fuel, q1, r1, q2, r2);
                } else if k1 < k2 {
                    Self::lemma_each_prefix(g2, hs, k2, k1, fuel, b2);
                    let (bj, u, nx) = choose|bj: ConstraintSet, u: Result<(), Error>, nx: ConstraintSet|
                        #[trigger] witness((bj, u, nx)) && u is Ok && Self::each_computed(
                            g2,
                            hs,
                            k1,
                            fuel,
                            bj,
                        ) && Self::column_computes(bj, hs[k1], fuel, nx, u);
                    Self::lemma_each_fixed_upto(g1, g2, hs, k1, fuel, b1, bj);
                    Self::lemma_column_fixed(b1, bj, hs[k1], fuel, q1, r1, nx, u);
                } else {
                    Self::lemma_each_prefix(g1, hs, k1, k2, fuel, b1);
                    let (bj, u, nx) = choose|bj: ConstraintSet, u: Result<(), Error>, nx: ConstraintSet|
                        #[trigger] witness((bj, u, nx)) && u is Ok && Self::each_computed(
                            g1,
                            hs,
                            k2,
                            fuel,
                            bj,
                        ) && Self::column_computes(bj, hs[k2], fuel, nx, u);
                    Self::lemma_each_fixed_upto(g1, g2, hs, k2, fuel, bj, b2);
                    Self::lemma_column_fixed(bj, b2, hs[k2], fuel, nx, u, q2, r2);
                }
            },
            (Ok(_), Err(x2)) => {
                let (k2, b2) = choose|k: int, bk: ConstraintSet|
                #[trigger] witness((k, bk)) && 0 <= k < hs.len() && Self::each_computed(
                    g2,
                    hs,
                    k,
                    fuel,
                    bk,
                ) && Self::column_computes(bk, hs[k], fuel, q2, Err::<(), Error>(x2));
                Self::lemma_each_prefix(g1, hs, n, k2, fuel, q1);
                let (bj, u, nx) = choose|bj: ConstraintSet, u: Result<(), Error>, nx: ConstraintSet|
                    #[trigger] witness((bj, u, nx)) && u is Ok && Self::each_computed(
                        g1,
                        hs,
                        k2,
                        fuel,
                        bj,
                    ) && Self::column_computes(bj, hs[k2], fuel, nx, u);
                Self::lemma_each_fixed_upto(g1, g2, hs, k2, fuel, bj, b2);
                Self::lemma_column_fixed(bj, b2, hs[k2], fuel, nx, u, q2, r2);
            },
            (Err(x1), Ok(_)) => {
                let (k1, b1) = choose|k: int, bk: ConstraintSet|
                #[trigger] witness((k, bk)) && 0 <= k < hs.len() && Self::each_computed(
                    g1,
                    hs,
                    k,
                    fuel,
                    bk,
                ) && Self::column_computes(bk, hs[k], fuel, q1, Err::<(), Error>(x1));
                Self::lemma_each_prefix(g2, hs, n, k1, fuel, q2);
                let (bj, u, nx) = choose|bj: ConstraintSet, u: Result<(), Error>, nx: ConstraintSet|
                    #[trigger] witness((bj, u, nx)) && u is Ok && Self::each_computed(
                        g2,
                        hs,
                        k1,
                        fuel,
                        bj,
                    ) && Self::column_computes(bj, hs[k1], fuel, nx, u);
                Self::lemma_each_fixed_upto(g1, g2, hs, k1, fuel, b1, bj);
                Self::lemma_column_fixed(b1, bj, hs[k1], fuel, q1, r1, nx, u);
            },
        }
    }

    /// Working out a spilling in programs that are alike leaves them
    /// alike.
    pub proof fn lemma_spills_alike(
        g1: ConstraintSet,
        g2: ConstraintSet,
        s1: ConstraintSet,
        s2: ConstraintSet,
        m: Seq<char>,
    )
        requires
            alike(g1, g2),
            Self::spills(g1, s1, m),
            Self::spills(g2, s2, m),
        ensures
            alike(s1, s2),
    {
        assert forall|k: Seq<char>| s1.spilling.lookup(k) == s2.spilling.lookup(k) by {
            assert(g1.spilling.lookup(k) == g2.spilling.lookup(k));
        }
    }

    /// Filling a column leaves programs that are alike alike, if the column
    /// then holds the same values in both.
    pub proof fn lemma_stored_alike(
        m1: ConstraintSet,
        m2: ConstraintSet,
        q1: ConstraintSet,
        q2: ConstraintSet,
        id: usize,
    )
        requires
            alike(m1, m2),
            Self::stored(m1, q1, id),
            Self::stored(m2, q2, id),
        ensures
            same_values_but(q1.modules, q2.modules, id),
            q1.computations == q2.computations,
            forall|m: Seq<char>| q1.spilling.lookup(m) == q2.spilling.lookup(m),
            same_values(q1.modules, q2.modules) ==> alike(q1, q2),
    {
        assert forall|m: Seq<char>| q1.spilling.lookup(m) == q2.spilling.lookup(m) by {
            assert(m1.spilling.lookup(m) == m2.spilling.lookup(m));
        }
        assert forall|i: int| 0 <= i < q1.modules.spec_len() && i != id implies (
        #[trigger] q1.modules.column_at(i)).values() == q2.modules.column_at(i).values()
            && q1.modules.column_at(i).spilling_of() == q2.modules.column_at(i).spilling_of() by {
            assert(q1.modules.column_at(i) == m1.modules.column_at(i));
            assert(q2.modules.column_at(i) == m2.modules.column_at(i));
            assert(m1.modules.column_at(i).values() == m2.modules.column_at(i).values());
        }
    }

    /// Filling a column from an expression gives one outcome.
    pub proof fn lemma_composite_fixed(
        g1: ConstraintSet,
        g2: ConstraintSet,
        exp: NodeView,
        target: HandleView,
        fuel: nat,
        q1: ConstraintSet,
        r1: Result<(), Error>,
        q2: ConstraintSet,
        r2: Result<(), Error>,
    )
        requires
            alike(g1, g2),
            Self::composite_computes(g1, exp, target, fuel, q1, r1),
            Self::composite_computes(g2, exp, target, fuel, q2, r2),
        ensures
            alike(q1, q2),
            agree(r1, r2),
        decreases fuel, 3nat, 0int,
    {
        lemma_alike_column(g1.modules, g2.modules, target);
        g1.modules.lemma_ids_in_range(target.module, target.name);
        if g1.modules.spec_id(target.module, target.name) is Some && !filled(g1.modules, target)
            && crate::compiler::node::evaluable(exp) {
            let id = g1.modules.spec_id(target.module, target.name)->0;
            let deps = crate::compiler::node::dependencies_of(exp);
            let (s1, m1, e1, l1) = choose|a1: ConstraintSet, b1: ConstraintSet, re: Result<(), Error>, length: nat|
                    #[trigger] witness((a1, b1, re, length)) && Self::spills(
                        g1,
                        a1,
                        target.module,
                    ) && Self::each_computes(
                        a1,
                        crate::compiler::node::dependencies_of(exp),
                        fuel,
                        b1,
                        re,
                    ) && match re {
                        Err(x) => q1 == b1 && r1 == Err::<(), Error>(x),
                        Ok(_) => if b1.modules.column_at(id as int).values() is Some {
                            q1 == b1 && r1 == Err::<(), Error>(Error::CircularDefinition)
                        } else {
                            match rows_error(
                                b1.modules,
                                crate::compiler::node::dependencies_of(exp),
                                0,
                            ) {
                                Some(e) => q1 == b1 && r1 == Err::<(), Error>(e),
                                None => covers(
                                    b1.modules,
                                    crate::compiler::node::dependencies_of(exp),
                                    length,
                                ) && if a1.spilling.lookup(
                                    target.module,
                                )->0 > isize::MAX || length > isize::MAX {
                                    q1 == b1 && r1 == Err::<(), Error>(Error::TooLong)
                                } else {
                                    r1 is Ok && Self::stored(b1, q1, id) && evaluates(
                                        q1.modules,
                                        exp,
                                        target,
                                        a1.spilling.lookup(target.module)->0 as nat,
                                    )
                                },
                            }
                        },
                    };
            let (s2, m2, e2, l2) = choose|a1: ConstraintSet, b1: ConstraintSet, re: Result<(), Error>, length: nat|
                    #[trigger] witness((a1, b1, re, length)) && Self::spills(
                        g2,
                        a1,
                        target.module,
                    ) && Self::each_computes(
                        a1,
                        crate::compiler::node::dependencies_of(exp),
                        fuel,
                        b1,
                        re,
                    ) && match re {
                        Err(x) => q2 == b1 && r2 == Err::<(), Error>(x),
                        Ok(_) => if b1.modules.column_at(id as int).values() is Some {
                            q2 == b1 && r2 == Err::<(), Error>(Error::CircularDefinition)
                        } else {
                            match rows_error(
                                b1.modules,
                                crate::compiler::node::dependencies_of(exp),
                                0,
                            ) {
                                Some(e) => q2 == b1 && r2 == Err::<(), Error>(e),
                                None => covers(
                                    b1.modules,
                                    crate::compiler::node::dependencies_of(exp),
                                    length,
                                ) && if a1.spilling.lookup(
                                    target.module,
                                )->0 > isize::MAX || length > isize::MAX {
                                    q2 == b1 && r2 == Err::<(), Error>(Error::TooLong)
                                } else {
                                    r2 is Ok && Self::stored(b1, q2, id) && evaluates(
                                        q2.modules,
                                        exp,
                                        target,
                                        a1.spilling.lookup(target.module)->0 as nat,
                                    )
                                },
                            }
                        },
                    };
            Self::lemma_spills_alike(g1, g2, s1, s2, target.module);
            Self::lemma_each_fixed(s1, s2, deps, fuel, m1, e1, m2, e2);
            if e1 is Ok {
                lemma_alike_rows_error(m1.modules, m2.modules, deps, 0);
                if m1.modules.column_at(id as int).values() is None && rows_error(
                    m1.modules,
                    deps,
                    0,
                ) is None {
                    lemma_alike_covers(m1.modules, m2.modules, deps, l1);
                    lemma_covers_once(m2.modules, deps, l1, l2);
                    let sp = s1.spilling.lookup(target.module)->0 as nat;
                    if !(sp > isize::MAX || l1 > isize::MAX) {
                        Self::lemma_stored_alike(m1, m2, q1, q2, id);
                        let ls = crate::compiler::node::leaves(exp);
                        assert forall|j: int| 0 <= j < ls.len() implies length_of(
                            q1.modules,
                            #[trigger] ls[j],
                        ) == length_of(q2.modules, ls[j]) by {
                            let h = ls[j];
                            crate::compiler::node::lemma_gathered_keys(Seq::empty(), ls, 0, h);
                            let i = choose|i: int|
                                0 <= i < deps.len() && (#[trigger] deps[i]).key() == h.key();
                            lemma_rows_filled(m1.modules, deps, 0, i);
                            m1.modules.lemma_ids_in_range(h.module, h.name);
                            lemma_alike_column(m1.modules, m2.modules, h);
                            let c = m1.modules.spec_id(h.module, h.name)->0;
                            assert(c != id);
                            assert(q1.modules.column_at(c as int) == m1.modules.column_at(c as int));
                            assert(q2.modules.column_at(c as int) == m2.modules.column_at(c as int));
                        }
                        lemma_evaluation_is_determined(q1.modules, q2.modules, exp, target, sp);
                    }
                }
            }
        }
    }

    /// Filling a column by interleaving gives one outcome.
    pub proof fn lemma_interleaved_fixed(
        g1: ConstraintSet,
        g2: ConstraintSet,
        froms: Seq<HandleView>,
        target: HandleView,
        fuel: nat,
        q1: ConstraintSet,
        r1: Result<(), Error>,
        q2: ConstraintSet,
        r2: Result<(), Error>,
    )
        requires
            alike(g1, g2),
            Self::interleaved_computes(g1, froms, target, fuel, q1, r1),
            Self::interleaved_computes(g2, froms, target, fuel, q2, r2),
        ensures
            alike(q1, q2),
            agree(r1, r2),
        decreases fuel, 3nat, 0int,
    {
        lemma_alike_column(g1.modules, g2.modules, target);
        g1.modules.lemma_ids_in_range(target.module, target.name);
        if g1.modules.spec_id(target.module, target.name) is Some && !filled(g1.modules, target) {
            let id = g1.modules.spec_id(target.module, target.name)->0;
            let (m1, e1) = choose|b1: ConstraintSet, re: Result<(), Error>|
                    #[trigger] witness((b1, re)) && Self::each_computes(g1, froms, fuel, b1, re)
                        && match re {
                        Err(x) => q1 == b1 && r1 == Err::<(), Error>(x),
                        Ok(_) => if b1.modules.column_at(id as int).values() is Some {
                            q1 == b1 && r1 == Err::<(), Error>(Error::CircularDefinition)
                        } else {
                            match rows_error(b1.modules, froms, 0) {
                                Some(e) => q1 == b1 && r1 == Err::<(), Error>(e),
                                None => if !crate::rows::same_lengths(
                                    rows_of_each(b1.modules, froms),
                                ) {
                                    q1 == b1 && r1 == Err::<(), Error>(Error::IncoherentLengths)
                                } else if froms.len() * crate::rows::common_length(
                                    rows_of_each(b1.modules, froms),
                                ) > usize::MAX {
                                    q1 == b1 && r1 == Err::<(), Error>(Error::TooLong)
                                } else {
                                    r1 is Ok && Self::stored(b1, q1, id) && interleaves(
                                        q1.modules,
                                        froms,
                                        target,
                                    )
                                },
                            }
                        },
                    };
            let (m2, e2) = choose|b1: ConstraintSet, re: Result<(), Error>|
                    #[trigger] witness((b1, re)) && Self::each_computes(g2, froms, fuel, b1, re)
                        && match re {
                        Err(x) => q2 == b1 && r2 == Err::<(), Error>(x),
                        Ok(_) => if b1.modules.column_at(id as int).values() is Some {
                            q2 == b1 && r2 == Err::<(), Error>(Error::CircularDefinition)
                        } else {
                            match rows_error(b1.modules, froms, 0) {
                                Some(e) => q2 == b1 && r2 == Err::<(), Error>(e),
                                None => if !crate::rows::same_lengths(
                                    rows_of_each(b1.modules, froms),
                                ) {
                                    q2 == b1 && r2 == Err::<(), Error>(Error::IncoherentLengths)
                                } else if froms.len() * crate::rows::common_length(
                                    rows_of_each(b1.modules, froms),
                                ) > usize::MAX {
                                    q2 == b1 && r2 == Err::<(), Error>(Error::TooLong)
                                } else {
                                    r2 is Ok && Self::stored(b1, q2, id) && interleaves(
                                        q2.modules,
                                        froms,
                                        target,
                                    )
                                },
                            }
                        },
                    };
            Self::lemma_each_fixed(g1, g2, froms, fuel, m1, e1, m2, e2);
            if e1 is Ok {
                lemma_alike_rows_error(m1.modules, m2.modules, froms, 0);
                lemma_alike_lists(m1.modules, m2.modules, froms);
                if m1.modules.column_at(id as int).values() is None && rows_error(
                    m1.modules,
                    froms,
                    0,
                ) is None && crate::rows::same_lengths(rows_of_each(m1.modules, froms)) && !(
                froms.len() * crate::rows::common_length(rows_of_each(m1.modules, froms))
                    > usize::MAX) {
                    Self::lemma_stored_alike(m1, m2, q1, q2, id);
                    assert forall|j: int| 0 <= j < froms.len() implies q1.modules.spec_id(
                        (#[trigger] froms[j]).module,
                        froms[j].name,
                    ) != q1.modules.spec_id(target.module, target.name) by {
                        lemma_rows_filled(m1.modules, froms, 0, j);
                    }
                    lemma_interleaving_is_determined(q1.modules, q2.modules, froms, target);
                }
            }
        }
    }

    /// Filling the first columns of a sort goes through filling each of
    /// them.
    pub proof fn lemma_targets_prefix(
        start: ColumnSet,
        m: ConstraintSet,
        cols: Seq<Seq<nat>>,
        tos: Seq<HandleView>,
        perm: Seq<usize>,
        spilling: nat,
        n: int,
        j: int,
        q: ConstraintSet,
    )
        requires
            0 <= j < n,
            Self::targets_stored(start, m, cols, tos, perm, spilling, n, q),
        ensures
            exists|bj: ConstraintSet, nx: ConstraintSet|
                #[trigger] witness((bj, nx)) && Self::targets_stored(
                    start,
                    m,
                    cols,
                    tos,
                    perm,
                    spilling,
                    j,
                    bj,
                ) && (!filled(start, tos[j]) ==> bj.modules.column_at(
                    start.spec_id(tos[j].module, tos[j].name)->0 as int,
                ).values() is None && start.spec_id(tos[j].module, tos[j].name) is Some),
        decreases n,
    {
        let k = n;
        let st1 = start;
        let m1 = m;
        let q1 = q;
        let bp = choose|bp: ConstraintSet|
                #[trigger] witness(bp) && Self::targets_stored(
                    st1,
                    m1,
                    cols,
                    tos,
                    perm,
                    spilling,
                    k - 1,
                    bp,
                ) && if filled(st1, tos[k - 1]) {
                    q1 == bp
                } else {
                    &&& st1.spec_id(tos[k - 1].module, tos[k - 1].name) matches Some(id)
                    &&& Self::stored(bp, q1, id)
                    &&& q1.modules.column_at(id as int).spilling_of() == spilling
                    &&& holds_permuted(q1.modules, tos[k - 1], cols[k - 1], perm)
                };
        if j == n - 1 {
            assert(witness((bp, q)));
        } else {
            Self::lemma_targets_prefix(start, m, cols, tos, perm, spilling, n - 1, j, bp);
        }
    }

    /// Filling the first columns of a sort gives one outcome.
    pub proof fn lemma_targets_fixed(
        st1: ColumnSet,
        st2: ColumnSet,
        m1: ConstraintSet,
        m2: ConstraintSet,
        cols: Seq<Seq<nat>>,
        tos: Seq<HandleView>,
        perm: Seq<usize>,
        spilling: nat,
        k: int,
        q1: ConstraintSet,
        q2: ConstraintSet,
    )
        requires
            0 <= k,
            same_values(st1, st2),
            alike(m1, m2),
            forall|a: Seq<char>, b: Seq<char>| m1.modules.spec_id(a, b) == st1.spec_id(a, b),
            forall|a: Seq<char>, b: Seq<char>| m2.modules.spec_id(a, b) == st2.spec_id(a, b),
            exists|n: nat| sorts(perm, cols, n),
            Self::targets_stored(st1, m1, cols, tos, perm, spilling, k, q1),
            Self::targets_stored(st2, m2, cols, tos, perm, spilling, k, q2),
        ensures
            alike(q1, q2),
        decreases k,
    {
        if k > 0 {
            let bp1 = choose|bp: ConstraintSet|
                #[trigger] witness(bp) && Self::targets_stored(
                    st1,
                    m1,
                    cols,
                    tos,
                    perm,
                    spilling,
                    k - 1,
                    bp,
                ) && if filled(st1, tos[k - 1]) {
                    q1 == bp
                } else {
                    &&& st1.spec_id(tos[k - 1].module, tos[k - 1].name) matches Some(id)
                    &&& Self::stored(bp, q1, id)
                    &&& q1.modules.column_at(id as int).spilling_of() == spilling
                    &&& holds_permuted(q1.modules, tos[k - 1], cols[k - 1], perm)
                };
            let bp2 = choose|bp: ConstraintSet|
                #[trigger] witness(bp) && Self::targets_stored(
                    st2,
                    m2,
                    cols,
                    tos,
                    perm,
                    spilling,
                    k - 1,
                    bp,
                ) && if filled(st2, tos[k - 1]) {
                    q2 == bp
                } else {
                    &&& st2.spec_id(tos[k - 1].module, tos[k - 1].name) matches Some(id)
                    &&& Self::stored(bp, q2, id)
                    &&& q2.modules.column_at(id as int).spilling_of() == spilling
                    &&& holds_permuted(q2.modules, tos[k - 1], cols[k - 1], perm)
                };
            Self::lemma_targets_fixed(st1, st2, m1, m2, cols, tos, perm, spilling, k - 1, bp1, bp2);
            Self::lemma_targets_shape(st1, m1, cols, tos, perm, spilling, k - 1, bp1);
            Self::lemma_targets_shape(st2, m2, cols, tos, perm, spilling, k - 1, bp2);
            lemma_alike_column(st1, st2, tos[k - 1]);
            st1.lemma_ids_in_range(tos[k - 1].module, tos[k - 1].name);
            if !filled(st1, tos[k - 1]) {
                let id = st1.spec_id(tos[k - 1].module, tos[k - 1].name)->0;
                Self::lemma_stored_alike(bp1, bp2, q1, q2, id);
                let n = choose|n: nat| sorts(perm, cols, n);
                assert(q1.modules.spec_id(tos[k - 1].module, tos[k - 1].name) == Some(id));
                lemma_sorting_is_determined(
                    q1.modules,
                    q2.modules,
                    cols,
                    k - 1,
                    tos[k - 1],
                    perm,
                    perm,
                    n,
                );
            }
        }
    }

    /// Filling columns by a sort gives one outcome.
    pub proof fn lemma_sorted_fixed(
        g1: ConstraintSet,
        g2: ConstraintSet,
        froms: Seq<HandleView>,
        tos: Seq<HandleView>,
        fuel: nat,
        q1: ConstraintSet,
        r1: Result<(), Error>,
        q2: ConstraintSet,
        r2: Result<(), Error>,
    )
        requires
            alike(g1, g2),
            Self::sorted_computes(g1, froms, tos, fuel, q1, r1),
            Self::sorted_computes(g2, froms, tos, fuel, q2, r2),
        ensures
            alike(q1, q2),
            agree(r1, r2),
        decreases fuel, 3nat, 0int,
    {
        lemma_alike_lists(g1.modules, g2.modules, tos);
        if !(froms.len() == 0 || froms.len() != tos.len()) && !unknown_among(g1.modules, tos) {
            let (s1, m1, e1) = choose|a1: ConstraintSet, b1: ConstraintSet, re: Result<(), Error>|
                #[trigger] witness((a1, b1, re)) && Self::spills(g1, a1, froms[0].module)
                    && Self::each_computes(a1, froms, fuel, b1, re) && match re {
                    Err(x) => q1 == b1 && r1 == Err::<(), Error>(x),
                    Ok(_) => match rows_error(b1.modules, froms, 0) {
                        Some(e) => q1 == b1 && r1 == Err::<(), Error>(e),
                        None => if !same_padded(b1.modules, froms) || !readable(b1.modules, froms) {
                            q1 == b1 && r1 == Err::<(), Error>(Error::IncoherentLengths)
                        } else {
                            exists|perm: Seq<usize>, k: int|
                                #[trigger] witness((perm, k)) && sorts(
                                    perm,
                                    sorted_rows(b1.modules, froms),
                                    rows_of_handle(b1.modules, froms[0]).len(),
                                ) && 0 <= k <= tos.len() && Self::targets_stored(
                                    g1.modules,
                                    b1,
                                    sorted_rows(b1.modules, froms),
                                    tos,
                                    perm,
                                    a1.spilling.lookup(froms[0].module)->0 as nat,
                                    k,
                                    q1,
                                ) && if k == tos.len() {
                                    r1 is Ok
                                } else {
                                    r1 == Err::<(), Error>(Error::CircularDefinition) && !filled(
                                        g1.modules,
                                        tos[k],
                                    ) && filled(q1.modules, tos[k])
                                }
                        },
                    },
                };
            let (s2, m2, e2) = choose|a1: ConstraintSet, b1: ConstraintSet, re: Result<(), Error>|
                #[trigger] witness((a1, b1, re)) && Self::spills(g2, a1, froms[0].module)
                    && Self::each_computes(a1, froms, fuel, b1, re) && match re {
                    Err(x) => q2 == b1 && r2 == Err::<(), Error>(x),
                    Ok(_) => match rows_error(b1.modules, froms, 0) {
                        Some(e) => q2 == b1 && r2 == Err::<(), Error>(e),
                        None => if !same_padded(b1.modules, froms) || !readable(b1.modules, froms) {
                            q2 == b1 && r2 == Err::<(), Error>(Error::IncoherentLengths)
                        } else {
                            exists|perm: Seq<usize>, k: int|
                                #[trigger] witness((perm, k)) && sorts(
                                    perm,
                                    sorted_rows(b1.modules, froms),
                                    rows_of_handle(b1.modules, froms[0]).len(),
                                ) && 0 <= k <= tos.len() && Self::targets_stored(
                                    g2.modules,
                                    b1,
                                    sorted_rows(b1.modules, froms),
                                    tos,
                                    perm,
                                    a1.spilling.lookup(froms[0].module)->0 as nat,
                                    k,
                                    q2,
                                ) && if k == tos.len() {
                                    r2 is Ok
                                } else {
                                    r2 == Err::<(), Error>(Error::CircularDefinition) && !filled(
                                        g2.modules,
                                        tos[k],
                                    ) && filled(q2.modules, tos[k])
                                }
                        },
                    },
                };
            Self::lemma_spills_alike(g1, g2, s1, s2, froms[0].module);
            Self::lemma_each_fixed(s1, s2, froms, fuel, m1, e1, m2, e2);
            if e1 is Ok {
                lemma_alike_rows_error(m1.modules, m2.modules, froms, 0);
                lemma_alike_lists(m1.modules, m2.modules, froms);
                lemma_alike_column(m1.modules, m2.modules, froms[0]);
                if rows_error(m1.modules, froms, 0) is None && same_padded(m1.modules, froms)
                    && readable(m1.modules, froms) {
                    let cols = sorted_rows(m1.modules, froms);
                    let n = rows_of_handle(m1.modules, froms[0]).len();
                    let sp = s1.spilling.lookup(froms[0].module)->0 as nat;
                    let (perm1, k1) = choose|perm: Seq<usize>, k: int|
                                #[trigger] witness((perm, k)) && sorts(
                                    perm,
                                    sorted_rows(m1.modules, froms),
                                    rows_of_handle(m1.modules, froms[0]).len(),
                                ) && 0 <= k <= tos.len() && Self::targets_stored(
                                    g1.modules,
                                    m1,
                                    sorted_rows(m1.modules, froms),
                                    tos,
                                    perm,
                                    s1.spilling.lookup(froms[0].module)->0 as nat,
                                    k,
                                    q1,
                                ) && if k == tos.len() {
                                    r1 is Ok
                                } else {
                                    r1 == Err::<(), Error>(Error::CircularDefinition) && !filled(
                                        g1.modules,
                                        tos[k],
                                    ) && filled(q1.modules, tos[k])
                                };
                    let (perm2, k2) = choose|perm: Seq<usize>, k: int|
                                #[trigger] witness((perm, k)) && sorts(
                                    perm,
                                    sorted_rows(m2.modules, froms),
                                    rows_of_handle(m2.modules, froms[0]).len(),
                                ) && 0 <= k <= tos.len() && Self::targets_stored(
                                    g2.modules,
                                    m2,
                                    sorted_rows(m2.modules, froms),
                                    tos,
                                    perm,
                                    s2.spilling.lookup(froms[0].module)->0 as nat,
                                    k,
                                    q2,
                                ) && if k == tos.len() {
                                    r2 is Ok
                                } else {
                                    r2 == Err::<(), Error>(Error::CircularDefinition) && !filled(
                                        g2.modules,
                                        tos[k],
                                    ) && filled(q2.modules, tos[k])
                                };
                    crate::rows::lemma_sorted_once(perm1, perm2, cols);
                    let perm = perm1;
                    if k1 == k2 {
                        Self::lemma_targets_fixed(
                            g1.modules,
                            g2.modules,
                            m1,
                            m2,
                            cols,
                            tos,
                            perm,
                            sp,
                            k1,
                            q1,
                            q2,
                        );
                    } else if k1 < k2 {
                        Self::lemma_targets_prefix(g2.modules, m2, cols, tos, perm, sp, k2, k1, q2);
                        let (bj, nx) = choose|bj: ConstraintSet, nx: ConstraintSet|
                            #[trigger] witness((bj, nx)) && Self::targets_stored(
                                g2.modules,
                                m2,
                                cols,
                                tos,
                                perm,
                                sp,
                                k1,
                                bj,
                            ) && (!filled(g2.modules, tos[k1]) ==> bj.modules.column_at(
                                g2.modules.spec_id(tos[k1].module, tos[k1].name)->0 as int,
                            ).values() is None && g2.modules.spec_id(
                                tos[k1].module,
                                tos[k1].name,
                            ) is Some);
                        Self::lemma_targets_fixed(
                            g1.modules,
                            g2.modules,
                            m1,
                            m2,
                            cols,
                            tos,
                            perm,
                            sp,
                            k1,
                            q1,
                            bj,
                        );
                        lemma_alike_column(g1.modules, g2.modules, tos[k1]);
                        lemma_alike_column(q1.modules, bj.modules, tos[k1]);
                        Self::lemma_targets_shape(g2.modules, m2, cols, tos, perm, sp, k1, bj);
                        assert(false);
                    } else {
                        Self::lemma_targets_prefix(g1.modules, m1, cols, tos, perm, sp, k1, k2, q1);
                        let (bj, nx) = choose|bj: ConstraintSet, nx: ConstraintSet|
                            #[trigger] witness((bj, nx)) && Self::targets_stored(
                                g1.modules,
                                m1,
                                cols,
                                tos,
                                perm,
                                sp,
                                k2,
                                bj,
                            ) && (!filled(g1.modules, tos[k2]) ==> bj.modules.column_at(
                                g1.modules.spec_id(tos[k2].module, tos[k2].name)->0 as int,
                            ).values() is None && g1.modules.spec_id(
                                tos[k2].module,
                                tos[k2].name,
                            ) is Some);
                        Self::lemma_targets_fixed(
                            g1.modules,
                            g2.modules,
                            m1,
                            m2,
                            cols,
                            tos,
                            perm,
                            sp,
                            k2,
                            bj,
                            q2,
                        );
                        lemma_alike_column(g1.modules, g2.modules, tos[k2]);
                        lemma_alike_column(bj.modules, q2.modules, tos[k2]);
                        Self::lemma_targets_shape(g1.modules, m1, cols, tos, perm, sp, k2, bj);
                        assert(false);
                    }
                }
            }
        }
    }

    /// Filling columns by a sort keeps the names of the columns.
    pub proof fn lemma_targets_shape(
        start: ColumnSet,
        m: ConstraintSet,
        cols: Seq<Seq<nat>>,
        tos: Seq<HandleView>,
        perm: Seq<usize>,
        spilling: nat,
        k: int,
        q: ConstraintSet,
    )
        requires
            0 <= k,
            forall|a: Seq<char>, b: Seq<char>| m.modules.spec_id(a, b) == start.spec_id(a, b),
            Self::targets_stored(start, m, cols, tos, perm, spilling, k, q),
        ensures
            forall|a: Seq<char>, b: Seq<char>| q.modules.spec_id(a, b) == start.spec_id(a, b),
        decreases k,
    {
        if k > 0 {
            let st1 = start;
            let m1 = m;
            let q1 = q;
            let bp = choose|bp: ConstraintSet|
                #[trigger] witness(bp) && Self::targets_stored(
                    st1,
                    m1,
                    cols,
                    tos,
                    perm,
                    spilling,
                    k - 1,
                    bp,
                ) && if filled(st1, tos[k - 1]) {
                    q1 == bp
                } else {
                    &&& st1.spec_id(tos[k - 1].module, tos[k - 1].name) matches Some(id)
                    &&& Self::stored(bp, q1, id)
                    &&& q1.modules.column_at(id as int).spilling_of() == spilling
                    &&& holds_permuted(q1.modules, tos[k - 1], cols[k - 1], perm)
                };
            Self::lemma_targets_shape(start, m, cols, tos, perm, spilling, k - 1, bp);
        }
    }

    /// Running a computation gives one outcome.
    pub proof fn lemma_with_fixed(
        g1: ConstraintSet,
        g2: ConstraintSet,
        i: int,
        fuel: nat,
        q1: ConstraintSet,
        r1: Result<(), Error>,
        q2: ConstraintSet,
        r2: Result<(), Error>,
    )
        requires
            alike(g1, g2),
            Self::computes_with(g1, i, fuel, q1, r1),
            Self::computes_with(g2, i, fuel, q2, r2),
        ensures
            alike(q1, q2),
            agree(r1, r2),
        decreases fuel, 4nat, 0int,
    {
        if 0 <= i < g1.computations.spec_len() {
            match g1.computations.computation_at(i)@ {
                ComputationView::Composite { target, exp } => {
                    Self::lemma_composite_fixed(g1, g2, exp, target, fuel, q1, r1, q2, r2);
                },
                ComputationView::Interleaved { target, froms } => {
                    Self::lemma_interleaved_fixed(g1, g2, froms, target, fuel, q1, r1, q2, r2);
                },
                ComputationView::Sorted { froms, tos } => {
                    Self::lemma_sorted_fixed(g1, g2, froms, tos, fuel, q1, r1, q2, r2);
                },
            }
        }
    }

    /// Evaluator determinism. Running the computations of two programs
    /// that are alike leaves them alike, with the same failures: every
    /// column holds the same values, with as many before row zero, in the
    /// one as in the other, whatever the schedule.
    pub proof fn lemma_all_fixed(
        g1: ConstraintSet,
        g2: ConstraintSet,
        k: int,
        q1: ConstraintSet,
        f1: Seq<(usize, Error)>,
        q2: ConstraintSet,
        f2: Seq<(usize, Error)>,
    )
        requires
            alike(g1, g2),
            Self::all_computed(g1, k, q1, f1),
            Self::all_computed(g2, k, q2, f2),
        ensures
            alike(q1, q2),
            f1 == f2,
        decreases k,
    {
        if k > 0 {
            let (bp1, pv1, u1) = choose|bp: ConstraintSet, prev: Seq<(usize, Error)>, u: Result<(), Error>|
                #[trigger] witness((bp, prev, u)) && Self::all_computed(g1, k - 1, bp, prev)
                    && Self::computes_with(bp, k - 1, bp.computations.spec_len(), q1, u)
                    && f1 == match u {
                    Ok(_) => prev,
                    Err(e) => prev.push(((k - 1) as usize, e)),
                };
            let (bp2, pv2, u2) = choose|bp: ConstraintSet, prev: Seq<(usize, Error)>, u: Result<(), Error>|
                #[trigger] witness((bp, prev, u)) && Self::all_computed(g2, k - 1, bp, prev)
                    && Self::computes_with(bp, k - 1, bp.computations.spec_len(), q2, u)
                    && f2 == match u {
                    Ok(_) => prev,
                    Err(e) => prev.push(((k - 1) as usize, e)),
                };
            Self::lemma_all_fixed(g1, g2, k - 1, bp1, pv1, bp2, pv2);
            Self::lemma_with_fixed(
                bp1,
                bp2,
                k - 1,
                bp1.computations.spec_len(),
                q1,
                u1,
                q2,
                u2,
            );
        } else {
            assert(f1 =~= f2);
        }
    }
}

} // verus!
