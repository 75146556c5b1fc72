//! Columns, the set that holds them, and the computations that fill them.

use crate::compiler::common::{witness, Handle, HandleView};
use crate::compiler::node::{
    clone_handles, handle_views, handle_with, handle_with_id, handles_with, handles_with_ids,
    with_ids, Kind, Node, NodeView,
};
use crate::compiler::types::Type;
use crate::dict::{Dict, HandleMap};
use crate::errors::Error;
use crate::field::Fr;
use vstd::prelude::*;
use vstd::string::*;

verus! {

/// The representatives of a sequence of elements of the field.
pub open spec fn field_values(v: Seq<Fr>) -> Seq<nat> {
    Seq::new(v.len(), |i: int| v[i].value())
}

/// What reading row `i` of a column gives. The column holds `values`, of
/// which the first `spilling` stand before row zero. A negative row counts
/// from the end when `wrap` is set. Reading outside of what the column holds
/// gives nothing.
pub open spec fn read_row(values: Seq<nat>, spilling: int, i: int, wrap: bool) -> Option<nat> {
    let at = if i < 0 && wrap {
        values.len() + i
    } else {
        i + spilling
    };
    if 0 <= at < values.len() {
        Some(values[at])
    } else {
        None
    }
}

/// Where the expressions of a computation read the values of columns.
pub trait ColumnSource {
    /// The value of row `i` of the column that `h` names, if there is one.
    spec fn read(&self, h: HandleView, i: int, wrap: bool) -> Option<nat>;

    /// The value of row `i` of the column that `h` names, if there is one.
    fn get(&self, h: &Handle, i: isize, wrap: bool) -> (r: Option<Fr>)
        ensures
            match r {
                Some(x) => self.read(h@, i as int, wrap) == Some(x.value()),
                None => self.read(h@, i as int, wrap) is None,
            },
    ;
}

/// A source in which every column reads as its padding: 255 for the column
/// `NOT` of the module `binary`, zero for every other.
pub struct Padding {}

/// The padding of an atomic column.
pub open spec fn padding_of(h: HandleView) -> nat {
    if h.module == "binary"@ && h.name == "NOT"@ {
        255
    } else {
        0
    }
}

impl ColumnSource for Padding {
    open spec fn read(&self, h: HandleView, i: int, wrap: bool) -> Option<nat> {
        Some(padding_of(h))
    }

    fn get(&self, h: &Handle, i: isize, wrap: bool) -> (r: Option<Fr>) {
        if crate::text::str_eq(h.module.as_str(), "binary") && crate::text::str_eq(
            h.name.as_str(),
            "NOT",
        ) {
            Some(Fr::from_u64(255))
        } else {
            Some(Fr::zero())
        }
    }
}

/// A column: how it comes by its values, the type of its values, and its
/// values once they are known. The first `spilling` values stand before row
/// zero, so that an expression can read a few rows into the past.
pub struct Column {
    kind: Kind<()>,
    t: Type,
    value: Option<Vec<Fr>>,
    spilling: usize,
}

impl Column {
    /// The rows before row zero are among the values.
    #[verifier::type_invariant]
    pub closed spec fn wf(self) -> bool {
        match self.value {
            Some(v) => self.spilling <= v@.len(),
            None => self.spilling == 0,
        }
    }

    /// The values of the column, if it has been filled, with those that
    /// stand before row zero.
    pub closed spec fn values(self) -> Option<Seq<nat>> {
        match self.value {
            Some(v) => Some(field_values(v@)),
            None => None,
        }
    }

    /// How many values stand before row zero.
    pub closed spec fn spilling_of(self) -> nat {
        self.spilling as nat
    }

    /// How the column comes by its values.
    pub closed spec fn kind_of(self) -> Kind<()> {
        self.kind
    }

    /// The type of the values of the column.
    pub closed spec fn type_of(self) -> Type {
        self.t
    }

    /// What reading row `i` of the column gives.
    pub open spec fn read(self, i: int, wrap: bool) -> Option<nat> {
        match self.values() {
            Some(v) => read_row(v, self.spilling_of() as int, i, wrap),
            None => None,
        }
    }

    /// A column of the given kind and type that has not been filled.
    pub fn new(kind: Kind<()>, t: Type) -> (r: Column)
        ensures
            r.values() is None,
            r.spilling_of() == 0,
            r.kind_of() == kind,
            r.type_of() == t,
    {
        Column { kind, t, value: None, spilling: 0 }
    }

    /// A column of the trace that holds `v`.
    pub fn atomic(v: Vec<Fr>, t: Type) -> (r: Column)
        ensures
            r.values() == Some(field_values(v@)),
            r.spilling_of() == 0,
            r.kind_of() == Kind::<()>::Atomic,
            r.type_of() == t,
    {
        Column { kind: Kind::Atomic, t, value: Some(v), spilling: 0 }
    }

    /// A column computed from an expression, not filled yet.
    pub fn composite(t: Type) -> (r: Column)
        ensures
            r.values() is None,
            r.spilling_of() == 0,
            r.kind_of() == Kind::<()>::Composite(Box::new(())),
            r.type_of() == t,
    {
        Column { kind: Kind::Composite(Box::new(())), t, value: None, spilling: 0 }
    }

    /// A column that a sort fills, not filled yet.
    pub fn sorted(t: Type) -> (r: Column)
        ensures
            r.values() is None,
            r.spilling_of() == 0,
            r.kind_of() == Kind::<()>::Phantom,
            r.type_of() == t,
    {
        Column { kind: Kind::Phantom, t, value: None, spilling: 0 }
    }

    /// A column made by interleaving the columns `froms`, not filled yet.
    pub fn interleaved(froms: Vec<Handle>, t: Type) -> (r: Column)
        ensures
            r.values() is None,
            r.spilling_of() == 0,
            r.kind_of() == Kind::<()>::Interleaved(froms),
            r.type_of() == t,
    {
        Column { kind: Kind::Interleaved(froms), t, value: None, spilling: 0 }
    }

    /// How the column comes by its values.
    pub fn kind(&self) -> (r: &Kind<()>)
        ensures
            *r == self.kind_of(),
    {
        &self.kind
    }

    /// The type of the values of the column.
    pub fn t(&self) -> (r: Type)
        ensures
            r == self.type_of(),
    {
        self.t
    }

    /// Whether the column has been filled.
    pub fn is_computed(&self) -> (r: bool)
        ensures
            r == self.values().is_some(),
    {
        self.value.is_some()
    }

    /// The number of rows from row zero on, once the column has been filled.
    pub fn len(&self) -> (r: Option<usize>)
        ensures
            match r {
                Some(l) => self.values() matches Some(v) && l == v.len() - self.spilling_of(),
                None => self.values() is None,
            },
    {
        proof {
            use_type_invariant(self);
        }
        match &self.value {
            Some(v) => Some(v.len() - self.spilling),
            None => None,
        }
    }

    /// The number of values, with those before row zero, once the column has
    /// been filled.
    pub fn padded_len(&self) -> (r: Option<usize>)
        ensures
            match r {
                Some(l) => self.values() matches Some(v) && l == v.len(),
                None => self.values() is None,
            },
    {
        match &self.value {
            Some(v) => Some(v.len()),
            None => None,
        }
    }

    /// How many values stand before row zero.
    pub fn spilling(&self) -> (r: usize)
        ensures
            r == self.spilling_of(),
    {
        self.spilling
    }

    /// The values of the column, with those before row zero, once it has
    /// been filled.
    pub fn value(&self) -> (r: Option<&Vec<Fr>>)
        ensures
            match r {
                Some(v) => self.values() == Some(field_values(v@)),
                None => self.values() is None,
            },
    {
        match &self.value {
            Some(v) => Some(v),
            None => None,
        }
    }

    /// The value of row `i`, if the column holds one. A negative row counts
    /// from the end when `wrap` is set.
    pub fn get(&self, i: isize, wrap: bool) -> (r: Option<&Fr>)
        ensures
            match r {
                Some(x) => self.read(i as int, wrap) == Some(x.value()),
                None => self.read(i as int, wrap) is None,
            },
    {
        proof {
            use_type_invariant(self);
        }
        match &self.value {
            None => None,
            Some(v) => {
                let n = v.len();
                if i < 0 && wrap {
                    let back: usize = (-(i + 1)) as usize;
                    if back < n {
                        Some(&v[n - 1 - back])
                    } else {
                        None
                    }
                } else if i < 0 {
                    let back: usize = (-(i + 1)) as usize;
                    if back < self.spilling {
                        Some(&v[self.spilling - 1 - back])
                    } else {
                        None
                    }
                } else {
                    let at = i as usize;
                    if at < n - self.spilling {
                        Some(&v[at + self.spilling])
                    } else {
                        None
                    }
                }
            },
        }
    }

    /// Fills the column with `values`, of which the first `spilling` stand
    /// before row zero.
    pub fn set_raw_value(&mut self, values: Vec<Fr>, spilling: usize)
        requires
            spilling <= values@.len(),
        ensures
            final(self).values() == Some(field_values(values@)),
            final(self).spilling_of() == spilling,
            final(self).kind_of() == old(self).kind_of(),
            final(self).type_of() == old(self).type_of(),
    {
        let mut taken = Column { kind: Kind::Atomic, t: self.t, value: None, spilling: 0 };
        core::mem::swap(self, &mut taken);
        let Column { kind, t, value: _, spilling: _ } = taken;
        *self = Column { kind, t, value: Some(values), spilling };
    }
}

/// How the values of derived columns are obtained.
pub enum Computation {
    /// `target` holds on each row the value of `exp`.
    Composite { target: Handle, exp: Node },
    /// `target` holds the rows of the columns `froms`, taken in turn.
    Interleaved { target: Handle, froms: Vec<Handle> },
    /// The columns `tos` hold the rows of the columns `froms`, sorted.
    Sorted { froms: Vec<Handle>, tos: Vec<Handle> },
}

/// The mathematical content of a [`Computation`].
pub enum ComputationView {
    Composite { target: HandleView, exp: NodeView },
    Interleaved { target: HandleView, froms: Seq<HandleView> },
    Sorted { froms: Seq<HandleView>, tos: Seq<HandleView> },
}

impl View for Computation {
    type V = ComputationView;

    open spec fn view(&self) -> ComputationView {
        match *self {
            Computation::Composite { target, exp } => ComputationView::Composite {
                target: target@,
                exp: exp@,
            },
            Computation::Interleaved { target, froms } => ComputationView::Interleaved {
                target: target@,
                froms: handle_views(froms@),
            },
            Computation::Sorted { froms, tos } => ComputationView::Sorted {
                froms: handle_views(froms@),
                tos: handle_views(tos@),
            },
        }
    }
}

/// The computation `c`, in which each handle that names a column of `cs`
/// has the index of that column as its id.
pub open spec fn computation_with_ids(c: ComputationView, cs: ColumnSet) -> ComputationView {
    match c {
        ComputationView::Composite { target, exp } => ComputationView::Composite {
            target: handle_with_id(target, cs),
            exp: with_ids(exp, cs),
        },
        ComputationView::Interleaved { target, froms } => ComputationView::Interleaved {
            target: handle_with_id(target, cs),
            froms: handles_with_ids(froms, cs),
        },
        ComputationView::Sorted { froms, tos } => ComputationView::Sorted {
            froms: handles_with_ids(froms, cs),
            tos: handles_with_ids(tos, cs),
        },
    }
}

impl Clone for Computation {
    fn clone(&self) -> (r: Computation)
        ensures
            r@ == self@,
    {
        match self {
            Computation::Composite { target, exp } => Computation::Composite {
                target: target.clone(),
                exp: exp.clone(),
            },
            Computation::Interleaved { target, froms } => Computation::Interleaved {
                target: target.clone(),
                froms: clone_handles(froms),
            },
            Computation::Sorted { froms, tos } => Computation::Sorted {
                froms: clone_handles(froms),
                tos: clone_handles(tos),
            },
        }
    }
}

impl Computation {
    /// Gives each handle of the computation that names a column of `cs` the
    /// index of that column as its id.
    pub fn add_id_to_handles(&mut self, cs: &ColumnSet)
        ensures
            final(self)@ == computation_with_ids(old(self)@, *cs),
    {
        let mut taken = Computation::Sorted { froms: Vec::new(), tos: Vec::new() };
        core::mem::swap(self, &mut taken);
        let mut r = match taken {
            Computation::Composite { target, exp } => {
                let mut exp = exp;
                exp.add_id_to_handles(cs);
                Computation::Composite { target: handle_with(target, cs), exp }
            },
            Computation::Interleaved { target, froms } => Computation::Interleaved {
                target: handle_with(target, cs),
                froms: handles_with(froms, cs),
            },
            Computation::Sorted { froms, tos } => Computation::Sorted {
                froms: handles_with(froms, cs),
                tos: handles_with(tos, cs),
            },
        };
        core::mem::swap(self, &mut r);
    }
}

/// The columns of a program: a dense vector of columns, and the index in it
/// of the column of each name of each module.
pub struct ColumnSet {
    ids: HandleMap<usize>,
    columns: Vec<Column>,
    /// The handle under which each column was declared last.
    handles: Vec<Handle>,
    raw_len: Dict<isize>,
}

impl ColumnSet {
    /// Every name stands for a column of the vector, and every column has
    /// a handle.
    #[verifier::type_invariant]
    pub closed spec fn wf(self) -> bool {
        &&& self.handles@.len() == self.columns@.len()
        &&& forall|m: Seq<char>, n: Seq<char>|
            (#[trigger] self.ids.lookup(m, n)) matches Some(i) ==> i < self.columns@.len()
    }

    /// The handle of the column of index `i`: the module and name under
    /// which it was declared last, and `i` as id.
    pub closed spec fn handle_at(self, i: int) -> HandleView {
        self.handles@[i]@
    }

    /// The number of columns.
    pub closed spec fn spec_len(self) -> nat {
        self.columns@.len()
    }

    /// The column of index `i`.
    pub closed spec fn column_at(self, i: int) -> Column {
        self.columns@[i]
    }

    /// The index of the column `name` of `module`, if there is one.
    pub closed spec fn spec_id(self, module: Seq<char>, name: Seq<char>) -> Option<usize> {
        match self.ids.lookup(module, name) {
            Some(i) => if i < self.columns@.len() {
                Some(i)
            } else {
                None
            },
            None => None,
        }
    }

    /// The names and their indices.
    pub closed spec fn names(self) -> HandleMap<usize> {
        self.ids
    }

    /// The length that the columns of `module` had in the trace, if it has
    /// been recorded.
    pub closed spec fn raw_len_of(self, module: Seq<char>) -> Option<isize> {
        self.raw_len.lookup(module)
    }

    /// The index of a name is the index of a column.
    pub proof fn lemma_ids_in_range(self, module: Seq<char>, name: Seq<char>)
        ensures
            self.spec_id(module, name) matches Some(i) ==> i < self.spec_len(),
    {
    }

    /// The empty set.
    pub fn new() -> (r: ColumnSet)
        ensures
            r.spec_len() == 0,
            forall|m: Seq<char>, n: Seq<char>| r.spec_id(m, n) is None,
            forall|m: Seq<char>| r.raw_len_of(m) is None,
    {
        ColumnSet {
            ids: HandleMap::new(),
            columns: Vec::new(),
            handles: Vec::new(),
            raw_len: Dict::new(),
        }
    }

    /// The number of columns.
    pub fn len(&self) -> (r: usize)
        ensures
            r == self.spec_len(),
    {
        self.columns.len()
    }

    /// The names of the columns and their indices, module by module.
    pub fn ids(&self) -> (r: &HandleMap<usize>)
        ensures
            *r == self.names(),
            forall|m: Seq<char>, n: Seq<char>| r.lookup(m, n) == self.spec_id(m, n),
    {
        proof {
            use_type_invariant(self);
        }
        &self.ids
    }

    /// The index of the column that `h` names, if there is one.
    pub fn id_of(&self, h: &Handle) -> (r: Option<usize>)
        ensures
            r == self.spec_id(h@.module, h@.name),
            r matches Some(i) ==> i < self.spec_len(),
    {
        proof {
            use_type_invariant(self);
        }
        match self.ids.get(h.module.as_str(), h.name.as_str()) {
            Some(i) => Some(*i),
            None => None,
        }
    }

    /// The column of index `i`.
    pub fn column(&self, i: usize) -> (r: &Column)
        requires
            i < self.spec_len(),
        ensures
            *r == self.column_at(i as int),
    {
        &self.columns[i]
    }

    /// The handle of the column of index `i`.
    pub fn handle(&self, i: usize) -> (r: &Handle)
        requires
            i < self.spec_len(),
        ensures
            r@ == self.handle_at(i as int),
    {
        proof {
            use_type_invariant(self);
        }
        &self.handles[i]
    }

    /// The column that `h` names.
    pub fn get(&self, h: &Handle) -> (r: Result<&Column, Error>)
        ensures
            match r {
                Ok(c) => self.spec_id(h@.module, h@.name) matches Some(i) && *c == self.column_at(
                    i as int,
                ),
                Err(e) => self.spec_id(h@.module, h@.name) is None && e == Error::UnknownColumn,
            },
    {
        match self.id_of(h) {
            Some(i) => Ok(&self.columns[i]),
            None => Err(Error::UnknownColumn),
        }
    }

    /// Fills the column of index `i` with `values`, of which the first
    /// `spilling` stand before row zero.
    pub fn set_raw_value(&mut self, i: usize, values: Vec<Fr>, spilling: usize)
        requires
            i < old(self).spec_len(),
            spilling <= values@.len(),
        ensures
            final(self).spec_len() == old(self).spec_len(),
            final(self).names() == old(self).names(),
            forall|m: Seq<char>, n: Seq<char>| final(self).spec_id(m, n) == old(self).spec_id(m, n),
            forall|m: Seq<char>| final(self).raw_len_of(m) == old(self).raw_len_of(m),
            forall|j: int|
                0 <= j < old(self).spec_len() && j != i ==> final(self).column_at(j) == old(self).column_at(j),
            forall|j: int| final(self).handle_at(j) == old(self).handle_at(j),
            final(self).column_at(i as int).values() == Some(field_values(values@)),
            final(self).column_at(i as int).spilling_of() == spilling,
            final(self).column_at(i as int).kind_of() == old(self).column_at(i as int).kind_of(),
            final(self).column_at(i as int).type_of() == old(self).column_at(i as int).type_of(),
    {
        proof {
            use_type_invariant(&*self);
        }
        let mut taken = ColumnSet {
            ids: HandleMap::new(),
            columns: Vec::new(),
            handles: Vec::new(),
            raw_len: Dict::new(),
        };
        core::mem::swap(self, &mut taken);
        let ColumnSet { ids, columns: mut columns, handles, raw_len } = taken;
        let mut c = Column::new(Kind::Atomic, Type::Void);
        core::mem::swap(&mut columns[i], &mut c);
        c.set_raw_value(values, spilling);
        core::mem::swap(&mut columns[i], &mut c);
        *self = ColumnSet { ids, columns, handles, raw_len };
    }

    /// The length recorded for the columns of `module`; records `x` first
    /// where none was.
    pub fn raw_len_for_or_set(&mut self, module: &str, x: isize) -> (r: isize)
        ensures
            r == match old(self).raw_len_of(module@) {
                Some(l) => l,
                None => x,
            },
            final(self).raw_len_of(module@) == Some(r),
            forall|m: Seq<char>| m != module@ ==> final(self).raw_len_of(m) == old(self).raw_len_of(m),
            final(self).spec_len() == old(self).spec_len(),
            final(self).names() == old(self).names(),
            forall|m: Seq<char>, n: Seq<char>| final(self).spec_id(m, n) == old(self).spec_id(m, n),
            forall|j: int|
                0 <= j < old(self).spec_len() ==> final(self).column_at(j) == old(self).column_at(
                    j,
                ),
            forall|j: int| final(self).handle_at(j) == old(self).handle_at(j),
    {
        proof {
            use_type_invariant(&*self);
        }
        match self.raw_len.get(module) {
            Some(l) => *l,
            None => {
                let mut taken = ColumnSet {
                    ids: HandleMap::new(),
                    columns: Vec::new(),
                    handles: Vec::new(),
                    raw_len: Dict::new(),
                };
                core::mem::swap(self, &mut taken);
                let ColumnSet { ids, columns, handles, raw_len: mut raw_len } = taken;
                raw_len.insert(module.to_owned(), x);
                *self = ColumnSet { ids, columns, handles, raw_len };
                x
            },
        }
    }

    /// What inserting a column under a name does: where the name is taken
    /// and duplicates are not allowed, nothing; else the column stands under
    /// the name, in the place of the one that stood there or after all
    /// others.
    pub open spec fn inserted(
        before: ColumnSet,
        after: ColumnSet,
        module: Seq<char>,
        name: Seq<char>,
        id: usize,
    ) -> bool {
        &&& after.spec_id(module, name) == Some(id)
        &&& forall|m: Seq<char>, n: Seq<char>|
            (m != module || n != name) ==> after.spec_id(m, n) == before.spec_id(m, n)
        &&& forall|m: Seq<char>| after.raw_len_of(m) == before.raw_len_of(m)
        &&& forall|j: int|
            0 <= j < before.spec_len() && j != id ==> after.column_at(j) == before.column_at(j)
                && after.handle_at(j) == before.handle_at(j)
        &&& after.handle_at(id as int) == (HandleView { module, name, id: Some(id) })
        &&& match before.spec_id(module, name) {
            Some(i) => id == i && after.spec_len() == before.spec_len(),
            None => id == before.spec_len() && after.spec_len() == before.spec_len() + 1,
        }
    }

    /// What putting the column `c` under the name `name` of `module` does:
    /// the column stands there, at the index that is returned; or, where
    /// the name is taken and `allow_dup` is not set, nothing changes.
    pub open spec fn puts(
        before: ColumnSet,
        after: ColumnSet,
        module: Seq<char>,
        name: Seq<char>,
        c: Column,
        allow_dup: bool,
        r: Result<usize, Error>,
    ) -> bool {
        match r {
            Ok(id) => (allow_dup || before.spec_id(module, name) is None) && Self::inserted(
                before,
                after,
                module,
                name,
                id,
            ) && after.column_at(id as int) == c,
            Err(e) => !allow_dup && before.spec_id(module, name) is Some && e
                == Error::DuplicateSymbol && after == before,
        }
    }

    /// Puts the column `c` under the name `name` of `module`. A name that is
    /// taken is refused, unless `allow_dup` is set: then `c` takes the place
    /// of the column that stood there.
    pub fn insert_column(&mut self, module: &str, name: &str, c: Column, allow_dup: bool) -> (r:
        Result<usize, Error>)
        ensures
            Self::puts(*old(self), *final(self), module@, name@, c, allow_dup, r),
    {
        proof {
            use_type_invariant(&*self);
        }
        let existing = match self.ids.get(module, name) {
            Some(i) => Some(*i),
            None => None,
        };
        if existing.is_some() && !allow_dup {
            return Err(Error::DuplicateSymbol);
        }
        let mut taken = ColumnSet {
            ids: HandleMap::new(),
            columns: Vec::new(),
            handles: Vec::new(),
            raw_len: Dict::new(),
        };
        core::mem::swap(self, &mut taken);
        let ColumnSet { ids: mut ids, columns: mut columns, handles: mut handles, raw_len } = taken;
        let id = match existing {
            Some(i) => {
                let mut c = c;
                core::mem::swap(&mut columns[i], &mut c);
                let mut h = Handle::with_id(module, name, i);
                core::mem::swap(&mut handles[i], &mut h);
                i
            },
            None => {
                let i = columns.len();
                columns.push(c);
                handles.push(Handle::with_id(module, name, i));
                ids.insert(module, name, i);
                i
            },
        };
        *self = ColumnSet { ids, columns, handles, raw_len };
        Ok(id)
    }

    /// Whether the column of index `id` is an atomic column of type `t` that
    /// has not been filled.
    pub open spec fn is_blank(self, id: int, kind: Kind<()>, t: Type) -> bool {
        &&& self.column_at(id).values() is None
        &&& self.column_at(id).spilling_of() == 0
        &&& self.column_at(id).kind_of() == kind
        &&& self.column_at(id).type_of() == t
    }

    /// Whether `name` of `module` stands for a column of the given kind and
    /// type that has not been filled.
    pub open spec fn declared(self, module: Seq<char>, name: Seq<char>, kind: Kind<()>, t: Type) -> bool {
        self.spec_id(module, name) matches Some(id) && self.is_blank(id as int, kind, t)
    }

    /// What declaring a column does: afterwards a column of the given kind
    /// and type that has not been filled stands under the name.
    pub open spec fn inserted_blank(
        before: ColumnSet,
        after: ColumnSet,
        module: Seq<char>,
        name: Seq<char>,
        kind: Kind<()>,
        t: Type,
    ) -> bool {
        after.spec_id(module, name) matches Some(id) && Self::inserted(
            before,
            after,
            module,
            name,
            id,
        ) && after.is_blank(id as int, kind, t)
    }

    /// What declaring the column `name` of `module`, of the given kind and
    /// type, does: the column stands under the name, not filled; or, where
    /// the name is taken and `allow_dup` is not set, nothing changes.
    pub open spec fn declares(
        before: ColumnSet,
        after: ColumnSet,
        module: Seq<char>,
        name: Seq<char>,
        kind: Kind<()>,
        t: Type,
        allow_dup: bool,
        r: Result<(), Error>,
    ) -> bool {
        match r {
            Ok(_) => (allow_dup || before.spec_id(module, name) is None) && Self::inserted_blank(
                before,
                after,
                module,
                name,
                kind,
                t,
            ),
            Err(e) => !allow_dup && before.spec_id(module, name) is Some && e
                == Error::DuplicateSymbol && after == before,
        }
    }

    /// Declares the atomic column `name` of `module`, of type `t`.
    pub fn insert_atomic(&mut self, module: &str, name: &str, t: Type, allow_dup: bool) -> (r:
        Result<(), Error>)
        ensures
            Self::declares(*old(self), *final(self), module@, name@, Kind::Atomic, t, allow_dup, r),
    {
        match self.insert_column(module, name, Column::new(Kind::Atomic, t), allow_dup) {
            Ok(_) => Ok(()),
            Err(e) => Err(e),
        }
    }

    /// Declares the composite column `name` of `module`, of type `t`.
    pub fn insert_composite(&mut self, module: &str, name: &str, t: Type, allow_dup: bool) -> (r:
        Result<(), Error>)
        ensures
            Self::declares(
                *old(self),
                *final(self),
                module@,
                name@,
                Kind::Composite(Box::new(())),
                t,
                allow_dup,
                r,
            ),
    {
        match self.insert_column(module, name, Column::composite(t), allow_dup) {
            Ok(_) => Ok(()),
            Err(e) => Err(e),
        }
    }

    /// Declares the column `name` of `module`, of type `t`, that a sort
    /// fills.
    pub fn insert_sorted(&mut self, module: &str, name: &str, t: Type, allow_dup: bool) -> (r:
        Result<(), Error>)
        ensures
            Self::declares(*old(self), *final(self), module@, name@, Kind::Phantom, t, allow_dup, r),
    {
        match self.insert_column(module, name, Column::sorted(t), allow_dup) {
            Ok(_) => Ok(()),
            Err(e) => Err(e),
        }
    }

    /// The names of the columns of the array column `name` over `range`.
    pub open spec fn array_names(name: Seq<char>, range: Seq<usize>) -> Seq<Seq<char>> {
        Seq::new(range.len(), |k: int| Handle::ith_name(name, range[k] as nat))
    }

    /// Whether the `k`-th of `names` is taken in `before` or occurs earlier
    /// among `names`.
    pub open spec fn clashes_at(
        before: ColumnSet,
        module: Seq<char>,
        names: Seq<Seq<char>>,
        k: int,
    ) -> bool {
        before.spec_id(module, names[k]) is Some || names.take(k).contains(names[k])
    }

    /// Whether one of `names` is taken in `before` or occurs twice.
    pub open spec fn array_clash(before: ColumnSet, module: Seq<char>, names: Seq<Seq<char>>) -> bool {
        exists|k: int| 0 <= k < names.len() && #[trigger] Self::clashes_at(before, module, names, k)
    }

    /// What putting an atomic column of type `t`, not filled, under each of
    /// the first `k` of `names` in turn does.
    pub open spec fn array_put(
        before: ColumnSet,
        module: Seq<char>,
        names: Seq<Seq<char>>,
        t: Type,
        allow_dup: bool,
        k: int,
        after: ColumnSet,
    ) -> bool
        decreases k,
    {
        if k <= 0 {
            after == before
        } else {
            0 <= k - 1 < names.len() && exists|prev: ColumnSet, c: Column, id: usize|
                #[trigger] witness((prev, c, id)) && Self::array_put(
                    before,
                    module,
                    names,
                    t,
                    allow_dup,
                    k - 1,
                    prev,
                ) && c.values() is None && c.spilling_of() == 0 && c.kind_of() == Kind::<()>::Atomic
                    && c.type_of() == t && Self::puts(
                    prev,
                    after,
                    module,
                    names[k - 1],
                    c,
                    allow_dup,
                    Ok(id),
                )
        }
    }

    /// What declaring the array column `name` of `module` over `range`
    /// does: an atomic column of type `t`, not filled, is put under the
    /// name of each of its columns in turn. It fails at the first of these
    /// names that is taken or occurs twice, unless `allow_dup` is set; the
    /// columns put before that stay. No other name is touched.
    pub open spec fn declares_array(
        before: ColumnSet,
        after: ColumnSet,
        module: Seq<char>,
        name: Seq<char>,
        t: Type,
        range: Seq<usize>,
        allow_dup: bool,
        r: Result<(), Error>,
    ) -> bool {
        &&& r is Err <==> !allow_dup && Self::array_clash(
            before,
            module,
            Self::array_names(name, range),
        )
        &&& r matches Err(e) ==> e == Error::DuplicateSymbol
        &&& r is Ok ==> forall|k: int|
            0 <= k < range.len() ==> #[trigger] after.declared(
                module,
                Self::array_names(name, range)[k],
                Kind::Atomic,
                t,
            )
        &&& forall|m: Seq<char>, n: Seq<char>|
            (m != module || !Self::array_names(name, range).contains(n)) ==> after.spec_id(m, n)
                == before.spec_id(m, n)
        &&& forall|m: Seq<char>| after.raw_len_of(m) == before.raw_len_of(m)
        &&& exists|k: int|
            #[trigger] witness(k) && 0 <= k <= range.len() && (r is Ok <==> k == range.len())
                && Self::array_put(
                before,
                module,
                Self::array_names(name, range),
                t,
                allow_dup,
                k,
                after,
            ) && (r is Err ==> Self::clashes_at(
                before,
                module,
                Self::array_names(name, range),
                k,
            ))
    }

    /// Declares the array column `name` of `module` over `range`: one atomic
    /// column of type `t` for each index of `range`, named after the array
    /// and the index. Unless `allow_dup` is set, this fails as soon as one of
    /// these names is taken.
    pub fn insert_array(
        &mut self,
        module: &str,
        name: &str,
        t: Type,
        range: &[usize],
        allow_dup: bool,
    ) -> (r: Result<(), Error>)
        ensures
            Self::declares_array(*old(self), *final(self), module@, name@, t, range@, allow_dup, r),
    {
        let ghost names = Self::array_names(name@, range@);
        let ghost before = *self;
        let base = Handle::new(module, name);
        let mut k: usize = 0;
        while k < range.len()
            invariant
                k <= range.len(),
                before == *old(self),
                names == Self::array_names(name@, range@),
                base@.name == name@,
                !allow_dup ==> forall|j: int|
                    0 <= j < k ==> !#[trigger] Self::clashes_at(before, module@, names, j),
                forall|j: int|
                    0 <= j < k ==> #[trigger] self.declared(module@, names[j], Kind::Atomic, t),
                forall|m: Seq<char>, n: Seq<char>|
                    (m != module@ || !names.take(k as int).contains(n)) ==> self.spec_id(m, n)
                        == before.spec_id(m, n),
                forall|m: Seq<char>| self.raw_len_of(m) == before.raw_len_of(m),
                Self::array_put(before, module@, names, t, allow_dup, k as int, *self),
            decreases range.len() - k,
        {
            let h = base.ith(range[k]);
            assert(h@.name == names[k as int]);
            let ghost prev = *self;
            proof {
                use_type_invariant(&*self);
            }
            let c = Column::new(Kind::Atomic, t);
            let ghost put = c;
            match self.insert_column(module, h.name.as_str(), c, allow_dup) {
                Err(e) => {
                    proof {
                        assert(witness(k as int));
                        if !names.take(k as int).contains(names[k as int]) {
                            assert(before.spec_id(module@, names[k as int]) is Some);
                        }
                        assert(Self::clashes_at(before, module@, names, k as int));
                        assert forall|m: Seq<char>, n: Seq<char>|
                            (m != module@ || !names.contains(n)) implies self.spec_id(m, n)
                            == before.spec_id(m, n) by {
                            if m == module@ && names.take(k as int).contains(n) {
                                let j = choose|j: int|
                                    0 <= j < names.take(k as int).len() && names.take(k as int)[j]
                                        == n;
                                assert(names[j] == n);
                            }
                        }
                    }
                    return Err(e);
                },
                Ok(id) => {
                    proof {
                        assert(witness((prev, put, id)));
                        assert(names[(k + 1) - 1] == names[k as int]);
                        assert(names.take(k + 1).drop_last() =~= names.take(k as int));
                        assert(names.take(k + 1).last() == names[k as int]);
                        assert forall|m: Seq<char>, n: Seq<char>|
                            (m != module@ || !names.take(k + 1).contains(n)) implies self.spec_id(
                            m,
                            n,
                        ) == before.spec_id(m, n) by {
                            if m == module@ {
                                assert(names.take(k + 1)[k as int] == names[k as int]);
                                assert(n != names[k as int]);
                                if names.take(k as int).contains(n) {
                                    let j = choose|j: int|
                                        0 <= j < names.take(k as int).len() && names.take(
                                            k as int,
                                        )[j] == n;
                                    assert(names.take(k + 1)[j] == n);
                                }
                            }
                        }
                        assert forall|j: int| 0 <= j < k + 1 implies #[trigger] self.declared(
                            module@,
                            names[j],
                            Kind::Atomic,
                            t,
                        ) by {
                            if j < k && names[j] != names[k as int] {
                                assert(prev.declared(module@, names[j], Kind::Atomic, t));
                                let i2 = prev.spec_id(module@, names[j])->0;
                                prev.lemma_ids_in_range(module@, names[j]);
                                assert(self.spec_id(module@, names[j]) == Some(i2));
                            }
                        }
                        if !allow_dup {
                            assert(prev.spec_id(module@, names[k as int]) is None);
                            if names.take(k as int).contains(names[k as int]) {
                                let j = choose|j: int|
                                    0 <= j < names.take(k as int).len() && names.take(k as int)[j]
                                        == names[k as int];
                                assert(names[j] == names[k as int]);
                                assert(prev.declared(module@, names[j], Kind::Atomic, t));
                                assert(prev.spec_id(module@, names[j]) is Some);
                            }
                            assert(!Self::clashes_at(before, module@, names, k as int));
                        }
                    }
                },
            }
            k = k + 1;
        }
        proof {
            assert(names.take(k as int) =~= names);
            assert(witness(k as int));
        }
        Ok(())
    }
}

impl ColumnSource for ColumnSet {
    open spec fn read(&self, h: HandleView, i: int, wrap: bool) -> Option<nat> {
        match h.id {
            Some(id) => if id < self.spec_len() {
                self.column_at(id as int).read(i, wrap)
            } else {
                None
            },
            None => None,
        }
    }

    fn get(&self, h: &Handle, i: isize, wrap: bool) -> (r: Option<Fr>) {
        match h.id {
            Some(id) => if id < self.len() {
                match self.column(id).get(i, wrap) {
                    Some(x) => Some(*x),
                    None => None,
                }
            } else {
                None
            },
            None => None,
        }
    }
}

} // verus!
