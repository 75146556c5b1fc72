//! The symbol table, the table of computations, and the pass that fills
//! them from the declarations of a program.

use crate::column::{computation_with_ids, ColumnSet, Computation, ComputationView};
use crate::compiler::common::{witness, Form, Handle, HandleView};
use crate::compiler::generator::{
    Builtin, Defined, Function, FunctionClass, FunctionClassView, FunctionView,
};
use crate::compiler::node::{
    handle_views, Expression, ExpressionView, Kind, KindView, Node, NodeView,
};
use crate::compiler::parser::{Ast, AstNode, Token};
use crate::compiler::types::{Magma, Type};
use crate::dict::{Dict, HandleMap};
use crate::errors::Error;
use crate::integer::Integer;
use vstd::prelude::*;
use vstd::string::*;

verus! {

/// The computations of a program, and for each derived column the index of
/// the computation that fills it.
pub struct ComputationTable {
    dependencies: HandleMap<usize>,
    computations: Vec<Computation>,
}

impl ComputationTable {
    /// Every target is filled by a computation of the table.
    #[verifier::type_invariant]
    pub closed spec fn wf(self) -> bool {
        forall|m: Seq<char>, n: Seq<char>|
            (#[trigger] self.dependencies.lookup(m, n)) matches Some(i) ==> i
                < self.computations@.len()
    }

    /// The number of computations.
    pub closed spec fn spec_len(self) -> nat {
        self.computations@.len()
    }

    /// The computation of index `i`.
    pub closed spec fn computation_at(self, i: int) -> Computation {
        self.computations@[i]
    }

    /// The index of the computation that fills the column `name` of
    /// `module`, if there is one.
    pub closed spec fn index_for(self, module: Seq<char>, name: Seq<char>) -> Option<usize> {
        self.dependencies.lookup(module, name)
    }

    /// The index of the computation of a target is the index of a
    /// computation.
    pub proof fn lemma_index_in_range(self, module: Seq<char>, name: Seq<char>)
        requires
            self.wf(),
        ensures
            self.index_for(module, name) matches Some(i) ==> i < self.spec_len(),
    {
    }

    /// The table without computation.
    pub fn new() -> (r: ComputationTable)
        ensures
            r.spec_len() == 0,
            forall|m: Seq<char>, n: Seq<char>| r.index_for(m, n) is None,
    {
        ComputationTable { dependencies: HandleMap::new(), computations: Vec::new() }
    }

    /// Gives each handle of each computation that names a column of `cs`
    /// the index of that column as its id.
    pub fn update_ids(&mut self, cs: &ColumnSet)
        ensures
            final(self).spec_len() == old(self).spec_len(),
            forall|m: Seq<char>, n: Seq<char>| final(self).index_for(m, n) == old(self).index_for(m, n),
            forall|i: int|
                0 <= i < old(self).spec_len() ==> (#[trigger] final(self).computation_at(i))@
                    == computation_with_ids(old(self).computation_at(i)@, *cs),
    {
        proof {
            use_type_invariant(&*self);
        }
        let mut taken = ComputationTable { dependencies: HandleMap::new(), computations: Vec::new() };
        core::mem::swap(self, &mut taken);
        let ComputationTable { dependencies, computations: mut computations } = taken;
        let ghost before = computations@;
        let mut i: usize = 0;
        while i < computations.len()
            invariant
                i <= computations.len(),
                computations@.len() == before.len(),
                forall|j: int|
                    0 <= j < i ==> (#[trigger] computations@[j])@ == computation_with_ids(
                        before[j]@,
                        *cs,
                    ),
                forall|j: int| i <= j < before.len() ==> #[trigger] computations@[j] == before[j],
            decreases computations.len() - i,
        {
            let mut c = Computation::Sorted { froms: Vec::new(), tos: Vec::new() };
            core::mem::swap(&mut computations[i], &mut c);
            c.add_id_to_handles(cs);
            core::mem::swap(&mut computations[i], &mut c);
            i = i + 1;
        }
        *self = ComputationTable { dependencies, computations };
    }

    /// The index of the computation that fills the column that `target`
    /// names, if there is one.
    pub fn dependencies(&self, target: &Handle) -> (r: Option<usize>)
        ensures
            r == self.index_for(target@.module, target@.name),
            r matches Some(i) ==> i < self.spec_len(),
    {
        proof {
            use_type_invariant(self);
        }
        match self.dependencies.get(target.module.as_str(), target.name.as_str()) {
            Some(i) => Some(*i),
            None => None,
        }
    }

    /// The computation of index `i`, if there is one.
    pub fn get(&self, i: usize) -> (r: Option<&Computation>)
        ensures
            match r {
                Some(c) => i < self.spec_len() && *c == self.computation_at(i as int),
                None => i >= self.spec_len(),
            },
    {
        if i < self.computations.len() {
            Some(&self.computations[i])
        } else {
            None
        }
    }

    /// The computations, in the order in which they were inserted.
    pub closed spec fn iter_spec(self) -> Seq<Computation> {
        self.computations@
    }

    /// The computations, in the order in which they were inserted.
    pub fn iter(&self) -> (r: &Vec<Computation>)
        ensures
            r@ == self.iter_spec(),
            r@.len() == self.spec_len(),
            forall|i: int| 0 <= i < r@.len() ==> #[trigger] r@[i] == self.computation_at(i),
    {
        &self.computations
    }

    /// The number of computations.
    pub fn len(&self) -> (r: usize)
        ensures
            r == self.spec_len(),
    {
        self.computations.len()
    }

    /// What recording that the computation `c` fills the column `target`
    /// does: where nothing fills the column yet the computation comes
    /// last and fills it; where something does, an error is returned. The
    /// computations that were there stay, and fill what they filled.
    pub open spec fn inserts(
        before: ComputationTable,
        after: ComputationTable,
        target: HandleView,
        c: Computation,
        r: Result<(), Error>,
    ) -> bool {
        &&& match r {
            Ok(_) => before.index_for(target.module, target.name) is None && after.spec_len()
                == before.spec_len() + 1 && after.computation_at(before.spec_len() as int) == c
                && after.index_for(target.module, target.name) == Some(before.spec_len() as usize),
            Err(e) => before.index_for(target.module, target.name) is Some && e
                == Error::DuplicateTarget && after.spec_len() == before.spec_len()
                && after.index_for(target.module, target.name) == before.index_for(
                target.module,
                target.name,
            ),
        }
        &&& forall|i: int|
            0 <= i < before.spec_len() ==> #[trigger] after.computation_at(i)
                == before.computation_at(i)
        &&& forall|m: Seq<char>, n: Seq<char>|
            (m != target.module || n != target.name) ==> after.index_for(m, n) == before.index_for(
                m,
                n,
            )
    }

    /// Records that `computation` fills the column that `target` names. A
    /// column has one computation at most: a second one is refused.
    pub fn insert(&mut self, target: &Handle, computation: Computation) -> (r: Result<(), Error>)
        ensures
            Self::inserts(*old(self), *final(self), target@, computation, r),
    {
        proof {
            use_type_invariant(&*self);
        }
        if self.dependencies.contains(target.module.as_str(), target.name.as_str()) {
            return Err(Error::DuplicateTarget);
        }
        let mut taken = ComputationTable { dependencies: HandleMap::new(), computations: Vec::new() };
        core::mem::swap(self, &mut taken);
        let ComputationTable { dependencies: mut dependencies, computations: mut computations } =
            taken;
        let i = computations.len();
        computations.push(computation);
        dependencies.insert(target.module.as_str(), target.name.as_str(), i);
        *self = ComputationTable { dependencies, computations };
        Ok(())
    }

    /// Whether `h` is the module and name of one of `targets`.
    pub open spec fn among(targets: Seq<Handle>, m: Seq<char>, n: Seq<char>) -> bool {
        exists|k: int| 0 <= k < targets.len() && (#[trigger] targets[k])@.key() == (m, n)
    }

    /// What recording that the computation `c` fills the columns that
    /// `targets` name does: the computation comes last, and fills those
    /// columns in the place of what filled them before.
    pub open spec fn records(
        before: ComputationTable,
        after: ComputationTable,
        targets: Seq<Handle>,
        c: ComputationView,
    ) -> bool {
        &&& after.spec_len() == before.spec_len() + 1
        &&& after.computation_at(before.spec_len() as int)@ == c
        &&& forall|i: int|
            0 <= i < before.spec_len() ==> #[trigger] after.computation_at(i)
                == before.computation_at(i)
        &&& forall|m: Seq<char>, n: Seq<char>|
            #[trigger] after.index_for(m, n) == if Self::among(targets, m, n) {
                Some(before.spec_len() as usize)
            } else {
                before.index_for(m, n)
            }
    }

    /// Records that `computation` fills all the columns that `targets`
    /// name, in the place of what filled them before.
    pub fn insert_many(&mut self, targets: &[Handle], computation: Computation) -> (r: Result<
        (),
        Error,
    >)
        ensures
            r is Ok,
            final(self).computation_at(old(self).spec_len() as int) == computation,
            Self::records(*old(self), *final(self), targets@, computation@),
    {
        proof {
            use_type_invariant(&*self);
        }
        let mut taken = ComputationTable { dependencies: HandleMap::new(), computations: Vec::new() };
        core::mem::swap(self, &mut taken);
        let ComputationTable { dependencies: mut dependencies, computations: mut computations } =
            taken;
        let ghost before = dependencies;
        let i = computations.len();
        computations.push(computation);
        let mut k: usize = 0;
        while k < targets.len()
            invariant
                k <= targets.len(),
                forall|m: Seq<char>, n: Seq<char>|
                    #[trigger] dependencies.lookup(m, n) == if Self::among(
                        targets@.take(k as int),
                        m,
                        n,
                    ) {
                        Some(i)
                    } else {
                        before.lookup(m, n)
                    },
            decreases targets.len() - k,
        {
            let ghost prev = dependencies;
            dependencies.insert(targets[k].module.as_str(), targets[k].name.as_str(), i);
            proof {
                let t = targets@.take(k as int);
                let t2 = targets@.take(k + 1);
                assert forall|m: Seq<char>, n: Seq<char>|
                    #[trigger] dependencies.lookup(m, n) == if Self::among(t2, m, n) {
                        Some(i)
                    } else {
                        before.lookup(m, n)
                    } by {
                    if Self::among(t, m, n) {
                        let j = choose|j: int| 0 <= j < t.len() && (#[trigger] t[j])@.key() == (m, n);
                        assert(t2[j]@.key() == (m, n));
                    }
                    if (m, n) == targets@[k as int]@.key() {
                        assert(t2[k as int]@.key() == (m, n));
                    }
                    if Self::among(t2, m, n) {
                        let j = choose|j: int|
                            0 <= j < t2.len() && (#[trigger] t2[j])@.key() == (m, n);
                        if j < k {
                            assert(t[j]@.key() == (m, n));
                        }
                    }
                    assert(prev.lookup(m, n) == if Self::among(t, m, n) {
                        Some(i)
                    } else {
                        before.lookup(m, n)
                    });
                }
            }
            k = k + 1;
        }
        proof {
            assert(targets@.take(k as int) =~= targets@);
        }
        *self = ComputationTable { dependencies, computations };
        Ok(())
    }

    /// The computation that fills the column that `target` names, if there
    /// is one.
    pub fn computation_for(&self, target: &Handle) -> (r: Option<&Computation>)
        ensures
            match r {
                Some(c) => self.index_for(target@.module, target@.name) matches Some(i) && *c
                    == self.computation_at(i as int),
                None => self.index_for(target@.module, target@.name) is None,
            },
    {
        match self.dependencies(target) {
            Some(i) => Some(&self.computations[i]),
            None => None,
        }
    }
}

/// What a name of a scope stands for.
pub enum Symbol {
    /// Another name, to be looked up in its place.
    Alias(String),
    /// An expression, and whether it has been used.
    Final(Node, bool),
}

/// A scope: the names that are bound in it, and its place in the tree of
/// scopes.
pub struct Scope {
    /// Whether the scope hides from what it contains the symbols of its
    /// ancestors that are not constants.
    pub closed: bool,
    pub name: String,
    pub pretty_name: String,
    /// The index of the scope that contains this one; none for the root.
    pub parent: Option<usize>,
    /// The indices of the scopes that this one contains, by their names.
    pub children: Dict<usize>,
    /// The names of the constraints declared in the scope.
    pub constraints: Dict<()>,
    pub funcs: Dict<Function>,
    pub symbols: Dict<Symbol>,
}

/// The tree of the scopes of a program, held in a vector: the root is the
/// first scope, and every scope comes after the scope that contains it.
pub struct SymbolTable {
    pub scopes: Vec<Scope>,
    pub computation_table: ComputationTable,
}

/// The name of the root scope.
pub open spec fn main_module() -> Seq<char> {
    "<prelude>"@
}

/// What the name of a primitive stands for.
pub open spec fn primitive(name: Seq<char>) -> Option<FunctionClass> {
    if name == "for"@ {
        Some(FunctionClass::SpecialForm(Form::For))
    } else if name == "debug"@ {
        Some(FunctionClass::SpecialForm(Form::Debug))
    } else if name == "let"@ {
        Some(FunctionClass::SpecialForm(Form::Let))
    } else if name == "nth"@ {
        Some(FunctionClass::Builtin(Builtin::Nth))
    } else if name == "len"@ {
        Some(FunctionClass::Builtin(Builtin::Len))
    } else if name == "inv"@ {
        Some(FunctionClass::Builtin(Builtin::Inv))
    } else if name == "neg"@ {
        Some(FunctionClass::Builtin(Builtin::Neg))
    } else if name == "not"@ {
        Some(FunctionClass::Builtin(Builtin::Not))
    } else if name == "eq"@ {
        Some(FunctionClass::Builtin(Builtin::Eq))
    } else if name == "shift"@ {
        Some(FunctionClass::Builtin(Builtin::Shift))
    } else if name == "+"@ {
        Some(FunctionClass::Builtin(Builtin::Add))
    } else if name == "*"@ {
        Some(FunctionClass::Builtin(Builtin::Mul))
    } else if name == "^"@ {
        Some(FunctionClass::Builtin(Builtin::Exp))
    } else if name == "-"@ {
        Some(FunctionClass::Builtin(Builtin::Sub))
    } else if name == "begin"@ {
        Some(FunctionClass::Builtin(Builtin::Begin))
    } else if name == "if-zero"@ {
        Some(FunctionClass::Builtin(Builtin::IfZero))
    } else if name == "if-not-zero"@ {
        Some(FunctionClass::Builtin(Builtin::IfNotZero))
    } else {
        None
    }
}

fn register(funcs: &mut Dict<Function>, name: &str, class: FunctionClass)
    requires
        !old(funcs).contains(name@),
    ensures
        final(funcs).lookup(name@) matches Some(f) && f.class == class && f.handle@ == (HandleView {
            module: main_module(),
            name: name@,
            id: None,
        }),
        forall|k: Seq<char>| k != name@ ==> final(funcs).lookup(k) == old(funcs).lookup(k),
        forall|k: Seq<char>| final(funcs).contains(k) == (old(funcs).contains(k) || k == name@),
{
    let f = Function { handle: Handle::new("<prelude>", name), class };
    funcs.insert(name.to_owned(), f);
}

impl Scope {
    /// A scope without symbols.
    pub fn new(closed: bool, name: &str, pretty_name: &str, parent: Option<usize>) -> (r: Scope)
        ensures
            r.closed == closed,
            r.name@ == name@,
            r.pretty_name@ == pretty_name@,
            r.parent == parent,
            forall|k: Seq<char>| !r.children.contains(k),
            forall|k: Seq<char>| !r.constraints.contains(k),
            forall|k: Seq<char>| !r.funcs.contains(k),
            forall|k: Seq<char>| !r.symbols.contains(k),
    {
        Scope {
            closed,
            name: name.to_owned(),
            pretty_name: pretty_name.to_owned(),
            parent,
            children: Dict::new(),
            constraints: Dict::new(),
            funcs: Dict::new(),
            symbols: Dict::new(),
        }
    }
}

impl SymbolTable {
    /// The scopes form a tree rooted in the first of them: every other
    /// scope comes after the scope that contains it, which knows it by its
    /// name.
    pub open spec fn wf(self) -> bool {
        &&& self.scopes@.len() > 0
        &&& self.scopes@[0].parent is None
        &&& forall|i: int|
            0 <= i < self.scopes@.len() ==> ((#[trigger] self.scopes@[i]).parent matches Some(p)
                ==> p < i)
        &&& forall|i: int, k: Seq<char>|
            0 <= i < self.scopes@.len() ==> ((#[trigger] self.scopes@[i].children.lookup(k))
                matches Some(c) ==> i < c < self.scopes@.len() && self.scopes@[c as int].parent
                == Some(i as usize))
    }

    /// What holds of a table in which only the scope `scope` may have
    /// changed, and of that scope only what it binds.
    pub open spec fn same_but(before: SymbolTable, after: SymbolTable, scope: int) -> bool {
        &&& after.scopes@.len() == before.scopes@.len()
        &&& after.computation_table == before.computation_table
        &&& forall|j: int|
            0 <= j < before.scopes@.len() && j != scope ==> #[trigger] after.scopes@[j]
                == before.scopes@[j]
        &&& after.scopes@[scope].closed == before.scopes@[scope].closed
        &&& after.scopes@[scope].name == before.scopes@[scope].name
        &&& after.scopes@[scope].pretty_name == before.scopes@[scope].pretty_name
        &&& after.scopes@[scope].parent == before.scopes@[scope].parent
        &&& after.scopes@[scope].children == before.scopes@[scope].children
    }

    /// Whether the table is that of a program that has declared nothing:
    /// one closed scope, which binds the primitives and nothing else, and no
    /// computation.
    pub open spec fn is_root(self) -> bool {
        &&& self.wf()
        &&& self.scopes@.len() == 1
        &&& self.scopes@[0].closed
        &&& self.scopes@[0].name@ == main_module()
        &&& self.scopes@[0].pretty_name@.len() == 0
        &&& self.computation_table.spec_len() == 0
        &&& forall|m: Seq<char>, n: Seq<char>| self.computation_table.index_for(m, n) is None
        &&& forall|k: Seq<char>| !self.scopes@[0].symbols.contains(k)
        &&& forall|k: Seq<char>| !self.scopes@[0].constraints.contains(k)
        &&& forall|k: Seq<char>| !self.scopes@[0].children.contains(k)
        &&& forall|k: Seq<char>|
            match primitive(k) {
                Some(class) => (#[trigger] self.scopes@[0].funcs.lookup(k)) matches Some(f)
                    && f.class == class && f.handle@ == (HandleView {
                    module: main_module(),
                    name: k,
                    id: None,
                }),
                None => self.scopes@[0].funcs.lookup(k) is None,
            }
    }

    /// The table of a program that has declared nothing: one closed scope,
    /// which binds the primitives.
    pub fn new_root() -> (r: SymbolTable)
        ensures
            r.is_root(),
    {
        proof {
            reveal_strlit("for");
            reveal_strlit("debug");
            reveal_strlit("let");
            reveal_strlit("nth");
            reveal_strlit("len");
            reveal_strlit("inv");
            reveal_strlit("neg");
            reveal_strlit("not");
            reveal_strlit("eq");
            reveal_strlit("shift");
            reveal_strlit("+");
            reveal_strlit("*");
            reveal_strlit("^");
            reveal_strlit("-");
            reveal_strlit("begin");
            reveal_strlit("if-zero");
            reveal_strlit("if-not-zero");
            reveal_strlit("");
            assert("for"@.len() == 3);
            assert("for"@[0] == 'f');
            assert("for"@[1] == 'o');
            assert("for"@[2] == 'r');
            assert("debug"@.len() == 5);
            assert("debug"@[0] == 'd');
            assert("let"@.len() == 3);
            assert("let"@[0] == 'l');
            assert("let"@[1] == 'e');
            assert("let"@[2] == 't');
            assert("nth"@.len() == 3);
            assert("nth"@[0] == 'n');
            assert("nth"@[1] == 't');
            assert("nth"@[2] == 'h');
            assert("len"@.len() == 3);
            assert("len"@[0] == 'l');
            assert("len"@[1] == 'e');
            assert("len"@[2] == 'n');
            assert("inv"@.len() == 3);
            assert("inv"@[0] == 'i');
            assert("inv"@[1] == 'n');
            assert("inv"@[2] == 'v');
            assert("neg"@.len() == 3);
            assert("neg"@[0] == 'n');
            assert("neg"@[1] == 'e');
            assert("neg"@[2] == 'g');
            assert("not"@.len() == 3);
            assert("not"@[0] == 'n');
            assert("not"@[1] == 'o');
            assert("not"@[2] == 't');
            assert("eq"@.len() == 2);
            assert("eq"@[0] == 'e');
            assert("shift"@.len() == 5);
            assert("shift"@[0] == 's');
            assert("+"@.len() == 1);
            assert("+"@[0] == '+');
            assert("*"@.len() == 1);
            assert("*"@[0] == '*');
            assert("^"@.len() == 1);
            assert("^"@[0] == '^');
            assert("-"@.len() == 1);
            assert("-"@[0] == '-');
            assert("begin"@.len() == 5);
            assert("begin"@[0] == 'b');
            assert("if-zero"@.len() == 7);
            assert("if-zero"@[0] == 'i');
            assert("if-not-zero"@.len() == 11);
            assert("if-not-zero"@[0] == 'i');
        }
        let mut root = Scope::new(true, "<prelude>", "", None);
        let mut funcs: Dict<Function> = Dict::new();
        register(&mut funcs, "for", FunctionClass::SpecialForm(Form::For));
        register(&mut funcs, "debug", FunctionClass::SpecialForm(Form::Debug));
        register(&mut funcs, "let", FunctionClass::SpecialForm(Form::Let));
        register(&mut funcs, "nth", FunctionClass::Builtin(Builtin::Nth));
        register(&mut funcs, "len", FunctionClass::Builtin(Builtin::Len));
        register(&mut funcs, "inv", FunctionClass::Builtin(Builtin::Inv));
        register(&mut funcs, "neg", FunctionClass::Builtin(Builtin::Neg));
        register(&mut funcs, "not", FunctionClass::Builtin(Builtin::Not));
        register(&mut funcs, "eq", FunctionClass::Builtin(Builtin::Eq));
        register(&mut funcs, "shift", FunctionClass::Builtin(Builtin::Shift));
        register(&mut funcs, "+", FunctionClass::Builtin(Builtin::Add));
        register(&mut funcs, "*", FunctionClass::Builtin(Builtin::Mul));
        register(&mut funcs, "^", FunctionClass::Builtin(Builtin::Exp));
        register(&mut funcs, "-", FunctionClass::Builtin(Builtin::Sub));
        register(&mut funcs, "begin", FunctionClass::Builtin(Builtin::Begin));
        register(&mut funcs, "if-zero", FunctionClass::Builtin(Builtin::IfZero));
        register(&mut funcs, "if-not-zero", FunctionClass::Builtin(Builtin::IfNotZero));
        root.funcs = funcs;
        let mut scopes: Vec<Scope> = Vec::new();
        scopes.push(root);
        SymbolTable { scopes, computation_table: ComputationTable::new() }
    }

    /// What asking `before` for the scope called `name` that `parent`
    /// contains gives: the scope it has, and the table is left as it is; or
    /// else a new scope, after all others, without symbols, that `parent`
    /// from then on knows by its name.
    pub open spec fn derives(
        before: SymbolTable,
        after: SymbolTable,
        parent: usize,
        name: Seq<char>,
        pretty_name: Seq<char>,
        closed: bool,
        r: usize,
    ) -> bool {
        &&& after.computation_table == before.computation_table
        &&& match before.scopes@[parent as int].children.lookup(name) {
            Some(c) => r == c && after.scopes@ == before.scopes@,
            None => {
                &&& r == before.scopes@.len()
                &&& after.scopes@.len() == r + 1
                &&& Self::same_scopes_but(before, after, parent as int)
                &&& after.scopes@[parent as int].children.lookup(name) == Some(r)
                &&& forall|k: Seq<char>|
                    k != name ==> after.scopes@[parent as int].children.lookup(k)
                        == before.scopes@[parent as int].children.lookup(k)
                &&& after.scopes@[r as int].closed == closed
                &&& after.scopes@[r as int].name@ == name
                &&& after.scopes@[r as int].pretty_name@ == pretty_name
                &&& after.scopes@[r as int].parent == Some(parent)
                &&& forall|k: Seq<char>| !after.scopes@[r as int].children.contains(k)
                &&& forall|k: Seq<char>| !after.scopes@[r as int].constraints.contains(k)
                &&& forall|k: Seq<char>| !after.scopes@[r as int].funcs.contains(k)
                &&& forall|k: Seq<char>| !after.scopes@[r as int].symbols.contains(k)
            },
        }
    }

    /// The scope called `name` that `parent` contains: the one it has, or
    /// else a new one, without symbols, made for the occasion.
    pub fn derived(&mut self, parent: usize, name: &str, pretty_name: &str, closed: bool) -> (r:
        usize)
        requires
            old(self).wf(),
            parent < old(self).scopes@.len(),
        ensures
            final(self).wf(),
            r < final(self).scopes@.len(),
            final(self).scopes@.len() >= old(self).scopes@.len(),
            Self::derives(*old(self), *final(self), parent, name@, pretty_name@, closed, r),
    {
        match self.scopes[parent].children.get(name) {
            Some(c) => {
                return *c;
            },
            None => {},
        }
        let r = self.scopes.len();
        let ghost before = *self;
        self.scopes[parent].children.insert(name.to_owned(), r);
        self.scopes.push(Scope::new(closed, name, pretty_name, Some(parent)));
        proof {
            assert forall|i: int, k: Seq<char>| 0 <= i < self.scopes@.len() implies ((
            #[trigger] self.scopes@[i].children.lookup(k)) matches Some(c) ==> i < c
                < self.scopes@.len() && self.scopes@[c as int].parent == Some(i as usize)) by {
                if i == r {
                    assert(!self.scopes@[i].children.contains(k));
                } else if i == parent {
                    if k != name@ {
                        assert(self.scopes@[i].children.lookup(k) == before.scopes@[i].children.lookup(
                            k,
                        ));
                    }
                } else {
                    assert(self.scopes@[i] == before.scopes@[i]);
                    assert(self.scopes@[i].children.lookup(k) == before.scopes@[i].children.lookup(
                        k,
                    ));
                }
            }
        }
        r
    }

    /// What holds of a table whose scopes up to those of `before` are those
    /// of `before`, but for the children of the scope `scope`.
    pub open spec fn same_scopes_but(before: SymbolTable, after: SymbolTable, scope: int) -> bool {
        &&& after.scopes@.len() >= before.scopes@.len()
        &&& forall|j: int|
            0 <= j < before.scopes@.len() && j != scope ==> #[trigger] after.scopes@[j]
                == before.scopes@[j]
        &&& after.scopes@[scope].closed == before.scopes@[scope].closed
        &&& after.scopes@[scope].name == before.scopes@[scope].name
        &&& after.scopes@[scope].pretty_name == before.scopes@[scope].pretty_name
        &&& after.scopes@[scope].parent == before.scopes@[scope].parent
        &&& after.scopes@[scope].symbols == before.scopes@[scope].symbols
        &&& after.scopes@[scope].funcs == before.scopes@[scope].funcs
        &&& after.scopes@[scope].constraints == before.scopes@[scope].constraints
    }

    /// What declaring the constraint `name` in the scope `scope` does:
    /// where the name is free it is taken, and nothing else changes; where
    /// it is taken nothing changes at all.
    pub open spec fn constrains(
        before: SymbolTable,
        after: SymbolTable,
        scope: int,
        name: Seq<char>,
        r: Result<(), Error>,
    ) -> bool {
        match r {
            Ok(_) => {
                &&& !before.scopes@[scope].constraints.contains(name)
                &&& Self::same_but(before, after, scope)
                &&& after.scopes@[scope].symbols == before.scopes@[scope].symbols
                &&& after.scopes@[scope].funcs == before.scopes@[scope].funcs
                &&& forall|k: Seq<char>|
                    after.scopes@[scope].constraints.contains(k) == (
                    before.scopes@[scope].constraints.contains(k) || k == name)
            },
            Err(e) => before.scopes@[scope].constraints.contains(name) && e
                == Error::DuplicateConstraint && after == before,
        }
    }

    /// Declares the constraint `name` in `scope`; a second constraint of
    /// the same name is refused.
    pub fn insert_constraint(&mut self, scope: usize, name: &str) -> (r: Result<(), Error>)
        requires
            scope < old(self).scopes@.len(),
        ensures
            old(self).wf() ==> final(self).wf(),
            final(self).scopes@.len() == old(self).scopes@.len(),
            Self::same_but(*old(self), *final(self), scope as int),
            Self::constrains(*old(self), *final(self), scope as int, name@, r),
    {
        let ghost before = *self;
        if self.scopes[scope].constraints.contains_key(name) {
            Err(Error::DuplicateConstraint)
        } else {
            self.scopes[scope].constraints.insert(name.to_owned(), ());
            proof {
                if before.wf() {
                    Self::lemma_same_but_wf(before, *self, scope as int);
                }
            }
            Ok(())
        }
    }

    /// What binding `name` to `symbol` in the scope `scope` does to a table
    /// in which `name` was free: nothing else changes.
    pub open spec fn binds(
        before: SymbolTable,
        after: SymbolTable,
        scope: int,
        name: Seq<char>,
        symbol: Symbol,
    ) -> bool {
        &&& Self::same_but(before, after, scope)
        &&& after.scopes@[scope].funcs == before.scopes@[scope].funcs
        &&& after.scopes@[scope].constraints == before.scopes@[scope].constraints
        &&& after.scopes@[scope].symbols.lookup(name) == Some(symbol)
        &&& forall|k: Seq<char>|
            k != name ==> after.scopes@[scope].symbols.lookup(k)
                == before.scopes@[scope].symbols.lookup(k)
    }

    /// What binding the function `name` to `f` in the scope `scope` does to
    /// a table in which `name` was free: nothing else changes.
    pub open spec fn binds_function(
        before: SymbolTable,
        after: SymbolTable,
        scope: int,
        name: Seq<char>,
        f: Function,
    ) -> bool {
        &&& Self::same_but(before, after, scope)
        &&& after.scopes@[scope].symbols == before.scopes@[scope].symbols
        &&& after.scopes@[scope].constraints == before.scopes@[scope].constraints
        &&& after.scopes@[scope].funcs.lookup(name) == Some(f)
        &&& forall|k: Seq<char>|
            k != name ==> after.scopes@[scope].funcs.lookup(k)
                == before.scopes@[scope].funcs.lookup(k)
    }

    fn bind(&mut self, scope: usize, name: &str, symbol: Symbol) -> (r: Result<(), Error>)
        requires
            scope < old(self).scopes@.len(),
        ensures
            old(self).wf() ==> final(self).wf(),
            final(self).scopes@.len() == old(self).scopes@.len(),
            match r {
                Ok(_) => !old(self).scopes@[scope as int].symbols.contains(name@) && Self::binds(
                    *old(self),
                    *final(self),
                    scope as int,
                    name@,
                    symbol,
                ),
                Err(e) => old(self).scopes@[scope as int].symbols.contains(name@) && e
                    == Error::DuplicateSymbol && *final(self) == *old(self),
            },
    {
        let ghost before = *self;
        if self.scopes[scope].symbols.contains_key(name) {
            Err(Error::DuplicateSymbol)
        } else {
            self.scopes[scope].symbols.insert(name.to_owned(), symbol);
            proof {
                if before.wf() {
                    Self::lemma_same_but_wf(before, *self, scope as int);
                }
            }
            Ok(())
        }
    }

    /// What binding `name` to the expression `e` in `scope` does: where the
    /// name is free the expression is bound, not used yet, and nothing else
    /// changes; where it is taken nothing changes at all.
    pub open spec fn inserts(
        before: SymbolTable,
        after: SymbolTable,
        scope: usize,
        name: Seq<char>,
        e: Node,
        r: Result<(), Error>,
    ) -> bool {
        match r {
            Ok(_) => !before.scopes@[scope as int].symbols.contains(name) && Self::binds(
                before,
                after,
                scope as int,
                name,
                Symbol::Final(e, false),
            ),
            Err(e) => before.scopes@[scope as int].symbols.contains(name) && e
                == Error::DuplicateSymbol && after == before,
        }
    }

    /// Binds `name` to the expression `e` in `scope`; a name that is bound
    /// there already is refused.
    pub fn insert_symbol(&mut self, scope: usize, name: &str, e: Node) -> (r: Result<(), Error>)
        requires
            scope < old(self).scopes@.len(),
        ensures
            old(self).wf() ==> final(self).wf(),
            final(self).scopes@.len() == old(self).scopes@.len(),
            Self::inserts(*old(self), *final(self), scope, name@, e, r),
    {
        self.bind(scope, name, Symbol::Final(e, false))
    }

    /// What making `from` another name of `to` in the scope `scope` does:
    /// where `from` is free it is bound, and nothing else changes; where it
    /// is taken nothing changes at all.
    pub open spec fn inserts_alias(
        before: SymbolTable,
        after: SymbolTable,
        scope: int,
        from: Seq<char>,
        to: Seq<char>,
        r: Result<(), Error>,
    ) -> bool {
        match r {
            Ok(_) => {
                &&& !before.scopes@[scope].symbols.contains(from)
                &&& after.scopes@[scope].symbols.lookup(from) matches Some(Symbol::Alias(t))
                &&& t@ == to
                &&& Self::binds(before, after, scope, from, Symbol::Alias(t))
            },
            Err(e) => before.scopes@[scope].symbols.contains(from) && e == Error::DuplicateSymbol
                && after == before,
        }
    }

    /// Makes `from` another name of `to` in `scope`; a name that is bound
    /// there already is refused.
    pub fn insert_alias(&mut self, scope: usize, from: &str, to: &str) -> (r: Result<(), Error>)
        requires
            scope < old(self).scopes@.len(),
        ensures
            old(self).wf() ==> final(self).wf(),
            final(self).scopes@.len() == old(self).scopes@.len(),
            Self::inserts_alias(*old(self), *final(self), scope as int, from@, to@, r),
    {
        self.bind(scope, from, Symbol::Alias(to.to_owned()))
    }

    /// What binding the constant `name` to `value` in the scope `scope`
    /// does: where the name is free and the value lies in the field the
    /// constant is bound, not used yet, and nothing else changes; else
    /// nothing changes at all.
    pub open spec fn inserts_constant(
        before: SymbolTable,
        after: SymbolTable,
        scope: usize,
        name: Seq<char>,
        value: int,
        r: Result<(), Error>,
    ) -> bool {
        match r {
            Ok(_) => {
                &&& !before.scopes@[scope as int].symbols.contains(name)
                &&& 0 <= value < crate::field::modulus()
                &&& after.scopes@[scope as int].symbols.lookup(name) matches Some(
                    Symbol::Final(n, used),
                )
                &&& !used
                &&& n@ == (NodeView {
                    e: ExpressionView::Const(value, Some(value as nat)),
                    t: Some(crate::compiler::node::const_type(value)),
                })
                &&& Self::binds(before, after, scope as int, name, Symbol::Final(n, used))
            },
            Err(e) => after == before && if before.scopes@[scope as int].symbols.contains(name) {
                e == Error::DuplicateSymbol
            } else {
                e == Error::NotInField && !(0 <= value < crate::field::modulus())
            },
        }
    }

    /// Binds the constant `name` to `value` in `scope`, typed as a boolean
    /// when it is zero or one. A name that is bound there already is
    /// refused, and so is a value that does not lie in the field.
    pub fn insert_constant(&mut self, scope: usize, name: &str, value: crate::integer::Integer) -> (r:
        Result<(), Error>)
        requires
            scope < old(self).scopes@.len(),
        ensures
            old(self).wf() ==> final(self).wf(),
            final(self).scopes@.len() == old(self).scopes@.len(),
            Self::inserts_constant(*old(self), *final(self), scope, name@, value@, r),
    {
        if self.scopes[scope].symbols.contains_key(name) {
            return Err(Error::DuplicateSymbol);
        }
        let node = Node::from_integer(value);
        let in_field = match &node._e {
            Expression::Const(_, fr) => fr.is_some(),
            _ => false,
        };
        if in_field {
            self.bind(scope, name, Symbol::Final(node, false))
        } else {
            Err(Error::NotInField)
        }
    }

    /// Binds the function `name` to `f` in `scope`; a name that a function
    /// is bound to there already is refused.
    pub fn insert_function(&mut self, scope: usize, name: &str, f: Function) -> (r: Result<
        (),
        Error,
    >)
        requires
            scope < old(self).scopes@.len(),
        ensures
            old(self).wf() ==> final(self).wf(),
            final(self).scopes@.len() == old(self).scopes@.len(),
            match r {
                Ok(_) => !old(self).scopes@[scope as int].funcs.contains(name@)
                    && Self::binds_function(*old(self), *final(self), scope as int, name@, f),
                Err(e) => old(self).scopes@[scope as int].funcs.contains(name@) && e
                    == Error::DuplicateFunction && *final(self) == *old(self),
            },
    {
        let ghost before = *self;
        if self.scopes[scope].funcs.contains_key(name) {
            Err(Error::DuplicateFunction)
        } else {
            self.scopes[scope].funcs.insert(name.to_owned(), f);
            proof {
                if before.wf() {
                    Self::lemma_same_but_wf(before, *self, scope as int);
                }
            }
            Ok(())
        }
    }

    /// Makes `from` another name of the function `to` in `scope`; a name
    /// that a function is bound to there already is refused.
    pub fn insert_funalias(&mut self, scope: usize, from: &str, to: &str) -> (r: Result<(), Error>)
        requires
            scope < old(self).scopes@.len(),
        ensures
            old(self).wf() ==> final(self).wf(),
            final(self).scopes@.len() == old(self).scopes@.len(),
            match r {
                Ok(_) => {
                    &&& !old(self).scopes@[scope as int].funcs.contains(from@)
                    &&& final(self).scopes@[scope as int].funcs.lookup(from@) matches Some(f) && f@
                        == (FunctionView {
                        handle: HandleView {
                            module: old(self).scopes@[scope as int].name@,
                            name: to@,
                            id: None,
                        },
                        class: crate::compiler::generator::FunctionClassView::Alias(to@),
                    }) && Self::binds_function(*old(self), *final(self), scope as int, from@, f)
                },
                Err(e) => old(self).scopes@[scope as int].funcs.contains(from@) && e
                    == Error::DuplicateFunction && *final(self) == *old(self),
            },
    {
        let ghost before = *self;
        if self.scopes[scope].funcs.contains_key(from) {
            Err(Error::DuplicateFunction)
        } else {
            let f = Function {
                handle: Handle::new(self.scopes[scope].name.as_str(), to),
                class: FunctionClass::Alias(to.to_owned()),
            };
            self.scopes[scope].funcs.insert(from.to_owned(), f);
            proof {
                if before.wf() {
                    Self::lemma_same_but_wf(before, *self, scope as int);
                }
            }
            Ok(())
        }
    }
}

/// Whether what was found is what was to be found.
pub open spec fn found(r: Result<(usize, usize), Error>, expected: Result<(int, int), Error>) -> bool {
    match (r, expected) {
        (Ok(a), Ok(b)) => a.0 == b.0 && a.1 == b.1,
        (Err(e1), Err(e2)) => e1 == e2,
        _ => false,
    }
}

/// The node `n`, computed from `body` if it is a column.
pub open spec fn made_composite(
    n: crate::compiler::node::NodeView,
    body: crate::compiler::node::NodeView,
) -> crate::compiler::node::NodeView {
    match n.e {
        crate::compiler::node::ExpressionView::Column(h, _) => crate::compiler::node::NodeView {
            e: crate::compiler::node::ExpressionView::Column(
                h,
                crate::compiler::node::KindView::Composite(Box::new(body)),
            ),
            t: n.t,
        },
        _ => n,
    }
}

impl SymbolTable {
    /// Where the expression that `name` stands for in the scope `scope` is
    /// bound: the index of a scope, and of an entry of its symbols.
    ///
    /// An alias is followed in the scope where it is bound; the names
    /// already followed are kept in `visited`, and meeting one of them again
    /// is an error. A name that the scope does not bind is looked up in the
    /// scope that contains it, unless the look-up is `absolute`. From a
    /// closed scope on, the look-up is `pure`: it accepts constants only.
    pub open spec fn locate(
        self,
        scope: int,
        name: Seq<char>,
        visited: Seq<Seq<char>>,
        absolute: bool,
        pure: bool,
    ) -> Result<(int, int), Error>
        decreases scope, self.scopes@[scope].symbols.spec_len() - visited.len(),
    {
        if scope < 0 || scope >= self.scopes@.len() {
            Err(Error::UnknownModule)
        } else if visited.contains(name) {
            Err(Error::CircularDefinition)
        } else {
            let s = self.scopes@[scope];
            match s.symbols.lookup(name) {
                Some(Symbol::Alias(target)) => if visited.len() < s.symbols.spec_len() {
                    self.locate(scope, target@, visited.push(name), absolute, pure)
                } else {
                    Err(Error::CircularDefinition)
                },
                Some(Symbol::Final(node, _)) => if pure && !(node._e is Const) {
                    Err(Error::ImpureUse)
                } else {
                    Ok((scope, s.symbols.index_of(name)))
                },
                None => if absolute {
                    Err(Error::UnknownSymbol)
                } else {
                    match s.parent {
                        Some(p) => if p < scope {
                            self.locate(p as int, name, Seq::empty(), false, s.closed || pure)
                        } else {
                            Err(Error::UnknownSymbol)
                        },
                        None => Err(Error::UnknownSymbol),
                    }
                },
            }
        }
    }

    /// Where the symbol at the end of the dotted path `path[k..]` is bound,
    /// starting from the scope `scope`: all names but the last are those of
    /// nested scopes, and the last is looked up in the innermost of them and
    /// nowhere else.
    pub open spec fn locate_path(self, path: Seq<Seq<char>>, k: int, scope: int) -> Result<
        (int, int),
        Error,
    >
        decreases path.len() - k,
    {
        if k < 0 || k >= path.len() {
            Err(Error::UnknownSymbol)
        } else if k == path.len() - 1 {
            self.locate(scope, path[k], Seq::empty(), true, false)
        } else if scope < 0 || scope >= self.scopes@.len() {
            Err(Error::UnknownModule)
        } else {
            match self.scopes@[scope].children.lookup(path[k]) {
                Some(c) => self.locate_path(path, k + 1, c as int),
                None => Err(Error::UnknownModule),
            }
        }
    }

    /// Where the expression that `name` stands for in the scope `scope` is
    /// bound. A name with a dot in it is a path from the root.
    pub open spec fn locate_symbol(self, scope: int, name: Seq<char>) -> Result<(int, int), Error> {
        if name.contains('.') {
            self.locate_path(crate::text::split_spec(name, '.'), 0, 0)
        } else {
            self.locate(scope, name, Seq::empty(), false, false)
        }
    }

    /// Where the function that `name` stands for in the scope `scope` is
    /// bound. Aliases are followed, and a name that the scope does not bind
    /// is looked up in the scope that contains it.
    pub open spec fn locate_function(self, scope: int, name: Seq<char>, visited: Seq<Seq<char>>) -> Result<
        (int, int),
        Error,
    >
        decreases scope, self.scopes@[scope].funcs.spec_len() - visited.len(),
    {
        if scope < 0 || scope >= self.scopes@.len() {
            Err(Error::UnknownModule)
        } else if visited.contains(name) {
            Err(Error::CircularDefinition)
        } else {
            let s = self.scopes@[scope];
            match s.funcs.lookup(name) {
                Some(f) => match f.class {
                    FunctionClass::Alias(to) => if visited.len() < s.funcs.spec_len() {
                        self.locate_function(scope, to@, visited.push(name))
                    } else {
                        Err(Error::CircularDefinition)
                    },
                    _ => Ok((scope, s.funcs.index_of(name))),
                },
                None => match s.parent {
                    Some(p) => if p < scope {
                        self.locate_function(p as int, name, Seq::empty())
                    } else {
                        Err(Error::UnknownFunction)
                    },
                    None => Err(Error::UnknownFunction),
                },
            }
        }
    }

    /// Where the expression that `name` is bound to is to be edited: in the
    /// nearest scope, from `scope` up, that binds `name`. An alias cannot be
    /// edited.
    pub open spec fn locate_edit(self, scope: int, name: Seq<char>) -> Result<(int, int), Error>
        decreases scope,
    {
        if scope < 0 || scope >= self.scopes@.len() {
            Err(Error::UnknownModule)
        } else {
            let s = self.scopes@[scope];
            match s.symbols.lookup(name) {
                Some(Symbol::Alias(_)) => Err(Error::CircularDefinition),
                Some(Symbol::Final(_, _)) => Ok((scope, s.symbols.index_of(name))),
                None => match s.parent {
                    Some(p) => if p < scope {
                        self.locate_edit(p as int, name)
                    } else {
                        Err(Error::UnknownSymbol)
                    },
                    None => Err(Error::UnknownSymbol),
                },
            }
        }
    }

    /// What holds of a table in which the entry `entry` of the symbols of
    /// the scope `scope` has become `symbol`, and nothing else has changed.
    pub open spec fn rebinds(
        before: SymbolTable,
        after: SymbolTable,
        scope: int,
        entry: int,
        symbol: Symbol,
    ) -> bool {
        &&& Self::same_but(before, after, scope)
        &&& after.scopes@[scope].funcs == before.scopes@[scope].funcs
        &&& after.scopes@[scope].constraints == before.scopes@[scope].constraints
        &&& after.scopes@[scope].symbols.spec_len() == before.scopes@[scope].symbols.spec_len()
        &&& forall|j: int|
            0 <= j < before.scopes@[scope].symbols.spec_len() ==> #[trigger] after.scopes@[scope].symbols.key_at(
                j,
            ) == before.scopes@[scope].symbols.key_at(j)
        &&& forall|j: int|
            0 <= j < before.scopes@[scope].symbols.spec_len() && j != entry
                ==> #[trigger] after.scopes@[scope].symbols.value_at(j)
                == before.scopes@[scope].symbols.value_at(j)
        &&& after.scopes@[scope].symbols.value_at(entry) == symbol
        &&& forall|k: Seq<char>|
            #[trigger] after.scopes@[scope].symbols.contains(k)
                == before.scopes@[scope].symbols.contains(k)
        &&& forall|k: Seq<char>|
            before.scopes@[scope].symbols.contains(k)
                ==> #[trigger] after.scopes@[scope].symbols.index_of(k)
                == before.scopes@[scope].symbols.index_of(k)
    }

    fn locate_exec(&self, scope: usize, name: &str, absolute: bool, pure: bool) -> (r: Result<
        (usize, usize),
        Error,
    >)
        requires
            scope < self.scopes@.len(),
        ensures
            found(r, self.locate(scope as int, name@, Seq::empty(), absolute, pure)),
            r matches Ok(at) ==> at.0 < self.scopes@.len() && at.1
                < self.scopes@[at.0 as int].symbols.spec_len()
                && self.scopes@[at.0 as int].symbols.value_at(at.1 as int) is Final,
    {
        let ghost goal = self.locate(scope as int, name@, Seq::empty(), absolute, pure);
        let mut at = scope;
        let mut current: String = name.to_owned();
        let mut visited: Vec<String> = Vec::new();
        let mut exact = absolute;
        let mut strict = pure;
        proof {
            assert(crate::text::string_views(visited@) =~= Seq::<Seq<char>>::empty());
        }
        loop
            invariant
                at < self.scopes@.len(),
                goal == self.locate(scope as int, name@, Seq::empty(), absolute, pure),
                goal == self.locate(
                    at as int,
                    current@,
                    crate::text::string_views(visited@),
                    exact,
                    strict,
                ),
            decreases at, self.scopes@[at as int].symbols.spec_len() - visited@.len(),
        {
            if crate::text::contains_str(&visited, current.as_str()) {
                return Err(Error::CircularDefinition);
            }
            match self.scopes[at].symbols.find(current.as_str()) {
                Some(i) => {
                    match self.scopes[at].symbols.value(i) {
                        Symbol::Alias(target) => {
                            if visited.len() < self.scopes[at].symbols.len() {
                                let next = target.clone();
                                let ghost before = crate::text::string_views(visited@);
                                let ghost followed = current@;
                                visited.push(current);
                                proof {
                                    assert(crate::text::string_views(visited@) =~= before.push(
                                        followed,
                                    ));
                                }
                                current = next;
                            } else {
                                return Err(Error::CircularDefinition);
                            }
                        },
                        Symbol::Final(node, _) => {
                            if strict && !matches!(node._e, Expression::Const(_, _)) {
                                return Err(Error::ImpureUse);
                            } else {
                                return Ok((at, i));
                            }
                        },
                    }
                },
                None => {
                    if exact {
                        return Err(Error::UnknownSymbol);
                    }
                    match self.scopes[at].parent {
                        Some(p) => {
                            if p < at {
                                strict = self.scopes[at].closed || strict;
                                at = p;
                                visited = Vec::new();
                                exact = false;
                                proof {
                                    assert(crate::text::string_views(visited@) =~= Seq::<
                                        Seq<char>,
                                    >::empty());
                                }
                            } else {
                                return Err(Error::UnknownSymbol);
                            }
                        },
                        None => {
                            return Err(Error::UnknownSymbol);
                        },
                    }
                },
            }
        }
    }

    fn locate_symbol_exec(&self, scope: usize, name: &str) -> (r: Result<(usize, usize), Error>)
        requires
            scope < self.scopes@.len(),
        ensures
            found(r, self.locate_symbol(scope as int, name@)),
            r matches Ok(at) ==> at.0 < self.scopes@.len() && at.1
                < self.scopes@[at.0 as int].symbols.spec_len()
                && self.scopes@[at.0 as int].symbols.value_at(at.1 as int) is Final,
    {
        let chars = crate::text::to_chars(name);
        let dot = crate::text::find_char(&chars, '.', 0);
        if dot == chars.len() {
            return self.locate_exec(scope, name, false, false);
        }
        assert(name@[dot as int] == '.');
        let path = crate::text::split(&chars, '.');
        let ghost names = crate::text::string_views(path@);
        let mut k: usize = 0;
        let mut at: usize = 0;
        loop
            invariant
                k < path@.len(),
                names == crate::text::string_views(path@),
                self.locate_symbol(scope as int, name@) == self.locate_path(names, k as int, at as int),
            decreases path@.len() - k,
        {
            if at >= self.scopes.len() {
                return Err(Error::UnknownModule);
            }
            if k == path.len() - 1 {
                return self.locate_exec(at, path[k].as_str(), true, false);
            }
            match self.scopes[at].children.get(path[k].as_str()) {
                Some(c) => {
                    at = *c;
                },
                None => {
                    return Err(Error::UnknownModule);
                },
            }
            k = k + 1;
        }
    }

    /// What resolving `name` in the scope `scope` gives and does: the
    /// expression that the name stands for, which is from then on marked as
    /// used; or the error that looking for it meets, and then nothing
    /// changes.
    pub open spec fn resolves(
        before: SymbolTable,
        after: SymbolTable,
        scope: usize,
        name: Seq<char>,
        r: Result<Node, Error>,
    ) -> bool {
        match before.locate_symbol(scope as int, name) {
            Ok(at) => r matches Ok(n) && before.scopes@[at.0].symbols.value_at(at.1)
                matches Symbol::Final(m, _) && n@ == m@ && Self::rebinds(
                before,
                after,
                at.0,
                at.1,
                Symbol::Final(m, true),
            ),
            Err(e) => r matches Err(e2) && e2 == e && after == before,
        }
    }

    /// The expression that `name` stands for in the scope `scope`, which is
    /// from then on marked as used.
    pub fn resolve_symbol(&mut self, scope: usize, name: &str) -> (r: Result<Node, Error>)
        requires
            scope < old(self).scopes@.len(),
        ensures
            old(self).wf() ==> final(self).wf(),
            final(self).scopes@.len() == old(self).scopes@.len(),
            Self::resolves(*old(self), *final(self), scope, name@, r),
    {
        let ghost before = *self;
        match self.locate_symbol_exec(scope, name) {
            Err(e) => Err(e),
            Ok((si, ei)) => {
                let taken = self.scopes[si].symbols.replace(ei, Symbol::Alias(String::new()));
                match taken {
                    Symbol::Final(node, _) => {
                        let r = node.clone();
                        self.scopes[si].symbols.set_value(ei, Symbol::Final(node, true));
                        proof {
                            if before.wf() {
                                Self::lemma_same_but_wf(before, *self, si as int);
                            }
                        }
                        Ok(r)
                    },
                    Symbol::Alias(to) => {
                        // Never taken: what was located is an expression.
                        self.scopes[si].symbols.set_value(ei, Symbol::Alias(to));
                        Err(Error::UnknownSymbol)
                    },
                }
            },
        }
    }

    fn locate_function_exec(&self, scope: usize, name: &str) -> (r: Result<(usize, usize), Error>)
        requires
            scope < self.scopes@.len(),
        ensures
            found(r, self.locate_function(scope as int, name@, Seq::empty())),
            r matches Ok(at) ==> at.0 < self.scopes@.len() && at.1
                < self.scopes@[at.0 as int].funcs.spec_len(),
    {
        let ghost goal = self.locate_function(scope as int, name@, Seq::empty());
        let mut at = scope;
        let mut current: String = name.to_owned();
        let mut visited: Vec<String> = Vec::new();
        proof {
            assert(crate::text::string_views(visited@) =~= Seq::<Seq<char>>::empty());
        }
        loop
            invariant
                at < self.scopes@.len(),
                goal == self.locate_function(scope as int, name@, Seq::empty()),
                goal == self.locate_function(
                    at as int,
                    current@,
                    crate::text::string_views(visited@),
                ),
            decreases at, self.scopes@[at as int].funcs.spec_len() - visited@.len(),
        {
            if crate::text::contains_str(&visited, current.as_str()) {
                return Err(Error::CircularDefinition);
            }
            match self.scopes[at].funcs.find(current.as_str()) {
                Some(i) => {
                    match &self.scopes[at].funcs.value(i).class {
                        FunctionClass::Alias(to) => {
                            if visited.len() < self.scopes[at].funcs.len() {
                                let next = to.clone();
                                let ghost before = crate::text::string_views(visited@);
                                let ghost followed = current@;
                                visited.push(current);
                                proof {
                                    assert(crate::text::string_views(visited@) =~= before.push(
                                        followed,
                                    ));
                                }
                                current = next;
                            } else {
                                return Err(Error::CircularDefinition);
                            }
                        },
                        _ => {
                            return Ok((at, i));
                        },
                    }
                },
                None => {
                    match self.scopes[at].parent {
                        Some(p) => {
                            if p < at {
                                at = p;
                                visited = Vec::new();
                                proof {
                                    assert(crate::text::string_views(visited@) =~= Seq::<
                                        Seq<char>,
                                    >::empty());
                                }
                            } else {
                                return Err(Error::UnknownFunction);
                            }
                        },
                        None => {
                            return Err(Error::UnknownFunction);
                        },
                    }
                },
            }
        }
    }

    /// The function that `name` stands for in the scope `scope`.
    pub fn resolve_function(&self, scope: usize, name: &str) -> (r: Result<Function, Error>)
        requires
            scope < self.scopes@.len(),
        ensures
            match self.locate_function(scope as int, name@, Seq::empty()) {
                Ok(at) => r matches Ok(f) && f@ == self.scopes@[at.0].funcs.value_at(at.1)@,
                Err(e) => r matches Err(e2) && e2 == e,
            },
    {
        match self.locate_function_exec(scope, name) {
            Err(e) => Err(e),
            Ok((si, ei)) => Ok(self.scopes[si].funcs.value(ei).clone()),
        }
    }

    fn locate_edit_exec(&self, scope: usize, name: &str) -> (r: Result<(usize, usize), Error>)
        requires
            scope < self.scopes@.len(),
        ensures
            found(r, self.locate_edit(scope as int, name@)),
            r matches Ok(at) ==> at.0 < self.scopes@.len() && at.1
                < self.scopes@[at.0 as int].symbols.spec_len()
                && self.scopes@[at.0 as int].symbols.value_at(at.1 as int) is Final,
    {
        let ghost goal = self.locate_edit(scope as int, name@);
        let mut at = scope;
        loop
            invariant
                at < self.scopes@.len(),
                goal == self.locate_edit(scope as int, name@),
                goal == self.locate_edit(at as int, name@),
            decreases at,
        {
            match self.scopes[at].symbols.find(name) {
                Some(i) => {
                    match self.scopes[at].symbols.value(i) {
                        Symbol::Alias(_) => {
                            return Err(Error::CircularDefinition);
                        },
                        Symbol::Final(_, _) => {
                            return Ok((at, i));
                        },
                    }
                },
                None => {
                    match self.scopes[at].parent {
                        Some(p) => {
                            if p < at {
                                at = p;
                            } else {
                                return Err(Error::UnknownSymbol);
                            }
                        },
                        None => {
                            return Err(Error::UnknownSymbol);
                        },
                    }
                },
            }
        }
    }

    /// What making the column that `name` stands for in the scope `scope`
    /// a column computed from `body` does.
    pub open spec fn edits(
        before: SymbolTable,
        after: SymbolTable,
        scope: usize,
        name: Seq<char>,
        body: Node,
        r: Result<(), Error>,
    ) -> bool {
        match before.locate_edit(scope as int, name) {
            Ok(at) => {
                &&& r is Ok
                &&& before.scopes@[at.0].symbols.value_at(at.1) matches Symbol::Final(m, used)
                &&& after.scopes@[at.0].symbols.value_at(at.1) matches Symbol::Final(n, used2)
                &&& used2 == used
                &&& n@ == made_composite(m@, body@)
                &&& Self::rebinds(before, after, at.0, at.1, Symbol::Final(n, used2))
            },
            Err(e) => r matches Err(e2) && e2 == e && after == before,
        }
    }

    /// Makes the column that `name` stands for in the scope `scope` a
    /// column computed from `body`. An expression that is no column is left
    /// as it is.
    pub fn edit_symbol(&mut self, scope: usize, name: &str, body: Node) -> (r: Result<(), Error>)
        requires
            scope < old(self).scopes@.len(),
        ensures
            old(self).wf() ==> final(self).wf(),
            final(self).scopes@.len() == old(self).scopes@.len(),
            Self::edits(*old(self), *final(self), scope, name@, body, r),
    {
        let ghost before = *self;
        match self.locate_edit_exec(scope, name) {
            Err(e) => Err(e),
            Ok((si, ei)) => {
                let taken = self.scopes[si].symbols.replace(ei, Symbol::Alias(String::new()));
                match taken {
                    Symbol::Final(node, used) => {
                        let Node { _e, _t } = node;
                        let edited = match _e {
                            Expression::Column(h, _) => Expression::Column(
                                h,
                                crate::compiler::node::Kind::Composite(Box::new(body)),
                            ),
                            e => e,
                        };
                        self.scopes[si].symbols.set_value(
                            ei,
                            Symbol::Final(Node { _e: edited, _t }, used),
                        );
                        proof {
                            if before.wf() {
                                Self::lemma_same_but_wf(before, *self, si as int);
                            }
                        }
                        Ok(())
                    },
                    Symbol::Alias(to) => {
                        // Never taken: what was located is an expression.
                        self.scopes[si].symbols.set_value(ei, Symbol::Alias(to));
                        Err(Error::UnknownSymbol)
                    },
                }
            },
        }
    }
}

impl SymbolTable {
    /// Whether `name` is an alias of `target` in the scope `scope`.
    pub open spec fn aliases(self, scope: int, name: Seq<char>, target: Seq<char>) -> bool {
        self.scopes@[scope].symbols.lookup(name) matches Some(Symbol::Alias(t)) && t@ == target
    }

    /// Whether the function `name` is an alias of `target` in the scope
    /// `scope`.
    pub open spec fn aliases_function(self, scope: int, name: Seq<char>, target: Seq<char>) -> bool {
        self.scopes@[scope].funcs.lookup(name) matches Some(f) && f.class matches FunctionClass::Alias(
            t,
        ) && t@ == target
    }

    /// Resolving an alias is resolving what it stands for; and a scope that
    /// does not bind a name resolves it as the scope that contains it does,
    /// up to the restriction of closed scopes. So a symbol resolves to the
    /// same expression from wherever it is reachable.
    pub proof fn lemma_resolution_is_transparent(
        self,
        scope: int,
        name: Seq<char>,
        target: Seq<char>,
        parent: usize,
        absolute: bool,
        pure: bool,
    )
        requires
            0 <= scope < self.scopes@.len(),
        ensures
            self.aliases(scope, name, target) && self.scopes@[scope].symbols.spec_len() > 0
                ==> self.locate(scope, name, Seq::empty(), absolute, pure) == self.locate(
                scope,
                target,
                seq![name],
                absolute,
                pure,
            ),
            !self.scopes@[scope].symbols.contains(name) && self.scopes@[scope].parent == Some(parent)
                && parent < scope ==> self.locate(scope, name, Seq::empty(), false, pure)
                == self.locate(
                parent as int,
                name,
                Seq::empty(),
                false,
                self.scopes@[scope].closed || pure,
            ),
    {
        assert(Seq::<Seq<char>>::empty().push(name) =~= seq![name]);
    }

    /// What a name resolves to is an expression bound in the scope or in
    /// one of the scopes around it; and where the look-up is pure, that
    /// expression is a constant.
    pub proof fn lemma_located(
        self,
        scope: int,
        name: Seq<char>,
        visited: Seq<Seq<char>>,
        absolute: bool,
        pure: bool,
    )
        ensures
            self.locate(scope, name, visited, absolute, pure) matches Ok(at) ==> {
                &&& 0 <= at.0 <= scope < self.scopes@.len()
                &&& 0 <= at.1 < self.scopes@[at.0].symbols.spec_len()
                &&& self.scopes@[at.0].symbols.value_at(at.1) matches Symbol::Final(n, _) && (pure
                    ==> n._e is Const)
            },
        decreases scope, self.scopes@[scope].symbols.spec_len() - visited.len(),
    {
        if 0 <= scope < self.scopes@.len() && !visited.contains(name) {
            let s = self.scopes@[scope];
            match s.symbols.lookup(name) {
                Some(Symbol::Alias(target)) => {
                    if visited.len() < s.symbols.spec_len() {
                        self.lemma_located(scope, target@, visited.push(name), absolute, pure);
                    }
                },
                Some(Symbol::Final(node, _)) => {},
                None => {
                    if !absolute {
                        match s.parent {
                            Some(p) => {
                                if p < scope {
                                    self.lemma_located(
                                        p as int,
                                        name,
                                        Seq::empty(),
                                        false,
                                        s.closed || pure,
                                    );
                                }
                            },
                            None => {},
                        }
                    }
                },
            }
        }
    }

    /// In a closed scope, a name that the scope does not bind itself
    /// resolves to a constant, or not at all.
    pub proof fn lemma_pure_context(self, scope: int, name: Seq<char>, pure: bool)
        requires
            0 <= scope < self.scopes@.len(),
            self.scopes@[scope].closed,
            !self.scopes@[scope].symbols.contains(name),
        ensures
            self.locate(scope, name, Seq::empty(), false, pure) matches Ok(at)
                ==> self.scopes@[at.0].symbols.value_at(at.1) matches Symbol::Final(n, _) && n._e is Const,
    {
        match self.scopes@[scope].parent {
            Some(p) => {
                if p < scope {
                    self.lemma_located(p as int, name, Seq::empty(), false, true);
                }
            },
            None => {},
        }
    }

    /// A chain of aliases that comes back to one of its names resolves to
    /// an error: `names` are aliases of one another in turn, and the last
    /// of them is an alias of the `back`-th.
    pub proof fn lemma_cycle_detected(
        self,
        scope: int,
        names: Seq<Seq<char>>,
        back: int,
        i: int,
        absolute: bool,
        pure: bool,
    )
        requires
            0 <= scope < self.scopes@.len(),
            0 <= back < names.len(),
            0 <= i < names.len(),
            forall|j: int|
                0 <= j < names.len() - 1 ==> self.aliases(scope, #[trigger] names[j], names[j + 1]),
            self.aliases(scope, names[names.len() - 1], names[back]),
        ensures
            self.locate(scope, names[i], names.take(i), absolute, pure) == Err::<(int, int), Error>(
                Error::CircularDefinition,
            ),
        decreases names.len() - i,
    {
        let visited = names.take(i);
        let next = if i < names.len() - 1 {
            names[i + 1]
        } else {
            names[back]
        };
        assert(self.aliases(scope, names[i], next));
        assert(visited.push(names[i]) =~= names.take(i + 1));
        if i < names.len() - 1 {
            self.lemma_cycle_detected(scope, names, back, i + 1, absolute, pure);
        } else {
            assert(names.take(i + 1)[back] == names[back]);
            assert(names.take(i + 1).contains(next));
            assert(self.locate(scope, next, names.take(i + 1), absolute, pure) == Err::<
                (int, int),
                Error,
            >(Error::CircularDefinition));
        }
    }

    /// A chain of aliases of functions that comes back to one of its names
    /// resolves to an error.
    pub proof fn lemma_function_cycle_detected(
        self,
        scope: int,
        names: Seq<Seq<char>>,
        back: int,
        i: int,
    )
        requires
            0 <= scope < self.scopes@.len(),
            0 <= back < names.len(),
            0 <= i < names.len(),
            forall|j: int|
                0 <= j < names.len() - 1 ==> self.aliases_function(
                    scope,
                    #[trigger] names[j],
                    names[j + 1],
                ),
            self.aliases_function(scope, names[names.len() - 1], names[back]),
        ensures
            self.locate_function(scope, names[i], names.take(i)) == Err::<(int, int), Error>(
                Error::CircularDefinition,
            ),
        decreases names.len() - i,
    {
        let visited = names.take(i);
        let next = if i < names.len() - 1 {
            names[i + 1]
        } else {
            names[back]
        };
        assert(self.aliases_function(scope, names[i], next));
        assert(visited.push(names[i]) =~= names.take(i + 1));
        if i < names.len() - 1 {
            self.lemma_function_cycle_detected(scope, names, back, i + 1);
        } else {
            assert(names.take(i + 1)[back] == names[back]);
            assert(names.take(i + 1).contains(next));
            assert(self.locate_function(scope, next, names.take(i + 1)) == Err::<
                (int, int),
                Error,
            >(Error::CircularDefinition));
        }
    }

    /// A table stays a tree when only what a scope binds changes.
    pub proof fn lemma_same_but_wf(before: SymbolTable, after: SymbolTable, scope: int)
        requires
            before.wf(),
            0 <= scope < before.scopes@.len(),
            Self::same_but(before, after, scope),
        ensures
            after.wf(),
    {
        assert forall|i: int| 0 <= i < after.scopes@.len() implies ((
        #[trigger] after.scopes@[i]).parent matches Some(p) ==> p < i) by {
            if i != scope {
                assert(after.scopes@[i] == before.scopes@[i]);
            }
            assert(before.scopes@[i].parent matches Some(p) ==> p < i);
        }
        assert forall|i: int, k: Seq<char>| 0 <= i < after.scopes@.len() implies ((
        #[trigger] after.scopes@[i].children.lookup(k)) matches Some(c) ==> i < c
            < after.scopes@.len() && after.scopes@[c as int].parent == Some(i as usize)) by {
            if i != scope {
                assert(after.scopes@[i] == before.scopes@[i]);
            }
            match before.scopes@[i].children.lookup(k) {
                Some(c) => {
                    assert(i < c < before.scopes@.len() && before.scopes@[c as int].parent == Some(
                        i as usize,
                    ));
                    if c != scope {
                        assert(after.scopes@[c as int] == before.scopes@[c as int]);
                    }
                },
                None => {},
            }
        }
        if scope != 0 {
            assert(after.scopes@[0] == before.scopes@[0]);
        }
    }
}

/// The handle of the symbol `name` of the scope `scope` of `table`.
pub open spec fn handle_in(table: SymbolTable, scope: int, name: Seq<char>) -> HandleView {
    HandleView { module: table.scopes@[scope].name@, name, id: None }
}

/// What a declaration that binds a name to a column does, where it binds
/// it to the expression `e` of type `t`.
pub open spec fn declares_symbol(
    before: SymbolTable,
    after: SymbolTable,
    scope: int,
    name: Seq<char>,
    e: ExpressionView,
    t: Type,
    r: Result<(), Error>,
) -> bool {
    match r {
        Ok(_) => {
            &&& !before.scopes@[scope].symbols.contains(name)
            &&& after.scopes@[scope].symbols.lookup(name) matches Some(Symbol::Final(n, used))
            &&& !used
            &&& n@ == (NodeView { e, t: Some(t) })
            &&& SymbolTable::binds(before, after, scope, name, Symbol::Final(n, used))
        },
        Err(e) => before.scopes@[scope].symbols.contains(name) && e == Error::DuplicateSymbol
            && after == before,
    }
}

/// What a definition of a function does.
pub open spec fn declares_function(
    before: SymbolTable,
    after: SymbolTable,
    scope: int,
    name: Seq<char>,
    handle_name: Seq<char>,
    class: FunctionClassView,
    r: Result<(), Error>,
) -> bool {
    match r {
        Ok(_) => {
            &&& !before.scopes@[scope].funcs.contains(name)
            &&& after.scopes@[scope].funcs.lookup(name) matches Some(f)
            &&& f@ == (FunctionView { handle: handle_in(before, scope, handle_name), class })
            &&& SymbolTable::binds_function(before, after, scope, name, f)
        },
        Err(e) => before.scopes@[scope].funcs.contains(name) && e == Error::DuplicateFunction
            && after == before,
    }
}

/// What marking the first `k` of the columns `hs` as used does.
pub open spec fn marked(hs: Seq<HandleView>, k: int, t0: SymbolTable, ctx: usize, tk: SymbolTable) -> bool
    decreases k,
{
    if k <= 0 {
        tk == t0
    } else {
        0 <= k - 1 < hs.len() && exists|tp: SymbolTable, n: Node|
            #[trigger] witness((tp, n)) && marked(hs, k - 1, t0, ctx, tp) && SymbolTable::resolves(
                tp,
                tk,
                ctx,
                hs[k - 1].name,
                Ok(n),
            )
    }
}

/// What marking the columns `hs` as used does: all are marked, or the
/// first that stands for nothing gives its error.
pub open spec fn marks(
    hs: Seq<HandleView>,
    t0: SymbolTable,
    ctx: usize,
    t1: SymbolTable,
    r: Result<(), Error>,
) -> bool {
    match r {
        Ok(_) => marked(hs, hs.len() as int, t0, ctx, t1),
        Err(x) => exists|k: int, tk: SymbolTable|
            #[trigger] witness((k, tk)) && 0 <= k < hs.len() && marked(hs, k, t0, ctx, tk)
                && SymbolTable::resolves(tk, t1, ctx, hs[k].name, Err::<Node, Error>(x)),
    }
}

/// The handles of the columns that `xs` names, in the module `module`.
pub open spec fn sources(module: Seq<char>, xs: Seq<Handle>) -> Seq<HandleView> {
    Seq::new(xs.len(), |i: int| HandleView { module, name: xs[i]@.name, id: None })
}

/// What declaring the first `k` of the constants `cs` does.
pub open spec fn constants_declared(
    cs: Seq<(String, Integer)>,
    k: int,
    t0: SymbolTable,
    ctx: usize,
    tk: SymbolTable,
) -> bool
    decreases k,
{
    if k <= 0 {
        tk == t0
    } else {
        0 <= k - 1 < cs.len() && exists|tp: SymbolTable|
            #[trigger] witness(tp) && constants_declared(cs, k - 1, t0, ctx, tp)
                && SymbolTable::inserts_constant(tp, tk, ctx, cs[k - 1].0@, cs[k - 1].1@, Ok(()))
    }
}

/// What declaring the constants `cs` does: all are declared, or the first
/// that cannot be gives its error.
pub open spec fn declares_constants(
    cs: Seq<(String, Integer)>,
    t0: SymbolTable,
    ctx: usize,
    t1: SymbolTable,
    r: Result<(), Error>,
) -> bool {
    match r {
        Ok(_) => constants_declared(cs, cs.len() as int, t0, ctx, t1),
        Err(x) => exists|k: int, tk: SymbolTable|
            #[trigger] witness((k, tk)) && 0 <= k < cs.len() && constants_declared(
                cs,
                k,
                t0,
                ctx,
                tk,
            ) && SymbolTable::inserts_constant(tk, t1, ctx, cs[k].0@, cs[k].1@, Err::<(), Error>(x)),
    }
}

/// The column that a permutation fills: a phantom column of integers.
pub open spec fn sorted_column(h: HandleView) -> NodeView {
    NodeView {
        e: ExpressionView::Column(h, KindView::Phantom),
        t: Some(Type::Column(Magma::Integer)),
    }
}

/// What declaring the first `k` pairs of a permutation does: the source is
/// marked as used, and the target is declared unless it is already. `fs`
/// and `ts` hold the handles of the sources and of the targets.
pub open spec fn pairs_declared(
    tos: Seq<AstNode>,
    froms: Seq<AstNode>,
    k: int,
    t0: SymbolTable,
    ctx: usize,
    tk: SymbolTable,
    fs: Seq<Handle>,
    ts: Seq<Handle>,
) -> bool
    decreases k,
{
    if k <= 0 {
        tk == t0 && fs.len() == 0 && ts.len() == 0
    } else {
        &&& 0 <= k - 1 < tos.len()
        &&& k - 1 < froms.len()
        &&& tos[k - 1].class matches Token::Symbol(to)
        &&& froms[k - 1].class matches Token::Symbol(from)
        &&& exists|
            tp: SymbolTable,
            tm: SymbolTable,
            pf: Seq<Handle>,
            pt: Seq<Handle>,
            found: (Node, Node, Result<(), Error>),
            made: (Handle, Handle),
        |
            #[trigger] witness((tp, tm, pf, pt, found, made)) && pairs_declared(
                tos,
                froms,
                k - 1,
                t0,
                ctx,
                tp,
                pf,
                pt,
            ) && SymbolTable::resolves(tp, tm, ctx, from@, Ok(found.0)) && made.0@ == handle_in(
                tp,
                ctx as int,
                from@,
            ) && made.1@ == handle_in(tp, ctx as int, to@) && found.1@ == sorted_column(made.1@)
                && SymbolTable::inserts(tm, tk, ctx, to@, found.1, found.2) && fs == pf.push(made.0)
                && ts == pt.push(made.1)
    }
}

/// What the declaration of a permutation does: its sources and targets
/// are as many, each pair is declared in turn, and one computation is
/// recorded that fills all the targets by sorting the sources.
pub open spec fn declares_permutation(
    tos: Seq<AstNode>,
    froms: Seq<AstNode>,
    t0: SymbolTable,
    ctx: usize,
    t1: SymbolTable,
    r: Result<(), Error>,
) -> bool {
    if tos.len() != froms.len() {
        t1 == t0 && r == Err::<(), Error>(Error::IncoherentLengths)
    } else {
        match r {
            Ok(_) => exists|tk: SymbolTable, fs: Seq<Handle>, ts: Seq<Handle>|
                #[trigger] witness((tk, fs, ts)) && pairs_declared(
                    tos,
                    froms,
                    tos.len() as int,
                    t0,
                    ctx,
                    tk,
                    fs,
                    ts,
                ) && t1.scopes == tk.scopes && ComputationTable::records(
                    tk.computation_table,
                    t1.computation_table,
                    ts,
                    ComputationView::Sorted { froms: handle_views(fs), tos: handle_views(ts) },
                ),
            Err(x) => exists|k: int, tk: SymbolTable, fs: Seq<Handle>, ts: Seq<Handle>|
                #[trigger] witness((k, tk, fs, ts)) && 0 <= k < tos.len() && pairs_declared(
                    tos,
                    froms,
                    k,
                    t0,
                    ctx,
                    tk,
                    fs,
                    ts,
                ) && match (tos[k].class, froms[k].class) {
                    (Token::Symbol(_), Token::Symbol(from)) => SymbolTable::resolves(
                        tk,
                        t1,
                        ctx,
                        from@,
                        Err::<Node, Error>(x),
                    ),
                    _ => t1 == tk && x == Error::Parse,
                },
        }
    }
}

/// What the declaration `e` does to the table and to the current scope,
/// from the table `t0` and the scope `c0` to the table `t1` and the scope
/// `c1`.
///
/// A module becomes the current scope. A column, a function, an alias, a
/// constant or a constraint is bound in the current scope, where its name
/// is free. An interleaved column marks its sources as used first. A list
/// of declarations has each of them entered, whatever becomes of the
/// others. What declares nothing changes nothing.
pub open spec fn declares(
    e: AstNode,
    t0: SymbolTable,
    c0: usize,
    t1: SymbolTable,
    c1: usize,
    r: Result<(), Error>,
) -> bool
    decreases e, 0nat, 0nat,
{
    match e.class {
        Token::Value(_) | Token::Symbol(_) | Token::Keyword(_) | Token::List(_) | Token::Range(_)
        | Token::Type(_) | Token::DefPlookup(_, _, _) | Token::DefInrange(_, _) => r is Ok && t1
            == t0 && c1 == c0,
        Token::DefConstraint(name, _, _) => c1 == c0 && SymbolTable::constrains(
            t0,
            t1,
            c0 as int,
            name@,
            r,
        ),
        Token::DefModule(name) => r is Ok && SymbolTable::derives(
            t0,
            t1,
            0,
            name@,
            name@,
            false,
            c1,
        ),
        Token::DefConsts(cs) => c1 == c0 && declares_constants(cs@, t0, c0, t1, r),
        Token::DefColumns(es) => all_declared(es@, es@.len() as int, t0, c0, t1, c1, r),
        Token::DefAliases(es) => all_declared(es@, es@.len() as int, t0, c0, t1, c1, r),
        Token::DefPermutation(tos, froms) => c1 == c0 && declares_permutation(
            tos@,
            froms@,
            t0,
            c0,
            t1,
            r,
        ),
        Token::DefArrayColumn(name, range, t) => c1 == c0 && declares_symbol(
            t0,
            t1,
            c0 as int,
            name@,
            ExpressionView::ArrayColumn(handle_in(t0, c0 as int, name@), range@),
            t,
            r,
        ),
        Token::DefColumn(name, t, kind) => c1 == c0 && match kind {
            Kind::Interleaved(xs) => exists|tm: SymbolTable, rm: Result<(), Error>|
                #[trigger] witness((tm, rm)) && marks(
                    sources(t0.scopes@[c0 as int].name@, xs@),
                    t0,
                    c0,
                    tm,
                    rm,
                ) && match rm {
                    Err(x) => t1 == tm && r == Err::<(), Error>(x),
                    Ok(_) => declares_symbol(
                        tm,
                        t1,
                        c0 as int,
                        name@,
                        ExpressionView::Column(
                            handle_in(t0, c0 as int, name@),
                            KindView::Interleaved(sources(t0.scopes@[c0 as int].name@, xs@)),
                        ),
                        t,
                        r,
                    ),
                },
            _ => declares_symbol(
                t0,
                t1,
                c0 as int,
                name@,
                ExpressionView::Column(
                    handle_in(t0, c0 as int, name@),
                    if kind is Atomic {
                        KindView::Atomic
                    } else {
                        KindView::Phantom
                    },
                ),
                t,
                r,
            ),
        },
        Token::Defun(name, args, body) => c1 == c0 && declares_function(
            t0,
            t1,
            c0 as int,
            name@,
            name@,
            FunctionClassView::UserDefined { pure: false, args: args@, body: *body },
            r,
        ),
        Token::Defpurefun(name, args, body) => c1 == c0 && declares_function(
            t0,
            t1,
            c0 as int,
            name@,
            name@,
            FunctionClassView::UserDefined { pure: true, args: args@, body: *body },
            r,
        ),
        Token::DefAlias(from, to) => c1 == c0 && SymbolTable::inserts_alias(
            t0,
            t1,
            c0 as int,
            from@,
            to@,
            r,
        ),
        Token::DefunAlias(from, to) => c1 == c0 && declares_function(
            t0,
            t1,
            c0 as int,
            from@,
            to@,
            FunctionClassView::Alias(to@),
            r,
        ),
    }
}

/// The first of two results that is an error, if one is.
pub open spec fn first_of(a: Result<(), Error>, b: Result<(), Error>) -> Result<(), Error> {
    if a is Err {
        a
    } else {
        b
    }
}

/// What entering the first `k` of the declarations `es` does, each of them
/// whatever became of those before it: `rk` is the first error met, if
/// any.
pub open spec fn all_declared(
    es: Seq<AstNode>,
    k: int,
    t0: SymbolTable,
    c0: usize,
    tk: SymbolTable,
    ck: usize,
    rk: Result<(), Error>,
) -> bool
    decreases es, 1nat, k,
{
    if k <= 0 {
        tk == t0 && ck == c0 && rk is Ok
    } else {
        0 <= k - 1 < es.len() && exists|
            tp: SymbolTable,
            cp: usize,
            rp: Result<(), Error>,
            x: Result<(), Error>,
        |
            #[trigger] witness((tp, cp, rp, x)) && all_declared(es, k - 1, t0, c0, tp, cp, rp)
                && declares(es[k - 1], tp, cp, tk, ck, x) && rk == first_of(rp, x)
    }
}

fn first_error(a: Result<(), Error>, b: Result<(), Error>) -> (r: Result<(), Error>)
    ensures
        r == first_of(a, b),
{
    match a {
        Err(e) => Err(e),
        Ok(_) => b,
    }
}

fn declare_all(es: &Vec<AstNode>, table: &mut SymbolTable, ctx: &mut usize) -> (r: Result<(), Error>)
    requires
        old(table).wf(),
        *old(ctx) < old(table).scopes@.len(),
    ensures
        final(table).wf(),
        *final(ctx) < final(table).scopes@.len(),
        final(table).scopes@.len() >= old(table).scopes@.len(),
        all_declared(es@, es@.len() as int, *old(table), *old(ctx), *final(table), *final(ctx), r),
    decreases es, 1nat,
{
    let mut r: Result<(), Error> = Ok(());
    let mut i: usize = 0;
    while i < es.len()
        invariant
            i <= es.len(),
            table.wf(),
            *ctx < table.scopes@.len(),
            table.scopes@.len() >= old(table).scopes@.len(),
            all_declared(es@, i as int, *old(table), *old(ctx), *table, *ctx, r),
        decreases es.len() - i,
    {
        proof {
            vstd::std_specs::vec::axiom_vec_index_decreases(*es, i as int);
        }
        let ghost tp = *table;
        let ghost cp = *ctx;
        let ghost rp = r;
        let x = reduce(&es[i], table, ctx);
        r = first_error(r, x);
        proof {
            assert(es@[(i + 1) - 1] == es@[i as int]);
            assert(witness((tp, cp, rp, x)));
        }
        i = i + 1;
    }
    r
}

fn declare_constants(cs: &Vec<(String, Integer)>, table: &mut SymbolTable, ctx: usize) -> (r:
    Result<(), Error>)
    requires
        old(table).wf(),
        ctx < old(table).scopes@.len(),
    ensures
        final(table).wf(),
        final(table).scopes@.len() == old(table).scopes@.len(),
        declares_constants(cs@, *old(table), ctx, *final(table), r),
{
    let mut i: usize = 0;
    while i < cs.len()
        invariant
            i <= cs.len(),
            table.wf(),
            ctx < table.scopes@.len(),
            table.scopes@.len() == old(table).scopes@.len(),
            constants_declared(cs@, i as int, *old(table), ctx, *table),
        decreases cs.len() - i,
    {
        let ghost before = *table;
        proof {
            assert(witness((i as int, before)));
            assert(witness(before));
            assert(cs@[(i + 1) - 1] == cs@[i as int]);
        }
        match table.insert_constant(ctx, cs[i].0.as_str(), cs[i].1.clone()) {
            Ok(_) => {
                proof {
                    SymbolTable::lemma_same_but_wf(before, *table, ctx as int);
                }
            },
            Err(e) => {
                return Err(e);
            },
        }
        i = i + 1;
    }
    Ok(())
}

fn resolve_all(names: &Vec<Handle>, table: &mut SymbolTable, ctx: usize) -> (r: Result<(), Error>)
    requires
        old(table).wf(),
        ctx < old(table).scopes@.len(),
    ensures
        final(table).wf(),
        final(table).scopes@.len() == old(table).scopes@.len(),
        marks(handle_views(names@), *old(table), ctx, *final(table), r),
{
    let mut i: usize = 0;
    while i < names.len()
        invariant
            i <= names.len(),
            table.wf(),
            ctx < table.scopes@.len(),
            table.scopes@.len() == old(table).scopes@.len(),
            marked(handle_views(names@), i as int, *old(table), ctx, *table),
        decreases names.len() - i,
    {
        let ghost before = *table;
        proof {
            assert(witness((i as int, before)));
            assert(handle_views(names@)[(i + 1) - 1].name == names@[i as int].name@);
        }
        match table.resolve_symbol(ctx, names[i].name.as_str()) {
            Ok(n) => {
                proof {
                    assert(witness((before, n)));
                }
            },
            Err(e) => {
                return Err(e);
            },
        }
        i = i + 1;
    }
    Ok(())
}

fn declare_permutation(
    tos: &Vec<AstNode>,
    froms: &Vec<AstNode>,
    table: &mut SymbolTable,
    ctx: usize,
) -> (r: Result<(), Error>)
    requires
        old(table).wf(),
        ctx < old(table).scopes@.len(),
    ensures
        final(table).wf(),
        final(table).scopes@.len() == old(table).scopes@.len(),
        declares_permutation(tos@, froms@, *old(table), ctx, *final(table), r),
{
    if tos.len() != froms.len() {
        return Err(Error::IncoherentLengths);
    }
    let mut from_handles: Vec<Handle> = Vec::new();
    let mut to_handles: Vec<Handle> = Vec::new();
    let mut i: usize = 0;
    while i < tos.len()
        invariant
            i <= tos.len(),
            tos.len() == froms.len(),
            table.wf(),
            ctx < table.scopes@.len(),
            table.scopes@.len() == old(table).scopes@.len(),
            pairs_declared(
                tos@,
                froms@,
                i as int,
                *old(table),
                ctx,
                *table,
                from_handles@,
                to_handles@,
            ),
        decreases tos.len() - i,
    {
        let ghost tp = *table;
        let ghost pf = from_handles@;
        let ghost pt = to_handles@;
        proof {
            assert(witness((i as int, tp, pf, pt)));
        }
        match (&tos[i].class, &froms[i].class) {
            (Token::Symbol(to), Token::Symbol(from)) => {
                let from_handle = Handle::new(table.scopes[ctx].name.as_str(), from.as_str());
                let to_handle = Handle::new(table.scopes[ctx].name.as_str(), to.as_str());
                let ghost found;
                match table.resolve_symbol(ctx, from.as_str()) {
                    Ok(n) => {
                        proof {
                            found = n;
                        }
                    },
                    Err(e) => {
                        return Err(e);
                    },
                }
                let ghost tm = *table;
                let node = Node {
                    _e: Expression::Column(to_handle.clone(), Kind::Phantom),
                    _t: Some(Type::Column(Magma::Integer)),
                };
                let ghost v = node;
                // A column that is declared already is kept as it is.
                let ri = table.insert_symbol(ctx, to.as_str(), node);
                let ghost made = (from_handle, to_handle);
                from_handles.push(from_handle);
                to_handles.push(to_handle);
                proof {
                    assert(tos@[(i + 1) - 1].class == Token::Symbol(*to));
                    assert(froms@[(i + 1) - 1].class == Token::Symbol(*from));
                    assert(witness((tp, tm, pf, pt, (found, v, ri), made)));
                }
            },
            _ => {
                return Err(Error::Parse);
            },
        }
        i = i + 1;
    }
    let ghost tk = *table;
    let ghost fs = from_handles@;
    let ghost ts = to_handles@;
    proof {
        assert(witness((tk, fs, ts)));
    }
    let targets = crate::compiler::node::clone_handles(&to_handles);
    table.computation_table.insert_many(
        targets.as_slice(),
        Computation::Sorted { froms: from_handles, tos: to_handles },
    )
}

fn node_kind(
    kind: &Kind<AstNode>,
    module: &str,
    table: &mut SymbolTable,
    ctx: usize,
) -> (r: Result<Kind<Node>, Error>)
    requires
        old(table).wf(),
        ctx < old(table).scopes@.len(),
    ensures
        final(table).wf(),
        final(table).scopes@.len() == old(table).scopes@.len(),
        match *kind {
            Kind::Interleaved(xs) => exists|rm: Result<(), Error>|
                #[trigger] witness(rm) && marks(
                    sources(module@, xs@),
                    *old(table),
                    ctx,
                    *final(table),
                    rm,
                ) && match rm {
                    Err(x) => r == Err::<Kind<Node>, Error>(x),
                    Ok(_) => r matches Ok(Kind::Interleaved(hs)) && handle_views(hs@) == sources(
                        module@,
                        xs@,
                    ),
                },
            _ => *final(table) == *old(table) && r == Ok::<Kind<Node>, Error>(
                if *kind is Atomic {
                    Kind::<Node>::Atomic
                } else {
                    Kind::<Node>::Phantom
                },
            ),
        },
{
    match kind {
        Kind::Atomic => Ok(Kind::Atomic),
        Kind::Phantom => Ok(Kind::Phantom),
        // The expression of a composite column is reduced later.
        Kind::Composite(_) => Ok(Kind::Phantom),
        Kind::Interleaved(xs) => {
            let mut froms: Vec<Handle> = Vec::new();
            let mut i: usize = 0;
            while i < xs.len()
                invariant
                    i <= xs.len(),
                    froms@.len() == i,
                    forall|j: int|
                        0 <= j < i ==> (#[trigger] froms@[j])@ == (HandleView {
                            module: module@,
                            name: xs@[j]@.name,
                            id: None,
                        }),
                decreases xs.len() - i,
            {
                froms.push(Handle::new(module, xs[i].name.as_str()));
                i = i + 1;
            }
            assert(handle_views(froms@) =~= sources(module@, xs@));
            let rm = resolve_all(&froms, table, ctx);
            proof {
                assert(witness(rm));
            }
            match rm {
                Ok(_) => Ok(Kind::Interleaved(froms)),
                Err(e) => Err(e),
            }
        },
    }
}

/// Enters the declaration `e` in the table. `ctx` is the current scope: a
/// declaration of module makes the scope of that module current.
pub fn reduce(e: &AstNode, table: &mut SymbolTable, ctx: &mut usize) -> (r: Result<(), Error>)
    requires
        old(table).wf(),
        *old(ctx) < old(table).scopes@.len(),
    ensures
        final(table).wf(),
        *final(ctx) < final(table).scopes@.len(),
        final(table).scopes@.len() >= old(table).scopes@.len(),
        declares(*e, *old(table), *old(ctx), *final(table), *final(ctx), r),
    decreases e, 0nat,
{
    let ghost before = *table;
    let scope = *ctx;
    match &e.class {
        Token::Value(_) | Token::Symbol(_) | Token::Keyword(_) | Token::List(_) | Token::Range(_)
        | Token::Type(_) | Token::DefPlookup(_, _, _) | Token::DefInrange(_, _) => Ok(()),
        Token::DefConsts(cs) => declare_constants(cs, table, scope),
        Token::DefConstraint(name, _, _) => {
            let r = table.insert_constraint(scope, name.as_str());
            proof {
                SymbolTable::lemma_same_but_wf(before, *table, scope as int);
            }
            r
        },
        Token::DefModule(name) => {
            *ctx = table.derived(0, name.as_str(), name.as_str(), false);
            Ok(())
        },
        Token::DefColumns(cols) => {
            proof {
                assert(decreases_to!(e.class => e.class->DefColumns_0));
            }
            declare_all(cols, table, ctx)
        },
        Token::DefAliases(aliases) => {
            proof {
                assert(decreases_to!(e.class => e.class->DefAliases_0));
            }
            declare_all(aliases, table, ctx)
        },
        Token::DefColumn(name, t, kind) => {
            let module = table.scopes[scope].name.clone();
            let handle = Handle::new(module.as_str(), name.as_str());
            let rk = node_kind(kind, module.as_str(), table, scope);
            let ghost middle = *table;
            proof {
                if *kind is Interleaved {
                    let rm = choose|rm: Result<(), Error>|
                        #[trigger] witness(rm) && marks(
                            sources(module@, kind->Interleaved_0@),
                            before,
                            scope,
                            middle,
                            rm,
                        ) && match rm {
                            Err(x) => rk == Err::<Kind<Node>, Error>(x),
                            Ok(_) => rk matches Ok(Kind::Interleaved(hs)) && handle_views(hs@)
                                == sources(module@, kind->Interleaved_0@),
                        };
                    assert(witness((middle, rm)));
                }
            }
            match rk {
                Err(e) => {
                    Err(e)
                },
                Ok(k) => {
                    let node = Node { _e: Expression::Column(handle, k), _t: Some(*t) };
                    let r = table.insert_symbol(scope, name.as_str(), node);
                    proof {
                        if r is Ok {
                            SymbolTable::lemma_same_but_wf(middle, *table, scope as int);
                        }
                    }
                    r
                },
            }
        },
        Token::DefArrayColumn(name, range, t) => {
            let handle = Handle::new(table.scopes[scope].name.as_str(), name.as_str());
            let node = Node {
                _e: Expression::ArrayColumn(handle, crate::compiler::node::clone_indices(range)),
                _t: Some(*t),
            };
            let r = table.insert_symbol(scope, name.as_str(), node);
            proof {
                if r is Ok {
                    SymbolTable::lemma_same_but_wf(before, *table, scope as int);
                }
            }
            r
        },
        Token::DefPermutation(tos, froms) => declare_permutation(tos, froms, table, scope),
        Token::Defun(name, args, body) => {
            let f = Function {
                handle: Handle::new(table.scopes[scope].name.as_str(), name.as_str()),
                class: FunctionClass::UserDefined(
                    Defined {
                        pure: false,
                        args: crate::compiler::generator::clone_strings(args),
                        body: crate::compiler::generator::share(body),
                    },
                ),
            };
            let r = table.insert_function(scope, name.as_str(), f);
            proof {
                if r is Ok {
                    SymbolTable::lemma_same_but_wf(before, *table, scope as int);
                }
            }
            r
        },
        Token::Defpurefun(name, args, body) => {
            let f = Function {
                handle: Handle::new(table.scopes[scope].name.as_str(), name.as_str()),
                class: FunctionClass::UserDefined(
                    Defined {
                        pure: true,
                        args: crate::compiler::generator::clone_strings(args),
                        body: crate::compiler::generator::share(body),
                    },
                ),
            };
            let r = table.insert_function(scope, name.as_str(), f);
            proof {
                if r is Ok {
                    SymbolTable::lemma_same_but_wf(before, *table, scope as int);
                }
            }
            r
        },
        Token::DefAlias(from, to) => {
            let r = table.insert_alias(scope, from.as_str(), to.as_str());
            proof {
                if r is Ok {
                    SymbolTable::lemma_same_but_wf(before, *table, scope as int);
                }
            }
            r
        },
        Token::DefunAlias(from, to) => {
            let r = table.insert_funalias(scope, from.as_str(), to.as_str());
            proof {
                if r is Ok {
                    SymbolTable::lemma_same_but_wf(before, *table, scope as int);
                }
            }
            r
        },
    }
}

/// What entering the first `k` of the declarations `exprs` does, starting
/// in the root scope: `ck` is the scope that is current after them.
pub open spec fn entered(exprs: Seq<AstNode>, k: int, t0: SymbolTable, tk: SymbolTable, ck: usize) -> bool
    decreases k,
{
    if k <= 0 {
        tk == t0 && ck == 0
    } else {
        0 <= k - 1 < exprs.len() && exists|tp: SymbolTable, cp: usize|
            #[trigger] witness((tp, cp)) && entered(exprs, k - 1, t0, tp, cp) && declares(
                exprs[k - 1],
                tp,
                cp,
                tk,
                ck,
                Ok(()),
            )
    }
}

/// What entering the declarations `exprs` one after another does, up to
/// the first that fails.
pub open spec fn enters(
    exprs: Seq<AstNode>,
    t0: SymbolTable,
    t1: SymbolTable,
    r: Result<(), Error>,
) -> bool {
    match r {
        Ok(_) => exists|c: usize| #[trigger] witness(c) && entered(exprs, exprs.len() as int, t0, t1, c),
        Err(x) => exists|k: int, tk: SymbolTable, ck: usize, c: usize|
            #[trigger] witness((k, tk, ck, c)) && 0 <= k < exprs.len() && entered(
                exprs,
                k,
                t0,
                tk,
                ck,
            ) && declares(exprs[k], tk, ck, t1, c, Err::<(), Error>(x)),
    }
}

/// Enters all the declarations of `ast` in the table, in order, up to the
/// first that fails.
pub fn pass(ast: &Ast, table: &mut SymbolTable) -> (r: Result<(), Error>)
    requires
        old(table).wf(),
    ensures
        final(table).wf(),
        final(table).scopes@.len() >= old(table).scopes@.len(),
        enters(ast.exprs@, *old(table), *final(table), r),
{
    let mut ctx: usize = 0;
    let mut i: usize = 0;
    while i < ast.exprs.len()
        invariant
            i <= ast.exprs.len(),
            table.wf(),
            ctx < table.scopes@.len(),
            table.scopes@.len() >= old(table).scopes@.len(),
            entered(ast.exprs@, i as int, *old(table), *table, ctx),
        decreases ast.exprs.len() - i,
    {
        let ghost tp = *table;
        let ghost cp = ctx;
        let x = reduce(&ast.exprs[i], table, &mut ctx);
        proof {
            assert(witness((i as int, tp, cp, ctx)));
            assert(witness((tp, cp)));
            assert(ast.exprs@[(i + 1) - 1] == ast.exprs@[i as int]);
        }
        match x {
            Ok(_) => {
                assert(x->Ok_0 == ());
            },
            Err(e) => {
                return Err(e);
            },
        }
        i = i + 1;
    }
    proof {
        assert(witness(ctx));
    }
    Ok(())
}

impl SymbolTable {
    /// What a name resolves to is bound in a scope of the table.
    pub proof fn lemma_symbol_located(self, scope: int, name: Seq<char>)
        ensures
            self.locate_symbol(scope, name) matches Ok(at) ==> 0 <= at.0 < self.scopes@.len(),
    {
        if name.contains('.') {
            self.lemma_path_located(crate::text::split_spec(name, '.'), 0, 0);
        } else {
            self.lemma_located(scope, name, Seq::empty(), false, false);
        }
    }

    /// What a path resolves to is bound in a scope of the table.
    pub proof fn lemma_path_located(self, path: Seq<Seq<char>>, k: int, scope: int)
        ensures
            self.locate_path(path, k, scope) matches Ok(at) ==> 0 <= at.0 < self.scopes@.len(),
        decreases path.len() - k,
    {
        if 0 <= k < path.len() {
            if k == path.len() - 1 {
                self.lemma_located(scope, path[k], Seq::empty(), true, false);
            } else if 0 <= scope < self.scopes@.len() {
                match self.scopes@[scope].children.lookup(path[k]) {
                    Some(c) => {
                        self.lemma_path_located(path, k + 1, c as int);
                    },
                    None => {},
                }
            }
        }
    }
}

/// No more names are bound in a dictionary than it has entries.
pub proof fn lemma_bound_names_fit<V>(d: Dict<V>, names: Seq<Seq<char>>)
    requires
        forall|i: int, j: int| 0 <= i < j < names.len() ==> names[i] != names[j],
        forall|i: int| 0 <= i < names.len() ==> d.contains(#[trigger] names[i]),
    ensures
        names.len() <= d.spec_len(),
{
    let idx = Seq::new(names.len(), |i: int| d.index_of(names[i]));
    assert forall|i: int, j: int| 0 <= i < idx.len() && 0 <= j < idx.len() && i != j implies idx[i]
        != idx[j] by {
        assert(d.contains(names[i]));
        assert(d.contains(names[j]));
        assert(d.key_at(idx[i]) == names[i]);
        assert(d.key_at(idx[j]) == names[j]);
        if i < j {
            assert(names[i] != names[j]);
        } else {
            assert(names[j] != names[i]);
        }
    }
    idx.unique_seq_to_set();
    let all = vstd::set_lib::set_int_range(0, d.spec_len() as int);
    vstd::set_lib::lemma_int_range(0, d.spec_len() as int);
    assert(idx.to_set().subset_of(all)) by {
        assert forall|x: int| idx.to_set().contains(x) implies all.contains(x) by {
            let i = choose|i: int| 0 <= i < idx.len() && idx[i] == x;
            assert(d.contains(names[i]));
        }
    }
    vstd::set_lib::lemma_len_subset(idx.to_set(), all);
}

impl SymbolTable {
    /// Whether the scope `home` is reached from the scope `s` by going from
    /// scope to containing scope, through scopes that do not bind `name`.
    pub open spec fn climbs(self, s: int, home: int, name: Seq<char>) -> bool
        decreases s,
    {
        0 <= s < self.scopes@.len() && (s == home || (self.scopes@[s].symbols.lookup(name) is None
            && (self.scopes@[s].parent matches Some(p) && p < s && self.climbs(
            p as int,
            home,
            name,
        ))))
    }

    /// Whether a closed scope is left on the way from the scope `s` up to
    /// the scope `home`.
    pub open spec fn crosses(self, s: int, home: int) -> bool
        decreases s,
    {
        if s == home || s < 0 || s >= self.scopes@.len() {
            false
        } else {
            self.scopes@[s].closed || (self.scopes@[s].parent matches Some(p) && p < s
                && self.crosses(p as int, home))
        }
    }

    /// Whether `names` are aliases of one another in turn in the scope
    /// `home`, no name occurring twice, and the last of them stands there
    /// for an expression.
    pub open spec fn chain(self, home: int, names: Seq<Seq<char>>) -> bool {
        &&& names.len() >= 1
        &&& forall|i: int, j: int| 0 <= i < j < names.len() ==> names[i] != names[j]
        &&& forall|j: int|
            0 <= j < names.len() - 1 ==> self.aliases(home, #[trigger] names[j], names[j + 1])
        &&& self.scopes@[home].symbols.lookup(names.last()) matches Some(Symbol::Final(_, _))
    }

    /// A name that a scope does not bind is looked up from the scope as
    /// from any scope above it that is reached through scopes that do not
    /// bind it; as a constant only, once a closed scope has been left.
    pub proof fn lemma_climb(self, s: int, home: int, name: Seq<char>, pure: bool)
        requires
            self.climbs(s, home, name),
        ensures
            0 <= home < self.scopes@.len(),
            s != home && self.scopes@[s].closed ==> self.crosses(s, home),
            self.locate(s, name, Seq::empty(), false, pure) == self.locate(
                home,
                name,
                Seq::empty(),
                false,
                pure || self.crosses(s, home),
            ),
        decreases s,
    {
        if s != home {
            let p = self.scopes@[s].parent->0;
            self.lemma_climb(p as int, home, name, self.scopes@[s].closed || pure);
        }
    }

    /// A chain of aliases is followed to its end: each of its names is
    /// found where the last of them is bound; under a pure look-up, if that
    /// is a constant.
    pub proof fn lemma_chain(
        self,
        home: int,
        names: Seq<Seq<char>>,
        j: int,
        absolute: bool,
        pure: bool,
    )
        requires
            0 <= home < self.scopes@.len(),
            self.chain(home, names),
            0 <= j < names.len(),
            pure ==> (self.scopes@[home].symbols.lookup(names.last()) matches Some(
                Symbol::Final(n, _),
            ) && n._e is Const),
        ensures
            self.locate(home, names[j], names.take(j), absolute, pure) == Ok::<(int, int), Error>(
                (home, self.scopes@[home].symbols.index_of(names.last())),
            ),
        decreases names.len() - j,
    {
        let d = self.scopes@[home].symbols;
        assert forall|i: int| 0 <= i < names.len() implies d.contains(#[trigger] names[i]) by {
            if i < names.len() - 1 {
                assert(self.aliases(home, names[i], names[i + 1]));
            }
        }
        lemma_bound_names_fit(d, names);
        assert(!names.take(j).contains(names[j])) by {
            if names.take(j).contains(names[j]) {
                let i = choose|i: int| 0 <= i < names.take(j).len() && names.take(j)[i] == names[j];
                assert(names[i] != names[j]);
            }
        }
        if j < names.len() - 1 {
            assert(self.aliases(home, names[j], names[j + 1]));
            assert(names.take(j).push(names[j]) =~= names.take(j + 1));
            self.lemma_chain(home, names, j + 1, absolute, pure);
        } else {
            assert(names[j] == names.last());
        }
    }

    /// The resolver closure. A name that stands, through a chain of
    /// aliases of any length, for an expression bound in the scope `home`
    /// is found there from every scope from which `home` is reached
    /// without leaving a closed scope, whatever the scope and however long
    /// the chain: so it resolves to the same expression from each of them.
    pub proof fn lemma_resolver_closure(self, s1: int, s2: int, home: int, names: Seq<Seq<char>>)
        requires
            self.chain(home, names),
            !names[0].contains('.'),
            self.climbs(s1, home, names[0]),
            self.climbs(s2, home, names[0]),
            !self.crosses(s1, home),
            !self.crosses(s2, home),
        ensures
            self.locate_symbol(s1, names[0]) == Ok::<(int, int), Error>(
                (home, self.scopes@[home].symbols.index_of(names.last())),
            ),
            self.locate_symbol(s2, names[0]) == self.locate_symbol(s1, names[0]),
    {
        self.lemma_climb(s1, home, names[0], false);
        self.lemma_climb(s2, home, names[0], false);
        assert(names.take(0) =~= Seq::<Seq<char>>::empty());
        self.lemma_chain(home, names, 0, false, false);
    }

    /// Purity. From a closed scope, a name that the scope binds itself to
    /// an expression is found there, whatever the expression; and a name
    /// that it does not bind, and that a scope above it binds to a
    /// constant, is found in that scope, however far above.
    pub proof fn lemma_closed_scope(self, c: int, home: int, name: Seq<char>)
        requires
            0 <= c < self.scopes@.len(),
            self.scopes@[c].closed,
            !name.contains('.'),
            self.climbs(c, home, name),
            self.scopes@[home].symbols.lookup(name) matches Some(Symbol::Final(n, _)) && (home != c
                ==> n._e is Const),
        ensures
            self.locate_symbol(c, name) == Ok::<(int, int), Error>(
                (home, self.scopes@[home].symbols.index_of(name)),
            ),
    {
        self.lemma_climb(c, home, name, false);
        assert(!Seq::<Seq<char>>::empty().contains(name));
    }
}

} // verus!
