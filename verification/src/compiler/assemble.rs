//! From the sources of a program to the program ready to be evaluated.

use crate::column::{Column, ColumnSet, Computation};
use crate::compiler::common::{witness, Handle};
use crate::compiler::constraint_set::ConstraintSet;
use crate::compiler::definitions::{enters, ComputationTable, Scope, Symbol, SymbolTable};
use crate::compiler::generator::{passes, CompileSettings, Constraint, State};
use crate::compiler::node::{clone_handles, type_of, Expression, Kind, Node};
use crate::compiler::parser::Ast;
use crate::compiler::types::Type;
use crate::dict::HandleMap;
use crate::errors::Error;
use crate::integer::Integer;
use vstd::prelude::*;
use vstd::string::*;

verus! {

/// What a program declares: its columns, its constants, and the
/// computations that fill its columns.
pub struct Gathered {
    pub columns: ColumnSet,
    pub constants: HandleMap<Integer>,
    pub computations: ComputationTable,
}

/// Whether `c` is a column of type `t` made by interleaving `froms`, not
/// filled yet.
pub open spec fn interleaved_column(c: Column, froms: Seq<Handle>, t: Type) -> bool {
    &&& c.values() is None
    &&& c.spilling_of() == 0
    &&& c.type_of() == t
    &&& c.kind_of() matches Kind::Interleaved(fs)
    &&& fs@ == froms
}

/// What entering the symbol `name` of the scope called `module`, which
/// stands for `node`, does to what is gathered.
///
/// A column that the symbol itself declares is entered among the columns,
/// with the computation that fills it if it is composite or interleaved.
/// A constant is entered among the constants. A symbol that stands for a
/// column declared elsewhere, or for any other expression, declares
/// nothing.
pub open spec fn declares_node(
    module: Seq<char>,
    name: Seq<char>,
    node: Node,
    g0: Gathered,
    allow_dups: bool,
    g1: Gathered,
    r: Result<(), Error>,
) -> bool {
    let t = type_of(node@);
    match node._e {
        Expression::Column(handle, kind) => if handle@.module != module || handle@.name != name {
            g1 == g0 && r is Ok
        } else {
            g1.constants == g0.constants && match kind {
                Kind::Atomic => g1.computations == g0.computations && ColumnSet::declares(
                    g0.columns,
                    g1.columns,
                    module,
                    name,
                    Kind::Atomic,
                    t,
                    allow_dups,
                    r,
                ),
                Kind::Phantom => g1.computations == g0.computations && ColumnSet::declares(
                    g0.columns,
                    g1.columns,
                    module,
                    name,
                    Kind::Phantom,
                    t,
                    allow_dups,
                    r,
                ),
                Kind::Composite(exp) => exists|ri: Result<(), Error>, c: Computation|
                    #[trigger] witness((ri, c)) && ColumnSet::declares(
                        g0.columns,
                        g1.columns,
                        module,
                        name,
                        Kind::Composite(Box::new(())),
                        t,
                        allow_dups,
                        ri,
                    ) && match ri {
                        Err(x) => g1.computations == g0.computations && r == Err::<(), Error>(x),
                        Ok(_) => c@ == (crate::column::ComputationView::Composite {
                            target: handle@,
                            exp: exp@,
                        }) && ComputationTable::inserts(
                            g0.computations,
                            g1.computations,
                            handle@,
                            c,
                            r,
                        ),
                    },
                Kind::Interleaved(froms) => exists|
                    ri: Result<usize, Error>,
                    col: Column,
                    c: Computation,
                |
                    #[trigger] witness((ri, col, c)) && interleaved_column(col, froms@, t)
                        && ColumnSet::puts(
                        g0.columns,
                        g1.columns,
                        module,
                        name,
                        col,
                        allow_dups,
                        ri,
                    ) && match ri {
                        Err(x) => g1.computations == g0.computations && r == Err::<(), Error>(x),
                        Ok(_) => c@ == (crate::column::ComputationView::Interleaved {
                            target: handle@,
                            froms: crate::compiler::node::handle_views(froms@),
                        }) && ComputationTable::inserts(
                            g0.computations,
                            g1.computations,
                            handle@,
                            c,
                            r,
                        ),
                    },
            }
        },
        Expression::ArrayColumn(handle, range) => if handle@.module != module || handle@.name
            != name {
            g1 == g0 && r is Ok
        } else {
            g1.constants == g0.constants && g1.computations == g0.computations
                && ColumnSet::declares_array(
                g0.columns,
                g1.columns,
                module,
                name,
                t,
                range@,
                allow_dups,
                r,
            )
        },
        Expression::Const(x, _) => {
            &&& r is Ok
            &&& g1.columns == g0.columns
            &&& g1.computations == g0.computations
            &&& g1.constants.lookup(module, name) matches Some(y)
            &&& y@ == x@
            &&& forall|m: Seq<char>, n: Seq<char>|
                (m != module || n != name) ==> g1.constants.lookup(m, n) == g0.constants.lookup(
                    m,
                    n,
                )
        },
        _ => g1 == g0 && r is Ok,
    }
}

/// Enters what the symbol `name` of the scope called `module` declares:
/// a column in `columns`, with the computation that fills it in
/// `computations` if it has one, or a constant in `constants`. A symbol
/// that stands for an expression declared elsewhere declares nothing.
pub fn declare(
    module: &str,
    name: &str,
    node: &Node,
    columns: &mut ColumnSet,
    constants: &mut HandleMap<Integer>,
    computations: &mut ComputationTable,
    allow_dups: bool,
) -> (r: Result<(), Error>)
    ensures
        declares_node(
            module@,
            name@,
            *node,
            (Gathered {
                columns: *old(columns),
                constants: *old(constants),
                computations: *old(computations),
            }),
            allow_dups,
            (Gathered {
                columns: *final(columns),
                constants: *final(constants),
                computations: *final(computations),
            }),
            r,
        ),
{
    match &node._e {
        Expression::Column(handle, kind) => {
            if !(crate::text::str_eq(handle.module.as_str(), module) && crate::text::str_eq(
                handle.name.as_str(),
                name,
            )) {
                return Ok(());
            }
            let t = node.t();
            match kind {
                Kind::Atomic => columns.insert_atomic(module, name, t, allow_dups),
                Kind::Phantom => columns.insert_sorted(module, name, t, allow_dups),
                Kind::Composite(exp) => {
                    let body: &Node = &**exp;
                    let c = Computation::Composite { target: handle.clone(), exp: body.clone() };
                    let ri = columns.insert_composite(module, name, t, allow_dups);
                    proof {
                        assert(witness((ri, c)));
                    }
                    match ri {
                        Ok(_) => {},
                        Err(e) => {
                            return Err(e);
                        },
                    }
                    computations.insert(handle, c)
                },
                Kind::Interleaved(froms) => {
                    let col = Column::interleaved(clone_handles(froms), t);
                    let c = Computation::Interleaved {
                        target: handle.clone(),
                        froms: clone_handles(froms),
                    };
                    let ghost made = (col, c);
                    let ri = columns.insert_column(module, name, col, allow_dups);
                    proof {
                        assert(witness((ri, made.0, made.1)));
                    }
                    match ri {
                        Ok(_) => {},
                        Err(e) => {
                            return Err(e);
                        },
                    }
                    computations.insert(handle, c)
                },
            }
        },
        Expression::ArrayColumn(handle, range) => {
            if !(crate::text::str_eq(handle.module.as_str(), module) && crate::text::str_eq(
                handle.name.as_str(),
                name,
            )) {
                return Ok(());
            }
            columns.insert_array(module, name, node.t(), range.as_slice(), allow_dups)
        },
        Expression::Const(x, _) => {
            constants.insert(module, name, x.clone());
            Ok(())
        },
        _ => Ok(()),
    }
}

/// What entering the `i`-th symbol of `scope` does to what is gathered: a
/// symbol that is another name of something declares nothing.
pub open spec fn symbol_gathered(
    scope: Scope,
    i: int,
    g0: Gathered,
    allow_dups: bool,
    g1: Gathered,
    r: Result<(), Error>,
) -> bool {
    match scope.symbols.value_at(i) {
        Symbol::Final(node, _) => declares_node(
            scope.name@,
            scope.symbols.key_at(i),
            node,
            g0,
            allow_dups,
            g1,
            r,
        ),
        Symbol::Alias(_) => g1 == g0 && r is Ok,
    }
}

/// What entering the first `k` symbols of `scope` does to what is
/// gathered.
pub open spec fn symbols_gathered(scope: Scope, k: int, g0: Gathered, allow_dups: bool, gk: Gathered) -> bool
    decreases k,
{
    if k <= 0 {
        gk == g0
    } else {
        0 <= k - 1 < scope.symbols.spec_len() && exists|gp: Gathered, u: Result<(), Error>|
            #[trigger] witness((gp, u)) && u is Ok && symbols_gathered(
                scope,
                k - 1,
                g0,
                allow_dups,
                gp,
            ) && symbol_gathered(scope, k - 1, gp, allow_dups, gk, u)
    }
}

/// What entering the symbols of the first `s` of the scopes `scopes` does
/// to what is gathered.
pub open spec fn scopes_gathered(
    scopes: Seq<Scope>,
    s: int,
    g0: Gathered,
    allow_dups: bool,
    gs: Gathered,
) -> bool
    decreases s,
{
    if s <= 0 {
        gs == g0
    } else {
        0 <= s - 1 < scopes.len() && exists|gp: Gathered|
            #[trigger] witness(gp) && scopes_gathered(scopes, s - 1, g0, allow_dups, gp)
                && symbols_gathered(
                scopes[s - 1],
                scopes[s - 1].symbols.spec_len() as int,
                gp,
                allow_dups,
                gs,
            )
    }
}

/// What entering the symbols of the scopes `scopes` does to what is
/// gathered, scope after scope and symbol after symbol, up to the first
/// that fails.
pub open spec fn gathers(
    scopes: Seq<Scope>,
    g0: Gathered,
    allow_dups: bool,
    g1: Gathered,
    r: Result<(), Error>,
) -> bool {
    match r {
        Ok(_) => scopes_gathered(scopes, scopes.len() as int, g0, allow_dups, g1),
        Err(x) => exists|s: int, k: int, ga: Gathered, gb: Gathered|
            #[trigger] witness((s, k, ga, gb)) && 0 <= s < scopes.len() && scopes_gathered(
                scopes,
                s,
                g0,
                allow_dups,
                ga,
            ) && 0 <= k < scopes[s].symbols.spec_len() && symbols_gathered(
                scopes[s],
                k,
                ga,
                allow_dups,
                gb,
            ) && symbol_gathered(scopes[s], k, gb, allow_dups, g1, Err::<(), Error>(x)),
    }
}

/// Whether nothing is gathered yet but the computations `computations`.
pub open spec fn blank(g: Gathered, computations: ComputationTable) -> bool {
    &&& g.computations == computations
    &&& g.columns.spec_len() == 0
    &&& forall|m: Seq<char>, n: Seq<char>| g.columns.spec_id(m, n) is None
    &&& forall|m: Seq<char>| g.columns.raw_len_of(m) is None
    &&& forall|m: Seq<char>, n: Seq<char>| g.constants.lookup(m, n) is None
}

/// What assembling the program of the table `table` and of the constraints
/// `constraints` gives: the symbols of the table are entered, starting
/// from the computations of the table, and the program is made of what
/// is gathered and of the constraints.
pub open spec fn assembles(
    table: SymbolTable,
    constraints: Seq<Constraint>,
    allow_dups: bool,
    r: Result<ConstraintSet, Error>,
) -> bool {
    exists|g0: Gathered, g1: Gathered, rg: Result<(), Error>|
        #[trigger] witness((g0, g1, rg)) && blank(g0, table.computation_table) && gathers(
            table.scopes@,
            g0,
            allow_dups,
            g1,
            rg,
        ) && match rg {
            Err(x) => r matches Err(y) && y == x,
            Ok(_) => r matches Ok(cs) && cs.made_of(
                g1.columns,
                constraints,
                g1.constants,
                g1.computations,
            ),
        }
}

/// The program that the table `table` and the constraints `constraints`
/// make: its columns and constants are those that the scopes of the table
/// declare, scope after scope and symbol after symbol, and its computations
/// are those of the table and those of its composite and interleaved
/// columns. The computations leave the table.
pub fn assemble(table: &mut SymbolTable, constraints: Vec<Constraint>, settings: &CompileSettings) -> (r:
    Result<ConstraintSet, Error>)
    ensures
        final(table).scopes == old(table).scopes,
        final(table).computation_table.spec_len() == 0,
        assembles(*old(table), constraints@, settings.allow_dups, r),
{
    let mut columns = ColumnSet::new();
    let mut constants: HandleMap<Integer> = HandleMap::new();
    let mut computations = ComputationTable::new();
    core::mem::swap(&mut table.computation_table, &mut computations);
    let ghost g0 = Gathered { columns, constants, computations };
    let mut s: usize = 0;
    while s < table.scopes.len()
        invariant
            s <= table.scopes@.len(),
            table.scopes == old(table).scopes,
            table.computation_table.spec_len() == 0,
            blank(g0, old(table).computation_table),
            scopes_gathered(
                table.scopes@,
                s as int,
                g0,
                settings.allow_dups,
                (Gathered { columns, constants, computations }),
            ),
        decreases table.scopes@.len() - s,
    {
        let scope = &table.scopes[s];
        let ghost ga = Gathered { columns, constants, computations };
        let mut k: usize = 0;
        while k < scope.symbols.len()
            invariant
                k <= scope.symbols.spec_len(),
                s < table.scopes@.len(),
                *scope == table.scopes@[s as int],
                table.scopes == old(table).scopes,
                table.computation_table.spec_len() == 0,
                blank(g0, old(table).computation_table),
                scopes_gathered(table.scopes@, s as int, g0, settings.allow_dups, ga),
                symbols_gathered(
                    *scope,
                    k as int,
                    ga,
                    settings.allow_dups,
                    (Gathered { columns, constants, computations }),
                ),
            decreases scope.symbols.spec_len() - k,
        {
            let ghost gb = Gathered { columns, constants, computations };
            let u = match scope.symbols.value(k) {
                Symbol::Final(node, _) => declare(
                    scope.name.as_str(),
                    scope.symbols.key(k).as_str(),
                    node,
                    &mut columns,
                    &mut constants,
                    &mut computations,
                    settings.allow_dups,
                ),
                Symbol::Alias(_) => Ok(()),
            };
            proof {
                let g1 = Gathered { columns, constants, computations };
                assert(symbol_gathered(*scope, k as int, gb, settings.allow_dups, g1, u));
                assert(witness((gb, u)));
                assert(witness((s as int, k as int, ga, gb)));
                assert(witness((g0, g1, u)));
            }
            match u {
                Ok(_) => {},
                Err(e) => {
                    return Err(e);
                },
            }
            k = k + 1;
        }
        proof {
            assert(witness(ga));
        }
        s = s + 1;
    }
    proof {
        let g1 = Gathered { columns, constants, computations };
        assert(witness((g0, g1, Ok::<(), Error>(()))));
    }
    Ok(ConstraintSet::new(columns, constraints, constants, computations))
}

/// What entering the declarations of the first `k` of the sources `asts`
/// in a table does, source after source.
pub open spec fn sources_entered(asts: Seq<Ast>, k: int, t0: SymbolTable, tk: SymbolTable) -> bool
    decreases k,
{
    if k <= 0 {
        tk == t0
    } else {
        0 <= k - 1 < asts.len() && exists|tp: SymbolTable, u: Result<(), Error>|
            #[trigger] witness((tp, u)) && u is Ok && sources_entered(asts, k - 1, t0, tp) && enters(
                asts[k - 1].exprs@,
                tp,
                tk,
                u,
            )
    }
}

/// What lowering the first `k` of the sources `asts` gives and does,
/// source after source: `acc` holds the constraints that they declare.
pub open spec fn sources_lowered(
    asts: Seq<Ast>,
    k: int,
    s0: State,
    debug: bool,
    sk: State,
    acc: Seq<Constraint>,
) -> bool
    decreases k,
{
    if k <= 0 {
        sk == s0 && acc.len() == 0
    } else {
        0 <= k - 1 < asts.len() && exists|sp: State, prev: Seq<Constraint>, v: Vec<Constraint>|
            #[trigger] witness((sp, prev, v)) && sources_lowered(asts, k - 1, s0, debug, sp, prev)
                && passes(asts[k - 1].exprs@, sp, debug, sk, Ok(v)) && acc == prev + v@
    }
}

/// What compiling the sources `asts` gives. Their declarations are
/// entered in the table of a program that has declared nothing, source
/// after source; then they are lowered, source after source, the scopes
/// that this makes being numbered from zero; then the program is
/// assembled from the table and from the constraints that were declared.
/// The first step that fails gives its error.
pub open spec fn makes(asts: Seq<Ast>, settings: CompileSettings, r: Result<ConstraintSet, Error>) -> bool {
    exists|t0: SymbolTable, k: int, tk: SymbolTable, t1: SymbolTable, re: Result<(), Error>|
        #[trigger] witness((t0, k, tk, t1, re)) && t0.is_root() && 0 <= k <= asts.len()
            && sources_entered(asts, k, t0, tk) && if k < asts.len() {
            re is Err && enters(asts[k].exprs@, tk, t1, re) && (r matches Err(y) && Err::<(), Error>(y)
                == re)
        } else {
            exists|j: int, sj: State, acc: Seq<Constraint>, s1: State, rl: Result<Vec<Constraint>, Error>|
                #[trigger] witness((j, sj, acc, s1, rl)) && 0 <= j <= asts.len() && sources_lowered(
                    asts,
                    j,
                    State { table: tk, counter: 0 },
                    settings.debug,
                    sj,
                    acc,
                ) && if j < asts.len() {
                    rl is Err && passes(asts[j].exprs@, sj, settings.debug, s1, rl) && (r matches Err(
                        y,
                    ) && rl matches Err(x) && y == x)
                } else {
                    assembles(sj.table, acc, settings.allow_dups, r)
                }
        }
}

/// Compiles the sources `asts`: their declarations are entered in a new
/// table, source after source; their constraints are lowered; and the
/// columns, constants and computations they declare are gathered.
pub fn make(asts: &Vec<Ast>, settings: &CompileSettings) -> (r: Result<ConstraintSet, Error>)
    ensures
        makes(asts@, *settings, r),
{
    let mut table = SymbolTable::new_root();
    let ghost t0 = table;
    let mut i: usize = 0;
    while i < asts.len()
        invariant
            i <= asts.len(),
            table.wf(),
            t0.is_root(),
            sources_entered(asts@, i as int, t0, table),
        decreases asts.len() - i,
    {
        let ghost tp = table;
        let u = crate::compiler::definitions::pass(&asts[i], &mut table);
        proof {
            assert(witness((tp, u)));
            assert(witness((t0, i as int, tp, table, u)));
        }
        match u {
            Ok(_) => {},
            Err(e) => {
                return Err(e);
            },
        }
        i = i + 1;
    }
    let ghost tk = table;
    let mut constraints: Vec<Constraint> = Vec::new();
    let mut counter: usize = 0;
    let mut j: usize = 0;
    while j < asts.len()
        invariant
            j <= asts.len(),
            table.wf(),
            t0.is_root(),
            sources_entered(asts@, asts@.len() as int, t0, tk),
            sources_lowered(
                asts@,
                j as int,
                (State { table: tk, counter: 0 }),
                settings.debug,
                (State { table, counter }),
                constraints@,
            ),
        decreases asts.len() - j,
    {
        let ghost sp = State { table, counter };
        let ghost prev = constraints@;
        let rl = crate::compiler::generator::pass(&asts[j], &mut table, settings, &mut counter);
        proof {
            assert(witness((t0, asts@.len() as int, tk, tk, Ok::<(), Error>(()))));
            assert(witness((j as int, sp, prev, State { table, counter }, rl)));
        }
        match rl {
            Ok(mut cs) => {
                let ghost v = cs;
                constraints.append(&mut cs);
                proof {
                    assert(witness((sp, prev, v)));
                }
            },
            Err(e) => {
                return Err(e);
            },
        }
        j = j + 1;
    }
    proof {
        let sj = State { table, counter };
        assert(witness((t0, asts@.len() as int, tk, tk, Ok::<(), Error>(()))));
        assert(witness((asts@.len() as int, sj, constraints@, sj, arbitrary::<
            Result<Vec<Constraint>, Error>,
        >())));
    }
    assemble(&mut table, constraints, settings)
}

} // verus!
