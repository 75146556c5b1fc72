use corset::column::Padding;
use corset::compiler::common::Handle;
use corset::compiler::definitions::{self, SymbolTable};
use corset::compiler::eval::EvalSettings;
use corset::compiler::generator::{
    apply_builtin, lower, make_ast_error, pass, reduce, reduce_toplevel, Builtin,
    CompileSettings, Constraint, RECURSION_LIMIT,
};
use corset::compiler::node::{Expression, Kind, Node};
use corset::compiler::parser::{Ast, AstNode, Token};
use corset::compiler::types::{Magma, Type};
use corset::errors::Error;
use corset::field::Fr;
use corset::integer::Integer;
use std::rc::Rc;

fn node(class: Token) -> AstNode {
    AstNode { class, src: String::new(), lc: (0, 0) }
}

fn sym(name: &str) -> AstNode {
    node(Token::Symbol(name.to_string()))
}

fn val(x: i64) -> AstNode {
    node(Token::Value(Integer::from_i64(x)))
}

fn list(items: Vec<AstNode>) -> AstNode {
    node(Token::List(items))
}

fn call(verb: &str, mut args: Vec<AstNode>) -> AstNode {
    let mut items = vec![sym(verb)];
    items.append(&mut args);
    list(items)
}

fn defcolumn(name: &str, t: Type) -> AstNode {
    node(Token::DefColumn(name.to_string(), t, Kind::Atomic))
}

const SETTINGS: CompileSettings = CompileSettings { debug: false, allow_dups: false };
const DEBUG: CompileSettings = CompileSettings { debug: true, allow_dups: false };

const CB: Type = Type::Column(Magma::Boolean);
const CI: Type = Type::Column(Magma::Integer);
const SB: Type = Type::Scalar(Magma::Boolean);
const SI: Type = Type::Scalar(Magma::Integer);

/// A table with a module `m` that declares the boolean columns `x` and `y`,
/// the integer column `z` and the array column `a` over 1, 2, 3.
fn module() -> (SymbolTable, usize) {
    let mut table = SymbolTable::new_root();
    let ast = Ast {
        exprs: vec![
            node(Token::DefModule("m".to_string())),
            node(Token::DefColumns(vec![
                defcolumn("x", CB),
                defcolumn("y", CB),
                defcolumn("z", CI),
                node(Token::DefArrayColumn("a".to_string(), vec![1, 2, 3], CI)),
            ])),
        ],
    };
    definitions::pass(&ast, &mut table).unwrap();
    (table, 1)
}

fn run(e: &AstNode, table: &mut SymbolTable, ctx: usize) -> Result<Option<Node>, Error> {
    let mut counter = 0;
    reduce(e, table, ctx, &SETTINGS, &mut counter, RECURSION_LIMIT)
}

fn value(e: &AstNode) -> Node {
    let (mut table, m) = module();
    run(e, &mut table, m).unwrap().unwrap()
}

fn failure(e: &AstNode) -> Error {
    let (mut table, m) = module();
    match run(e, &mut table, m) {
        Err(e) => e,
        Ok(_) => panic!("the form reduces"),
    }
}

fn const_of(n: &Node) -> Option<i64> {
    match &n._e {
        Expression::Const(x, _) => x.to_isize().map(|v| v as i64),
        _ => None,
    }
}

fn is_column(n: &Node, name: &str) -> bool {
    matches!(&n._e, Expression::Column(h, _) if h.module == "m" && h.name == name)
}

fn funcall(n: &Node) -> (Builtin, &Vec<Node>) {
    match &n._e {
        Expression::Funcall { func, args } => (*func, args),
        _ => panic!("not an application"),
    }
}

#[test]
fn literals_are_typed_by_their_value() {
    let zero = value(&val(0));
    assert_eq!(const_of(&zero), Some(0));
    assert_eq!(zero.t(), SB);
    assert_eq!(value(&val(1)).t(), SB);
    let two = value(&val(2));
    assert_eq!(const_of(&two), Some(2));
    assert_eq!(two.t(), SI);
    assert!(matches!(&two._e, Expression::Const(_, Some(f)) if *f == Fr::from_u64(2)));
    let minus = value(&val(-1));
    assert_eq!(minus.t(), SI);
    assert!(matches!(&minus._e, Expression::Const(_, None)));
}

#[test]
fn symbols_are_resolved() {
    assert!(is_column(&value(&sym("x")), "x"));
    assert_eq!(value(&sym("x")).t(), CB);
    assert_eq!(value(&sym("z")).t(), CI);
    assert_eq!(failure(&sym("nope")), Error::UnknownSymbol);
}

#[test]
fn the_empty_list_is_void() {
    let n = value(&list(vec![]));
    assert!(matches!(&n._e, Expression::List(v) if v.is_empty()));
    assert_eq!(n.t(), Type::Void);
}

#[test]
fn what_is_applied_must_be_a_function() {
    assert_eq!(failure(&list(vec![val(1), val(2)])), Error::NotAFunction);
    assert_eq!(failure(&call("nope", vec![val(1)])), Error::UnknownFunction);
}

#[test]
fn forms_without_value() {
    let (mut table, m) = module();
    for e in [
        node(Token::Keyword(":guard".to_string())),
        node(Token::Type(CI)),
        node(Token::Range(vec![1, 2])),
        node(Token::DefModule("other".to_string())),
        node(Token::DefAlias("a".to_string(), "b".to_string())),
        defcolumn("w", CI),
    ] {
        assert!(matches!(run(&e, &mut table, m), Ok(None)));
    }
    assert_eq!(table.scopes.len(), 2);
}

#[test]
fn sums_of_literals_are_computed_and_promoted() {
    let n = value(&call("+", vec![val(1), val(0)]));
    assert_eq!(const_of(&n), Some(1));
    assert_eq!(n.t(), SI);
    let nested = value(&call("+", vec![call("*", vec![val(1), val(0)]), val(0)]));
    assert_eq!(const_of(&nested), Some(0));
    assert_eq!(nested.t(), SI);
}

#[test]
fn constant_folding() {
    assert_eq!(const_of(&value(&call("+", vec![val(2), val(3), val(4)]))), Some(9));
    assert_eq!(const_of(&value(&call("-", vec![val(10), val(3), val(4)]))), Some(3));
    assert_eq!(const_of(&value(&call("-", vec![val(3), val(10)]))), Some(-7));
    assert_eq!(const_of(&value(&call("*", vec![val(2), val(3), val(4)]))), Some(24));
    assert_eq!(const_of(&value(&call("neg", vec![val(5)]))), Some(-5));
    let product = value(&call("*", vec![val(1), val(1)]));
    assert_eq!(const_of(&product), Some(1));
    assert_eq!(product.t(), SB);
    // What reads a column is not folded.
    let n = value(&call("+", vec![sym("z"), val(1)]));
    let (f, args) = funcall(&n);
    assert_eq!(f, Builtin::Add);
    assert!(is_column(&args[0], "z"));
    assert_eq!(const_of(&args[1]), Some(1));
    assert_eq!(n.t(), CI);
}

#[test]
fn arities_are_checked() {
    assert_eq!(failure(&call("+", vec![val(1)])), Error::ArityMismatch);
    assert_eq!(failure(&call("neg", vec![val(1), val(2)])), Error::ArityMismatch);
    assert_eq!(failure(&call("inv", vec![])), Error::ArityMismatch);
    assert_eq!(failure(&call("^", vec![sym("z")])), Error::ArityMismatch);
    assert_eq!(failure(&call("eq", vec![sym("z"), val(1), val(1)])), Error::ArityMismatch);
    assert_eq!(failure(&call("if-zero", vec![sym("z")])), Error::ArityMismatch);
    assert_eq!(
        failure(&call("if-zero", vec![sym("z"), val(1), val(1), val(1)])),
        Error::ArityMismatch
    );
    assert_eq!(failure(&call("begin", vec![])), Error::ArityMismatch);
    assert_eq!(failure(&call("shift", vec![sym("z")])), Error::ArityMismatch);
    assert_eq!(failure(&call("for", vec![sym("i")])), Error::ArityMismatch);
    assert_eq!(failure(&call("let", vec![list(vec![])])), Error::ArityMismatch);
}

#[test]
fn argument_types_are_checked() {
    let values = || call("begin", vec![sym("z"), sym("x")]);
    let nothing = || list(vec![]);
    assert_eq!(failure(&call("+", vec![nothing(), val(1)])), Error::TypeMismatch);
    assert_eq!(failure(&call("*", vec![val(1), nothing()])), Error::TypeMismatch);
    assert_eq!(failure(&call("neg", vec![nothing()])), Error::TypeMismatch);
    assert_eq!(failure(&call("inv", vec![nothing()])), Error::TypeMismatch);
    assert_eq!(failure(&call("^", vec![sym("z"), sym("z")])), Error::TypeMismatch);
    assert_eq!(failure(&call("shift", vec![val(1), val(1)])), Error::TypeMismatch);
    assert_eq!(failure(&call("shift", vec![sym("z"), sym("x")])), Error::TypeMismatch);
    assert_eq!(failure(&call("not", vec![sym("z")])), Error::TypeMismatch);
    assert_eq!(failure(&call("eq", vec![nothing(), sym("z")])), Error::TypeMismatch);
    assert_eq!(failure(&call("nth", vec![sym("z"), val(1)])), Error::TypeMismatch);
    assert_eq!(failure(&call("nth", vec![sym("a"), val(-1)])), Error::TypeMismatch);
    assert_eq!(failure(&call("nth", vec![sym("a"), sym("z")])), Error::TypeMismatch);
    assert_eq!(failure(&call("if-zero", vec![values(), val(1)])), Error::TypeMismatch);
    assert_eq!(
        failure(&call("for", vec![val(1), node(Token::Range(vec![1])), list(vec![])])),
        Error::TypeMismatch
    );
}

#[test]
fn not_is_one_minus() {
    let n = value(&call("not", vec![sym("x")]));
    let (f, args) = funcall(&n);
    assert_eq!(f, Builtin::Sub);
    assert_eq!(args.len(), 2);
    assert_eq!(const_of(&args[0]), Some(1));
    assert!(is_column(&args[1], "x"));
}

#[test]
fn equality_of_booleans_is_a_square() {
    let n = value(&call("eq", vec![sym("x"), sym("y")]));
    assert_eq!(n.t(), CB);
    let (f, factors) = funcall(&n);
    assert_eq!(f, Builtin::Mul);
    assert_eq!(factors.len(), 2);
    for factor in factors {
        let (g, operands) = funcall(factor);
        assert_eq!(g, Builtin::Sub);
        assert_eq!(operands.len(), 2);
        assert!(is_column(&operands[0], "x"));
        assert!(is_column(&operands[1], "y"));
    }
}

#[test]
fn equality_of_integers_is_a_difference() {
    let n = value(&call("eq", vec![sym("z"), sym("x")]));
    let (f, operands) = funcall(&n);
    assert_eq!(f, Builtin::Sub);
    assert!(is_column(&operands[0], "z"));
    assert!(is_column(&operands[1], "x"));
    assert_eq!(n.t(), CI);
}

#[test]
fn nth_picks_a_column_of_the_array() {
    let n = value(&call("nth", vec![sym("a"), val(2)]));
    match &n._e {
        Expression::Column(h, Kind::Atomic) => {
            assert_eq!(h.module, "m");
            assert_eq!(h.name, "a_2");
            assert_eq!(h.id, None);
        }
        _ => panic!("not a column"),
    }
    assert_eq!(n.t(), SI);
    assert_eq!(failure(&call("nth", vec![sym("a"), val(7)])), Error::IndexOutOfRange);
    assert_eq!(failure(&call("nth", vec![sym("a"), val(0)])), Error::IndexOutOfRange);
}

#[test]
fn len_counts_the_columns_of_an_array() {
    let n = value(&call("len", vec![sym("a")]));
    assert_eq!(const_of(&n), Some(3));
    assert_eq!(failure(&call("len", vec![sym("z")])), Error::TypeMismatch);
}

#[test]
fn begin_flattens_lists() {
    let inner = call("begin", vec![sym("x"), sym("y")]);
    let n = value(&call("begin", vec![inner, sym("z")]));
    match &n._e {
        Expression::List(items) => {
            assert_eq!(items.len(), 3);
            assert!(is_column(&items[0], "x"));
            assert!(is_column(&items[1], "y"));
            assert!(is_column(&items[2], "z"));
        }
        _ => panic!("not a list"),
    }
}

#[test]
fn other_operations_are_kept() {
    for (verb, b, args) in [
        ("*", Builtin::Mul, vec![sym("z"), sym("x")]),
        ("^", Builtin::Exp, vec![sym("z"), val(3)]),
        ("inv", Builtin::Inv, vec![sym("z")]),
        ("neg", Builtin::Neg, vec![sym("z")]),
        ("shift", Builtin::Shift, vec![sym("z"), val(-1)]),
        ("if-zero", Builtin::IfZero, vec![sym("z"), sym("x")]),
        ("if-not-zero", Builtin::IfNotZero, vec![sym("z"), sym("x"), sym("y")]),
    ] {
        let count = args.len();
        let n = value(&call(verb, args));
        let (f, operands) = funcall(&n);
        assert_eq!(f, b);
        assert_eq!(operands.len(), count);
        assert!(is_column(&operands[0], "z"));
    }
    assert_eq!(value(&call("inv", vec![sym("x")])).t(), CI);
    assert_eq!(value(&call("*", vec![sym("x"), sym("y")])).t(), CB);
    assert_eq!(value(&call("shift", vec![sym("x"), val(1)])).t(), CB);
}

#[test]
fn for_reduces_its_body_for_each_index() {
    let body = call("+", vec![sym("i"), sym("z")]);
    let e = call("for", vec![sym("i"), node(Token::Range(vec![1, 2, 5])), body]);
    let (mut table, m) = module();
    let n = run(&e, &mut table, m).unwrap().unwrap();
    match &n._e {
        Expression::List(items) => {
            assert_eq!(items.len(), 3);
            for (item, i) in items.iter().zip([1, 2, 5]) {
                let (f, args) = funcall(item);
                assert_eq!(f, Builtin::Add);
                assert_eq!(const_of(&args[0]), Some(i));
                assert!(is_column(&args[1], "z"));
            }
        }
        _ => panic!("not a list"),
    }
    assert_eq!(n.t(), CI);
    // One scope for each index.
    assert_eq!(table.scopes.len(), 5);
    assert_eq!(table.scopes[2].name, "for-0-1");
    assert_eq!(table.scopes[3].name, "for-1-2");
    assert_eq!(table.scopes[4].name, "for-2-5");
    assert_eq!(table.scopes[2].parent, Some(m));
    assert!(!table.scopes[2].closed);
}

#[test]
fn for_over_nothing_is_an_empty_list() {
    let e = call("for", vec![sym("i"), node(Token::Range(vec![])), list(vec![])]);
    let n = value(&e);
    assert!(matches!(&n._e, Expression::List(v) if v.is_empty()));
    assert_eq!(n.t(), SB);
}

#[test]
fn let_binds_in_a_new_scope() {
    let bindings = list(vec![
        list(vec![sym("p"), val(2)]),
        list(vec![sym("q"), call("+", vec![sym("p"), val(3)])]),
    ]);
    let e = call("let", vec![bindings, call("*", vec![sym("q"), sym("z")])]);
    let (mut table, m) = module();
    let n = run(&e, &mut table, m).unwrap().unwrap();
    let (f, args) = funcall(&n);
    assert_eq!(f, Builtin::Mul);
    assert_eq!(const_of(&args[0]), Some(5));
    assert!(is_column(&args[1], "z"));
    assert_eq!(table.scopes.len(), 3);
    assert_eq!(table.scopes[2].name, "let-0");
    // The bindings are not seen outside.
    assert_eq!(failure(&sym("p")), Error::UnknownSymbol);
    let bad = call("let", vec![list(vec![sym("p")]), val(1)]);
    assert_eq!(failure(&bad), Error::TypeMismatch);
}

#[test]
fn debug_is_dropped_unless_asked_for() {
    let e = call("debug", vec![sym("x"), sym("y")]);
    let (mut table, m) = module();
    assert!(matches!(run(&e, &mut table, m), Ok(None)));
    let mut counter = 0;
    let n = reduce(&e, &mut table, m, &DEBUG, &mut counter, RECURSION_LIMIT)
        .unwrap()
        .unwrap();
    let (f, args) = funcall(&n);
    assert_eq!(f, Builtin::Begin);
    assert_eq!(args.len(), 2);
    let single = call("debug", vec![sym("x")]);
    let n = reduce(&single, &mut table, m, &DEBUG, &mut counter, RECURSION_LIMIT)
        .unwrap()
        .unwrap();
    assert!(is_column(&n, "x"));
    // A child without value stands as no value.
    let with_void = call("debug", vec![sym("x"), node(Token::Type(CI))]);
    let n = reduce(&with_void, &mut table, m, &DEBUG, &mut counter, RECURSION_LIMIT)
        .unwrap()
        .unwrap();
    let (_, args) = funcall(&n);
    assert!(matches!(&args[1]._e, Expression::Void));
}

fn defun(name: &str, params: &[&str], body: AstNode, pure: bool) -> AstNode {
    let params = params.iter().map(|p| p.to_string()).collect();
    if pure {
        node(Token::Defpurefun(name.to_string(), params, Rc::new(body)))
    } else {
        node(Token::Defun(name.to_string(), params, Rc::new(body)))
    }
}

fn with_functions(defs: Vec<AstNode>) -> (SymbolTable, usize) {
    let (mut table, m) = module();
    let mut ctx = m;
    for d in defs {
        definitions::reduce(&d, &mut table, &mut ctx).unwrap();
    }
    (table, m)
}

#[test]
fn user_functions_are_applied() {
    let double = defun("double", &["v"], call("+", vec![sym("v"), sym("v")]), true);
    let shifted = defun("plus-z", &["v"], call("+", vec![sym("v"), sym("z")]), false);
    let (mut table, m) = with_functions(vec![double, shifted]);
    let mut counter = 0;
    let mut run = |e: &AstNode, table: &mut SymbolTable, ctx: usize| {
        reduce(e, table, ctx, &SETTINGS, &mut counter, RECURSION_LIMIT)
    };
    let n = run(&call("double", vec![sym("x")]), &mut table, m)
        .unwrap()
        .unwrap();
    let (f, args) = funcall(&n);
    assert_eq!(f, Builtin::Add);
    assert!(is_column(&args[0], "x"));
    assert!(is_column(&args[1], "x"));
    let n = run(&call("double", vec![val(4)]), &mut table, m).unwrap().unwrap();
    assert_eq!(const_of(&n), Some(8));
    let n = run(&call("plus-z", vec![val(4)]), &mut table, m).unwrap().unwrap();
    let (_, args) = funcall(&n);
    assert!(is_column(&args[1], "z"));
    assert!(matches!(
        run(&call("double", vec![]), &mut table, m),
        Err(Error::ArityMismatch)
    ));
    assert!(matches!(
        run(&call("double", vec![val(1), val(2)]), &mut table, m),
        Err(Error::ArityMismatch)
    ));
    // Each application has a scope of its own, closed for a pure function.
    let scopes: Vec<(String, bool)> = table
        .scopes
        .iter()
        .skip(2)
        .map(|s| (s.name.clone(), s.closed))
        .collect();
    assert_eq!(
        scopes,
        vec![
            ("fn-m.double-0".to_string(), true),
            ("fn-m.double-1".to_string(), true),
            ("fn-m.plus-z-2".to_string(), false),
        ]
    );
}

#[test]
fn pure_functions_cannot_read_columns() {
    let impure = defun("leak", &["v"], call("+", vec![sym("v"), sym("z")]), true);
    let (mut table, m) = with_functions(vec![impure]);
    assert!(matches!(
        run(&call("leak", vec![val(1)]), &mut table, m),
        Err(Error::ImpureUse)
    ));
}

#[test]
fn endless_recursion_is_cut() {
    let forever = defun("forever", &["v"], call("forever", vec![sym("v")]), false);
    let (mut table, m) = with_functions(vec![forever]);
    let mut counter = 0;
    let r = reduce(&call("forever", vec![val(1)]), &mut table, m, &SETTINGS, &mut counter, 16);
    assert!(matches!(r, Err(Error::DepthExceeded)));
}

#[test]
fn lowering_takes_reduced_arguments() {
    let x = || Node {
        _e: Expression::Column(Handle::new("m", "x"), Kind::Atomic),
        _t: Some(CB),
    };
    let n = lower(Builtin::Not, vec![x()]);
    let (f, args) = funcall(&n);
    assert_eq!(f, Builtin::Sub);
    assert_eq!(const_of(&args[0]), Some(1));
    let n = lower(Builtin::Add, vec![Node::from_const(2), Node::from_const(40)]);
    assert_eq!(const_of(&n), Some(42));
    let mut table = SymbolTable::new_root();
    assert!(matches!(
        apply_builtin(Builtin::Add, vec![x()], &mut table, 0),
        Err(Error::ArityMismatch)
    ));
    assert!(matches!(
        apply_builtin(Builtin::Not, vec![Node::from_const(2)], &mut table, 0),
        Err(Error::TypeMismatch)
    ));
}

#[test]
fn equality_of_booleans_evaluates_to_a_boolean() {
    let n = value(&call("eq", vec![val(0), val(0)]));
    // Literals are folded away only for arithmetic: the equality is kept.
    let settings = EvalSettings::default();
    let mut cache = None;
    let eval = |n: &Node| n.eval(0, &Padding {}, &mut None, &settings);
    assert_eq!(eval(&n), Some(Fr::zero()));
    let n = value(&call("eq", vec![val(1), val(0)]));
    assert_eq!(n.eval(0, &Padding {}, &mut cache, &settings), Some(Fr::one()));
    let n = value(&call("eq", vec![val(0), val(1)]));
    assert_eq!(eval(&n), Some(Fr::one()));
    let n = value(&call("eq", vec![val(1), val(1)]));
    assert_eq!(eval(&n), Some(Fr::zero()));
}

fn toplevel(e: &AstNode, table: &mut SymbolTable, ctx: &mut usize) -> Result<Option<Constraint>, Error> {
    let mut counter = 0;
    reduce_toplevel(e, table, ctx, &SETTINGS, &mut counter)
}

#[test]
fn constraints_are_lowered() {
    let (mut table, m) = module();
    let mut ctx = m;
    let e = node(Token::DefConstraint(
        "c".to_string(),
        Some(vec![0, -1]),
        Box::new(call("eq", vec![sym("x"), sym("y")])),
    ));
    match toplevel(&e, &mut table, &mut ctx).unwrap().unwrap() {
        Constraint::Vanishes { handle, domain, expr } => {
            assert_eq!(handle.module, "m");
            assert_eq!(handle.name, "c");
            assert_eq!(domain, Some(vec![0, -1]));
            assert_eq!(funcall(&expr).0, Builtin::Mul);
        }
        _ => panic!("not a vanishing constraint"),
    }
    let nothing = node(Token::DefConstraint(
        "d".to_string(),
        None,
        Box::new(node(Token::Type(CI))),
    ));
    match toplevel(&nothing, &mut table, &mut ctx).unwrap().unwrap() {
        Constraint::Vanishes { domain, expr, .. } => {
            assert_eq!(domain, None);
            assert!(matches!(&expr._e, Expression::Void));
        }
        _ => panic!("not a vanishing constraint"),
    }
}

#[test]
fn lookups_must_pair_their_columns() {
    let (mut table, m) = module();
    let mut ctx = m;
    let e = node(Token::DefPlookup(
        "l".to_string(),
        vec![sym("x"), sym("y")],
        vec![sym("z"), sym("x")],
    ));
    match toplevel(&e, &mut table, &mut ctx).unwrap().unwrap() {
        Constraint::Plookup(handle, parents, children) => {
            assert_eq!(handle.name, "l");
            assert!(is_column(&parents[0], "x"));
            assert!(is_column(&parents[1], "y"));
            assert!(is_column(&children[0], "z"));
            assert!(is_column(&children[1], "x"));
        }
        _ => panic!("not a lookup"),
    }
    let bad = node(Token::DefPlookup("l".to_string(), vec![sym("x")], vec![]));
    assert!(matches!(
        toplevel(&bad, &mut table, &mut ctx),
        Err(Error::IncoherentLengths)
    ));
}

#[test]
fn range_constraints_and_permutations_are_named_afresh() {
    let (mut table, m) = module();
    let mut ctx = m;
    let e = node(Token::DefInrange(Box::new(sym("z")), 256));
    match toplevel(&e, &mut table, &mut ctx).unwrap().unwrap() {
        Constraint::InRange(handle, expr, bound) => {
            assert_eq!(handle.module, "m");
            assert!(!handle.name.is_empty());
            assert!(is_column(&expr, "z"));
            assert_eq!(bound, 256);
        }
        _ => panic!("not a range constraint"),
    }
    let perm = node(Token::DefPermutation(vec![sym("x")], vec![sym("z")]));
    match toplevel(&perm, &mut table, &mut ctx).unwrap().unwrap() {
        Constraint::Permutation(handle, froms, tos) => {
            assert_eq!(handle.module, "m");
            assert_eq!(froms.len(), 1);
            assert_eq!(froms[0].name, "z");
            assert_eq!(tos[0].name, "x");
        }
        _ => panic!("not a permutation"),
    }
    let unknown = node(Token::DefPermutation(vec![sym("x")], vec![sym("nope")]));
    assert!(matches!(
        toplevel(&unknown, &mut table, &mut ctx),
        Err(Error::UnknownSymbol)
    ));
}

#[test]
fn expressions_are_not_top_level_forms() {
    let (mut table, m) = module();
    let mut ctx = m;
    for e in [val(1), sym("x"), call("+", vec![val(1), val(2)]), node(Token::Range(vec![1]))] {
        assert!(matches!(
            toplevel(&e, &mut table, &mut ctx),
            Err(Error::UnexpectedForm)
        ));
    }
}

#[test]
fn modules_change_the_current_scope() {
    let (mut table, m) = module();
    let mut ctx = m;
    let e = node(Token::DefModule("other".to_string()));
    assert!(matches!(toplevel(&e, &mut table, &mut ctx), Ok(None)));
    assert_eq!(ctx, 2);
    assert_eq!(table.scopes[2].name, "other");
    let back = node(Token::DefModule("m".to_string()));
    assert!(matches!(toplevel(&back, &mut table, &mut ctx), Ok(None)));
    assert_eq!(ctx, m);
}

#[test]
fn composite_columns_get_their_expression() {
    let mut table = SymbolTable::new_root();
    let body = call("+", vec![sym("x"), sym("x")]);
    let ast = Ast {
        exprs: vec![
            node(Token::DefModule("m".to_string())),
            node(Token::DefColumns(vec![
                defcolumn("x", CI),
                node(Token::DefColumn(
                    "k".to_string(),
                    CI,
                    Kind::Composite(Box::new(body)),
                )),
            ])),
            node(Token::DefConstraint("c".to_string(), None, Box::new(sym("k")))),
        ],
    };
    definitions::pass(&ast, &mut table).unwrap();
    let mut counter = 0;
    let constraints = pass(&ast, &mut table, &SETTINGS, &mut counter).unwrap();
    assert_eq!(constraints.len(), 1);
    match &constraints[0] {
        Constraint::Vanishes { expr, .. } => match &expr._e {
            Expression::Column(h, Kind::Composite(body)) => {
                assert_eq!(h.name, "k");
                assert_eq!(funcall(body).0, Builtin::Add);
            }
            _ => panic!("not a composite column"),
        },
        _ => panic!("not a vanishing constraint"),
    }
}

#[test]
fn errors_are_located_in_the_source() {
    let e = AstNode {
        class: Token::Symbol("x".to_string()),
        src: "(+ x 1)".to_string(),
        lc: (12, 3),
    };
    assert_eq!(make_ast_error(&e), "at line 12, column 3: (+ x 1)");
    let e = AstNode { class: Token::List(vec![]), src: String::new(), lc: (0, 0) };
    assert_eq!(make_ast_error(&e), "at line 0, column 0: ");
}

#[test]
fn literals_outside_the_field_are_refused() {
    // The order of the field, and what is just below it.
    let order = Integer::parse(
        "21888242871839275222246405745257275088548364400416034343698204186575808495617",
    )
    .unwrap();
    let below = order.sub(&Integer::from_u64(1));
    assert_eq!(failure(&node(Token::Value(order))), Error::NotInField);
    assert!(value(&node(Token::Value(below))).is_evaluable());
    // A negative constant is an amount of rows, and no element of the field.
    let back = value(&call("shift", vec![sym("z"), val(-1)]));
    assert!(back.is_evaluable());
    let minus = value(&val(-1));
    assert!(!minus.is_evaluable());
    let sum = value(&call("+", vec![sym("z"), val(-1)]));
    assert!(!sum.is_evaluable());
    let folded = value(&call("+", vec![val(3), val(-1)]));
    assert!(folded.is_evaluable());
    assert!(!value(&call("begin", vec![sym("z"), val(-2)])).is_evaluable());
    assert!(value(&call("^", vec![sym("z"), val(2)])).is_evaluable());
    // Where an element of the field is wanted, it is an error.
    let (mut table, m) = module();
    let mut ctx = m;
    let constraint = |body: AstNode| {
        node(Token::DefConstraint("c".to_string(), None, Box::new(body)))
    };
    assert_eq!(
        toplevel(&constraint(call("+", vec![sym("z"), val(-1)])), &mut table, &mut ctx).err(),
        Some(Error::NotInField)
    );
    assert_eq!(
        toplevel(&constraint(val(-1)), &mut table, &mut ctx).err(),
        Some(Error::NotInField)
    );
    assert!(toplevel(
        &constraint(call("shift", vec![sym("z"), val(-1)])),
        &mut table,
        &mut ctx
    )
    .is_ok());
    let range = node(Token::DefInrange(Box::new(call("*", vec![sym("z"), val(-3)])), 8));
    assert_eq!(toplevel(&range, &mut table, &mut ctx).err(), Some(Error::NotInField));
    let lookup = node(Token::DefPlookup(
        "l".to_string(),
        vec![sym("x")],
        vec![call("-", vec![sym("y"), val(-3)])],
    ));
    assert_eq!(toplevel(&lookup, &mut table, &mut ctx).err(), Some(Error::NotInField));
}
