use corset::compiler::common::{Form, Handle};
use corset::compiler::definitions::{Symbol, SymbolTable};
use corset::compiler::generator::{Builtin, Defined, Function, FunctionClass};
use corset::compiler::node::{Expression, Kind, Node};
use corset::compiler::parser::{AstNode, Token};
use corset::compiler::types::{Magma, Type};
use corset::errors::Error;
use corset::integer::Integer;
use std::rc::Rc;

fn column(module: &str, name: &str) -> Node {
    Node {
        _e: Expression::Column(Handle::new(module, name), Kind::Atomic),
        _t: Some(Type::Column(Magma::Integer)),
    }
}

fn is_column(n: &Node, module: &str, name: &str) -> bool {
    match &n._e {
        Expression::Column(h, _) => h.module == module && h.name == name,
        _ => false,
    }
}

fn constant_value(n: &Node) -> Option<i64> {
    match &n._e {
        Expression::Const(x, _) => x.to_isize().map(|v| v as i64),
        _ => None,
    }
}

fn error_of<T>(r: Result<T, Error>) -> Option<Error> {
    match r {
        Ok(_) => None,
        Err(e) => Some(e),
    }
}

#[test]
fn the_root_binds_the_primitives() {
    let table = SymbolTable::new_root();
    assert_eq!(table.scopes.len(), 1);
    assert!(table.scopes[0].closed);
    assert_eq!(table.scopes[0].name, "<prelude>");
    assert_eq!(table.scopes[0].pretty_name, "");
    assert_eq!(table.scopes[0].parent, None);
    let builtins = [
        ("nth", Builtin::Nth),
        ("len", Builtin::Len),
        ("inv", Builtin::Inv),
        ("neg", Builtin::Neg),
        ("not", Builtin::Not),
        ("eq", Builtin::Eq),
        ("shift", Builtin::Shift),
        ("+", Builtin::Add),
        ("-", Builtin::Sub),
        ("*", Builtin::Mul),
        ("^", Builtin::Exp),
        ("begin", Builtin::Begin),
        ("if-zero", Builtin::IfZero),
        ("if-not-zero", Builtin::IfNotZero),
    ];
    for (name, b) in builtins {
        let f = table.resolve_function(0, name).unwrap();
        assert!(matches!(f.class, FunctionClass::Builtin(x) if x == b));
        assert_eq!(f.handle.module, "<prelude>");
        assert_eq!(f.handle.name, name);
    }
    for (name, form) in [("for", Form::For), ("let", Form::Let), ("debug", Form::Debug)] {
        let f = table.resolve_function(0, name).unwrap();
        assert!(matches!(f.class, FunctionClass::SpecialForm(x) if x == form));
    }
    assert_eq!(error_of(table.resolve_function(0, "nope")), Some(Error::UnknownFunction));
}

#[test]
fn derived_scopes_are_made_once() {
    let mut table = SymbolTable::new_root();
    let a = table.derived(0, "a", "A", false);
    assert_eq!(a, 1);
    assert_eq!(table.scopes.len(), 2);
    assert_eq!(table.scopes[a].name, "a");
    assert_eq!(table.scopes[a].pretty_name, "A");
    assert!(!table.scopes[a].closed);
    assert_eq!(table.scopes[a].parent, Some(0));
    let again = table.derived(0, "a", "other", true);
    assert_eq!(again, a);
    assert_eq!(table.scopes.len(), 2);
    assert_eq!(table.scopes[a].pretty_name, "A");
    assert!(!table.scopes[a].closed);
    let b = table.derived(a, "b", "B", true);
    assert_eq!(b, 2);
    assert_eq!(table.scopes[b].parent, Some(a));
    assert!(table.scopes[b].closed);
    let c = table.derived(0, "b", "B", false);
    assert_eq!(c, 3);
}

#[test]
fn symbols_are_bound_once() {
    let mut table = SymbolTable::new_root();
    let m = table.derived(0, "m", "m", false);
    assert_eq!(table.insert_symbol(m, "x", column("m", "x")), Ok(()));
    assert_eq!(table.insert_symbol(m, "x", column("m", "x")), Err(Error::DuplicateSymbol));
    assert_eq!(table.insert_alias(m, "x", "y"), Err(Error::DuplicateSymbol));
    assert_eq!(
        table.insert_constant(m, "x", Integer::from_u64(3)),
        Err(Error::DuplicateSymbol)
    );
    assert_eq!(table.insert_alias(m, "y", "x"), Ok(()));
    assert_eq!(table.insert_alias(m, "y", "x"), Err(Error::DuplicateSymbol));
    // The same name is free in another scope.
    let n = table.derived(0, "n", "n", false);
    assert_eq!(table.insert_symbol(n, "x", column("n", "x")), Ok(()));
}

#[test]
fn constraints_are_declared_once() {
    let mut table = SymbolTable::new_root();
    let m = table.derived(0, "m", "m", false);
    assert_eq!(table.insert_constraint(m, "c"), Ok(()));
    assert_eq!(table.insert_constraint(m, "c"), Err(Error::DuplicateConstraint));
    assert_eq!(table.insert_constraint(m, "d"), Ok(()));
    assert_eq!(table.insert_constraint(0, "c"), Ok(()));
}

#[test]
fn functions_are_bound_once() {
    let mut table = SymbolTable::new_root();
    let m = table.derived(0, "m", "m", false);
    let f = || Function {
        handle: Handle::new("m", "f"),
        class: FunctionClass::Builtin(Builtin::Add),
    };
    assert_eq!(table.insert_function(m, "f", f()), Ok(()));
    assert_eq!(table.insert_function(m, "f", f()), Err(Error::DuplicateFunction));
    assert_eq!(table.insert_funalias(m, "f", "+"), Err(Error::DuplicateFunction));
    assert_eq!(table.insert_funalias(m, "plus", "+"), Ok(()));
    assert_eq!(table.insert_funalias(m, "plus", "+"), Err(Error::DuplicateFunction));
    // A primitive cannot be redefined at the root.
    assert_eq!(table.insert_function(0, "+", f()), Err(Error::DuplicateFunction));
}

#[test]
fn constants_are_typed_by_their_value() {
    let mut table = SymbolTable::new_root();
    let m = table.derived(0, "m", "m", false);
    assert_eq!(table.insert_constant(m, "zero", Integer::from_u64(0)), Ok(()));
    assert_eq!(table.insert_constant(m, "one", Integer::from_u64(1)), Ok(()));
    assert_eq!(table.insert_constant(m, "two", Integer::from_u64(2)), Ok(()));
    let zero = table.resolve_symbol(m, "zero").unwrap();
    let one = table.resolve_symbol(m, "one").unwrap();
    let two = table.resolve_symbol(m, "two").unwrap();
    assert_eq!(zero.t(), Type::Scalar(Magma::Boolean));
    assert_eq!(one.t(), Type::Scalar(Magma::Boolean));
    assert_eq!(two.t(), Type::Scalar(Magma::Integer));
    assert_eq!(constant_value(&two), Some(2));
    assert!(matches!(&two._e, Expression::Const(_, Some(f)) if f.to_u64() == Some(2)));
}

#[test]
fn constants_outside_the_field_are_refused() {
    let mut table = SymbolTable::new_root();
    let m = table.derived(0, "m", "m", false);
    assert_eq!(
        table.insert_constant(m, "neg", Integer::from_i64(-1)),
        Err(Error::NotInField)
    );
    let huge = Integer::from_parts(false, vec![0, 0, 0, 0, 0, 0, 0, 0, 1]);
    assert_eq!(table.insert_constant(m, "huge", huge), Err(Error::NotInField));
    // Nothing was bound.
    assert_eq!(
        error_of(table.resolve_symbol(m, "neg")),
        Some(Error::UnknownSymbol)
    );
}

#[test]
fn resolution_marks_the_symbol_as_used() {
    let mut table = SymbolTable::new_root();
    let m = table.derived(0, "m", "m", false);
    table.insert_symbol(m, "x", column("m", "x")).unwrap();
    table.insert_symbol(m, "y", column("m", "y")).unwrap();
    let used = |table: &SymbolTable, name: &str| match table.scopes[m].symbols.get(name) {
        Some(Symbol::Final(_, used)) => *used,
        _ => panic!("no such symbol"),
    };
    assert!(!used(&table, "x"));
    let n = table.resolve_symbol(m, "x").unwrap();
    assert!(is_column(&n, "m", "x"));
    assert!(used(&table, "x"));
    assert!(!used(&table, "y"));
}

#[test]
fn aliases_are_followed() {
    let mut table = SymbolTable::new_root();
    let m = table.derived(0, "m", "m", false);
    table.insert_symbol(m, "x", column("m", "x")).unwrap();
    table.insert_alias(m, "a", "x").unwrap();
    table.insert_alias(m, "b", "a").unwrap();
    table.insert_alias(m, "c", "b").unwrap();
    for name in ["x", "a", "b", "c"] {
        let n = table.resolve_symbol(m, name).unwrap();
        assert!(is_column(&n, "m", "x"));
    }
}

#[test]
fn symbols_resolve_alike_from_inner_scopes() {
    let mut table = SymbolTable::new_root();
    let m = table.derived(0, "m", "m", false);
    table.insert_symbol(m, "x", column("m", "x")).unwrap();
    table.insert_alias(m, "a", "x").unwrap();
    let inner = table.derived(m, "for-0-1", "m", false);
    let deeper = table.derived(inner, "for-1-1", "m", false);
    for scope in [m, inner, deeper] {
        for name in ["x", "a"] {
            let n = table.resolve_symbol(scope, name).unwrap();
            assert!(is_column(&n, "m", "x"));
        }
    }
    // An inner binding shadows the outer one.
    table
        .insert_constant(deeper, "x", Integer::from_u64(5))
        .unwrap();
    assert_eq!(constant_value(&table.resolve_symbol(deeper, "x").unwrap()), Some(5));
    assert!(is_column(&table.resolve_symbol(inner, "x").unwrap(), "m", "x"));
}

#[test]
fn an_alias_to_nothing_is_unknown() {
    let mut table = SymbolTable::new_root();
    let m = table.derived(0, "m", "m", false);
    table.insert_alias(m, "a", "nowhere").unwrap();
    assert_eq!(error_of(table.resolve_symbol(m, "a")), Some(Error::UnknownSymbol));
    assert_eq!(error_of(table.resolve_symbol(m, "z")), Some(Error::UnknownSymbol));
}

#[test]
fn cycles_of_aliases_are_detected() {
    let mut table = SymbolTable::new_root();
    let m = table.derived(0, "m", "m", false);
    table.insert_alias(m, "a", "a").unwrap();
    assert_eq!(error_of(table.resolve_symbol(m, "a")), Some(Error::CircularDefinition));
    table.insert_alias(m, "b", "c").unwrap();
    table.insert_alias(m, "c", "b").unwrap();
    assert_eq!(error_of(table.resolve_symbol(m, "b")), Some(Error::CircularDefinition));
    assert_eq!(error_of(table.resolve_symbol(m, "c")), Some(Error::CircularDefinition));
    // A chain that runs into a cycle.
    table.insert_alias(m, "d", "e").unwrap();
    table.insert_alias(m, "e", "f").unwrap();
    table.insert_alias(m, "f", "e").unwrap();
    assert_eq!(error_of(table.resolve_symbol(m, "d")), Some(Error::CircularDefinition));
    // From an inner scope too.
    let inner = table.derived(m, "inner", "m", false);
    assert_eq!(error_of(table.resolve_symbol(inner, "b")), Some(Error::CircularDefinition));
}

#[test]
fn cycles_of_function_aliases_are_detected() {
    let mut table = SymbolTable::new_root();
    let m = table.derived(0, "m", "m", false);
    table.insert_funalias(m, "f", "g").unwrap();
    table.insert_funalias(m, "g", "f").unwrap();
    assert_eq!(error_of(table.resolve_function(m, "f")), Some(Error::CircularDefinition));
    table.insert_funalias(m, "h", "h").unwrap();
    assert_eq!(error_of(table.resolve_function(m, "h")), Some(Error::CircularDefinition));
}

#[test]
fn function_aliases_are_followed() {
    let mut table = SymbolTable::new_root();
    let m = table.derived(0, "m", "m", false);
    table.insert_funalias(m, "plus", "+").unwrap();
    table.insert_funalias(m, "sum", "plus").unwrap();
    let f = table.resolve_function(m, "sum").unwrap();
    assert!(matches!(f.class, FunctionClass::Builtin(Builtin::Add)));
    let inner = table.derived(m, "inner", "m", true);
    let f = table.resolve_function(inner, "sum").unwrap();
    assert!(matches!(f.class, FunctionClass::Builtin(Builtin::Add)));
    assert_eq!(error_of(table.resolve_function(m, "nope")), Some(Error::UnknownFunction));
}

#[test]
fn user_functions_keep_their_definition() {
    let mut table = SymbolTable::new_root();
    let m = table.derived(0, "m", "m", false);
    let body = Rc::new(AstNode {
        class: Token::Symbol("x".to_string()),
        src: "x".to_string(),
        lc: (1, 1),
    });
    let f = Function {
        handle: Handle::new("m", "id"),
        class: FunctionClass::UserDefined(Defined {
            pure: true,
            args: vec!["x".to_string()],
            body,
        }),
    };
    table.insert_function(m, "id", f).unwrap();
    let g = table.resolve_function(m, "id").unwrap();
    match g.class {
        FunctionClass::UserDefined(d) => {
            assert!(d.pure);
            assert_eq!(d.args, vec!["x".to_string()]);
            assert!(matches!(&d.body.class, Token::Symbol(s) if s == "x"));
        }
        _ => panic!("not a user function"),
    }
}

#[test]
fn closed_scopes_only_see_constants() {
    let mut table = SymbolTable::new_root();
    let m = table.derived(0, "m", "m", false);
    table.insert_symbol(m, "x", column("m", "x")).unwrap();
    table.insert_constant(m, "k", Integer::from_u64(7)).unwrap();
    table.insert_alias(m, "ax", "x").unwrap();
    let pure = table.derived(m, "fn-0", "f", true);
    assert_eq!(error_of(table.resolve_symbol(pure, "x")), Some(Error::ImpureUse));
    assert_eq!(error_of(table.resolve_symbol(pure, "ax")), Some(Error::ImpureUse));
    assert_eq!(constant_value(&table.resolve_symbol(pure, "k").unwrap()), Some(7));
    // What the closed scope binds itself is seen, whatever it is.
    table.insert_symbol(pure, "arg", column("m", "x")).unwrap();
    assert!(is_column(&table.resolve_symbol(pure, "arg").unwrap(), "m", "x"));
    // The restriction holds from deeper scopes too.
    let inner = table.derived(pure, "for-1-1", "f", false);
    assert_eq!(error_of(table.resolve_symbol(inner, "x")), Some(Error::ImpureUse));
    assert!(is_column(&table.resolve_symbol(inner, "arg").unwrap(), "m", "x"));
    // An open scope sees everything.
    let open = table.derived(m, "fn-1", "g", false);
    assert!(is_column(&table.resolve_symbol(open, "x").unwrap(), "m", "x"));
}

#[test]
fn the_root_is_closed_for_modules() {
    let mut table = SymbolTable::new_root();
    table.insert_symbol(0, "g", column("<prelude>", "g")).unwrap();
    table.insert_constant(0, "k", Integer::from_u64(2)).unwrap();
    let m = table.derived(0, "m", "m", false);
    // The module is open, so symbols of the root are seen from it.
    assert!(is_column(&table.resolve_symbol(m, "g").unwrap(), "<prelude>", "g"));
    assert_eq!(constant_value(&table.resolve_symbol(m, "k").unwrap()), Some(2));
}

#[test]
fn dotted_paths_start_at_the_root() {
    let mut table = SymbolTable::new_root();
    let m = table.derived(0, "m", "m", false);
    let n = table.derived(0, "n", "n", false);
    table.insert_symbol(m, "x", column("m", "x")).unwrap();
    table.insert_symbol(n, "y", column("n", "y")).unwrap();
    assert!(is_column(&table.resolve_symbol(n, "m.x").unwrap(), "m", "x"));
    assert!(is_column(&table.resolve_symbol(m, "n.y").unwrap(), "n", "y"));
    assert!(is_column(&table.resolve_symbol(0, "m.x").unwrap(), "m", "x"));
    assert_eq!(error_of(table.resolve_symbol(m, "o.x")), Some(Error::UnknownModule));
    assert_eq!(error_of(table.resolve_symbol(m, "m.z")), Some(Error::UnknownSymbol));
    // A path is looked up where it leads and nowhere else.
    table.insert_symbol(0, "g", column("<prelude>", "g")).unwrap();
    assert_eq!(error_of(table.resolve_symbol(m, "m.g")), Some(Error::UnknownSymbol));
    assert_eq!(error_of(table.resolve_symbol(m, "m.n.y")), Some(Error::UnknownModule));
}

#[test]
fn editing_makes_a_column_composite() {
    let mut table = SymbolTable::new_root();
    let m = table.derived(0, "m", "m", false);
    table.insert_symbol(m, "x", column("m", "x")).unwrap();
    table.insert_constant(m, "k", Integer::from_u64(7)).unwrap();
    table.insert_alias(m, "a", "x").unwrap();
    assert_eq!(table.edit_symbol(m, "x", Node::one()), Ok(()));
    let n = table.resolve_symbol(m, "x").unwrap();
    match &n._e {
        Expression::Column(h, Kind::Composite(body)) => {
            assert_eq!(h.name, "x");
            assert_eq!(constant_value(body), Some(1));
        }
        _ => panic!("not a composite column"),
    }
    // A constant is left as it is.
    assert_eq!(table.edit_symbol(m, "k", Node::one()), Ok(()));
    assert_eq!(constant_value(&table.resolve_symbol(m, "k").unwrap()), Some(7));
    assert_eq!(table.edit_symbol(m, "a", Node::one()), Err(Error::CircularDefinition));
    assert_eq!(table.edit_symbol(m, "z", Node::one()), Err(Error::UnknownSymbol));
    // From an inner scope, the outer symbol is edited.
    let inner = table.derived(m, "inner", "m", false);
    table.insert_symbol(m, "y", column("m", "y")).unwrap();
    assert_eq!(table.edit_symbol(inner, "y", Node::zero()), Ok(()));
    assert!(matches!(
        &table.resolve_symbol(m, "y").unwrap()._e,
        Expression::Column(_, Kind::Composite(_))
    ));
}

#[test]
fn a_chain_of_aliases_resolves_alike_from_every_scope() {
    let mut table = SymbolTable::new_root();
    let home = table.derived(0, "m", "m", false);
    let inner = table.derived(home, "inner", "inner", false);
    let deeper = table.derived(inner, "deeper", "deeper", false);
    let aside = table.derived(home, "aside", "aside", false);
    table.insert_symbol(home, "x", column("m", "x")).unwrap();
    table.insert_alias(home, "c", "x").unwrap();
    table.insert_alias(home, "b", "c").unwrap();
    table.insert_alias(home, "a", "b").unwrap();
    for scope in [home, inner, deeper, aside] {
        for name in ["a", "b", "c", "x"] {
            let n = table.resolve_symbol(scope, name).unwrap();
            assert!(is_column(&n, "m", "x"), "{name} from {scope}");
        }
    }
}

#[test]
fn closed_scopes_see_constants_however_far_above() {
    let mut table = SymbolTable::new_root();
    let home = table.derived(0, "m", "m", false);
    let open = table.derived(home, "open", "open", false);
    let closed = table.derived(open, "closed", "closed", true);
    let below = table.derived(closed, "below", "below", false);
    table.insert_constant(home, "k", Integer::from_u64(7)).unwrap();
    table.insert_symbol(home, "x", column("m", "x")).unwrap();
    table.insert_symbol(closed, "p", column("m", "p")).unwrap();
    for scope in [closed, below] {
        let k = table.resolve_symbol(scope, "k").unwrap();
        assert_eq!(constant_value(&k), Some(7));
        assert_eq!(error_of(table.resolve_symbol(scope, "x")), Some(Error::ImpureUse));
    }
    // What the closed scope binds itself is found, whatever it is.
    assert!(is_column(&table.resolve_symbol(closed, "p").unwrap(), "m", "p"));
    assert!(is_column(&table.resolve_symbol(below, "p").unwrap(), "m", "p"));
    assert!(is_column(&table.resolve_symbol(open, "x").unwrap(), "m", "x"));
}
