use corset::compiler::common::{Arity, Form, FuncVerifier, Handle};
use corset::compiler::generator::Builtin;
use corset::compiler::types::{Magma, Type};
use corset::errors::Error;

#[test]
fn handles_are_identified_by_module_and_name() {
    let a = Handle::new("mod", "x");
    let b = Handle::with_id("mod", "x", 7);
    let c = Handle::new("mod", "y");
    let d = Handle::new("other", "x");
    assert!(a == b);
    assert!(b == a);
    assert!(a != c);
    assert!(a != d);
    assert_eq!(a.id, None);
    assert_eq!(b.id, Some(7));
}

#[test]
fn set_id_keeps_module_and_name() {
    let mut h = Handle::new("mod", "x");
    h.set_id(3);
    assert_eq!(h.id, Some(3));
    assert_eq!(h.module, "mod");
    assert_eq!(h.name, "x");
    h.set_id(5);
    assert_eq!(h.id, Some(5));
}

#[test]
fn clone_keeps_everything() {
    let h = Handle::with_id("mod", "x", 9);
    let c = h.clone();
    assert_eq!(c.module, "mod");
    assert_eq!(c.name, "x");
    assert_eq!(c.id, Some(9));
}

#[test]
fn ith_names_the_columns_of_an_array() {
    let h = Handle::with_id("mod", "a", 2);
    let third = h.ith(3);
    assert_eq!(third.module, "mod");
    assert_eq!(third.name, "a_3");
    assert_eq!(third.id, Some(2));
    assert_eq!(Handle::new("m", "a").ith(0).name, "a_0");
    assert_eq!(Handle::new("m", "a").ith(120).name, "a_120");
}

#[test]
fn purify_substitutes_glyphs() {
    assert_eq!(Handle::purify("plain_name9"), "plain_name9");
    assert_eq!(Handle::purify("a-b"), "asubb");
    assert_eq!(Handle::purify("a+b"), "aaddb");
    assert_eq!(Handle::purify("a*b"), "amulb");
    assert_eq!(Handle::purify("a/b"), "adivb");
    assert_eq!(Handle::purify("f(x)"), "f_x_");
    assert_eq!(Handle::purify("{a}[b]"), "_a__b_");
    assert_eq!(Handle::purify("a<b>c"), "abc");
    assert_eq!(Handle::purify("a:b%c.d"), "a_b_c_d");
    assert_eq!(Handle::purify("caf\u{e9}"), "caf_");
    assert_eq!(Handle::purify(""), "");
}

#[test]
fn mangle_joins_module_and_name() {
    assert_eq!(Handle::new("mod", "x").mangle(), "mod__x");
    assert_eq!(Handle::new("", "x").mangle(), "x");
    assert_eq!(Handle::new("bin-op", "a+b").mangle(), "binsubop__aaddb");
    assert_eq!(Handle::new("mod", "a_2").mangle(), "mod__a_2");
    assert_eq!(Handle::new("bin-op", "a+b").mangled_name(), "aaddb");
    assert_eq!(Handle::new("bin-op", "a+b").mangled_module(), "binsubop");
}

#[test]
fn mangle_tells_plain_handles_apart() {
    let handles = [
        Handle::new("a", "b"),
        Handle::new("a", "c"),
        Handle::new("b", "b"),
        Handle::new("ab", "b"),
        Handle::new("a", "bb"),
        Handle::new("a", "b_c"),
        Handle::new("", "ab"),
    ];
    for (i, x) in handles.iter().enumerate() {
        for (j, y) in handles.iter().enumerate() {
            assert_eq!(x.mangle() == y.mangle(), i == j);
        }
    }
}

#[test]
fn mangle_confuses_what_it_substitutes() {
    // Mangling is not injective on all handles.
    assert_eq!(Handle::new("m", "(").mangle(), Handle::new("m", ")").mangle());
    assert_eq!(Handle::new("a", "b__c").mangle(), Handle::new("a__b", "c").mangle());
}

#[test]
fn handle_as_text() {
    assert_eq!(Handle::new("mod", "x").to_string(), "mod.x");
}

#[test]
fn arity_validation() {
    assert_eq!(Arity::AtLeast(2).validate(2), Ok(()));
    assert_eq!(Arity::AtLeast(2).validate(5), Ok(()));
    assert_eq!(Arity::AtLeast(2).validate(1), Err(Error::ArityMismatch));
    assert_eq!(Arity::Monadic.validate(1), Ok(()));
    assert_eq!(Arity::Monadic.validate(0), Err(Error::ArityMismatch));
    assert_eq!(Arity::Monadic.validate(2), Err(Error::ArityMismatch));
    assert_eq!(Arity::Dyadic.validate(2), Ok(()));
    assert_eq!(Arity::Dyadic.validate(3), Err(Error::ArityMismatch));
    assert_eq!(Arity::Exactly(3).validate(3), Ok(()));
    assert_eq!(Arity::Exactly(3).validate(2), Err(Error::ArityMismatch));
    assert_eq!(Arity::Between(2, 3).validate(2), Ok(()));
    assert_eq!(Arity::Between(2, 3).validate(3), Ok(()));
    assert_eq!(Arity::Between(2, 3).validate(1), Err(Error::ArityMismatch));
    assert_eq!(Arity::Between(2, 3).validate(4), Err(Error::ArityMismatch));
}

#[test]
fn arity_messages() {
    assert_eq!(
        Arity::AtLeast(2).make_error(1),
        "expected at least 2 arguments, but received 1"
    );
    assert_eq!(Arity::Monadic.make_error(3), "expected 1 argument, but received 3");
    assert_eq!(Arity::Dyadic.make_error(0), "expected 2 arguments, but received 0");
    assert_eq!(Arity::Exactly(1).make_error(12), "expected 1 argument, but received 12");
    assert_eq!(
        Arity::Between(1, 3).make_error(4),
        "expected between 1 argument and 3 arguments, but received 4"
    );
    assert_eq!(Arity::Exactly(0).make_error(1), "expected 0 argument, but received 1");
}

#[test]
fn builtin_arities() {
    assert_eq!(Builtin::Add.arity(), Arity::AtLeast(2));
    assert_eq!(Builtin::Sub.arity(), Arity::AtLeast(2));
    assert_eq!(Builtin::Mul.arity(), Arity::AtLeast(2));
    assert_eq!(Builtin::Exp.arity(), Arity::Exactly(2));
    assert_eq!(Builtin::Eq.arity(), Arity::Exactly(2));
    assert_eq!(Builtin::Neg.arity(), Arity::Monadic);
    assert_eq!(Builtin::Inv.arity(), Arity::Monadic);
    assert_eq!(Builtin::Not.arity(), Arity::Monadic);
    assert_eq!(Builtin::Shift.arity(), Arity::Dyadic);
    assert_eq!(Builtin::Nth.arity(), Arity::Dyadic);
    assert_eq!(Builtin::Begin.arity(), Arity::AtLeast(1));
    assert_eq!(Builtin::IfZero.arity(), Arity::Between(2, 3));
    assert_eq!(Builtin::IfNotZero.arity(), Arity::Between(2, 3));
    assert_eq!(Form::For.arity(), Arity::Exactly(3));
    assert_eq!(Form::Let.arity(), Arity::Exactly(2));
    assert_eq!(Form::Debug.arity(), Arity::AtLeast(1));
}

const SB: Type = Type::Scalar(Magma::Boolean);
const SI: Type = Type::Scalar(Magma::Integer);
const CB: Type = Type::Column(Magma::Boolean);
const CI: Type = Type::Column(Magma::Integer);
const LB: Type = Type::List(Magma::Boolean);
const LI: Type = Type::List(Magma::Integer);

#[test]
fn join_of_types() {
    assert_eq!(SB.max(&SB), SB);
    assert_eq!(SB.max(&SI), SI);
    assert_eq!(SI.max(&SB), SI);
    assert_eq!(SB.max(&CB), CB);
    assert_eq!(CB.max(&SI), CI);
    assert_eq!(SI.max(&CB), CI);
    assert_eq!(CI.max(&CB), CI);
    assert_eq!(LB.max(&CI), LI);
    assert_eq!(SB.max(&LB), LB);
    assert_eq!(Type::Void.max(&CI), Type::Void);
    assert_eq!(CI.max(&Type::Void), Type::Void);
    assert_eq!(Type::infimum(), SB);
    assert_eq!(Type::max_all(&[]), SB);
    assert_eq!(Type::max_all(&[SB, CB, SI]), CI);
}

#[test]
fn join_is_a_join() {
    let all = [Type::Void, SB, SI, CB, CI, LB, LI];
    for a in all {
        assert_eq!(a.max(&a), a);
        assert_eq!(Type::infimum().max(&a), a);
        for b in all {
            assert_eq!(a.max(&b), b.max(&a));
            for c in all {
                assert_eq!(a.max(&b).max(&c), a.max(&b.max(&c)));
            }
        }
    }
}

#[test]
fn predicates_on_types() {
    assert!(SB.is_value() && SI.is_value() && CB.is_value() && CI.is_value());
    assert!(!LB.is_value() && !Type::Void.is_value());
    assert!(SB.is_scalar() && !CB.is_scalar());
    assert!(CI.is_column() && !SI.is_column());
    assert!(SB.is_bool() && CB.is_bool() && LB.is_bool());
    assert!(!SI.is_bool() && !CI.is_bool() && !Type::Void.is_bool());
    assert_eq!(CI.magma(), Magma::Integer);
    assert_eq!(CB.magma(), Magma::Boolean);
    assert_eq!(CI.same_scale(Magma::Boolean), CB);
    assert_eq!(SB.same_scale(Magma::Integer), SI);
    assert_eq!(CI.as_scalar(), SI);
    assert_eq!(CB.as_scalar(), SB);
    assert_eq!(Type::Void.as_scalar(), Type::Void);
}

#[test]
fn arithmetic_on_booleans_gives_integers() {
    for op in [Builtin::Add, Builtin::Sub, Builtin::Neg, Builtin::Inv] {
        assert_eq!(op.typing(&[SB, SB]), SI);
        assert_eq!(op.typing(&[CB, SB]), CI);
        assert_eq!(op.typing(&[CB]), CI);
        assert_eq!(op.typing(&[SB]), SI);
        assert_eq!(op.typing(&[SI, SB]), SI);
        assert_eq!(op.typing(&[CI, CB]), CI);
    }
}

#[test]
fn other_operations_join_the_magmas() {
    for op in [Builtin::Mul, Builtin::Eq] {
        assert_eq!(op.typing(&[SB, SB]), SB);
        assert_eq!(op.typing(&[CB, SB]), CB);
        assert_eq!(op.typing(&[CB, SI]), CI);
    }
    assert_eq!(Builtin::Begin.typing(&[CB, SB]), LB);
    assert_eq!(Builtin::Begin.typing(&[CB, SI]), LI);
    assert_eq!(Builtin::Not.typing(&[CB]), CB);
    assert_eq!(Builtin::Not.typing(&[SB]), SB);
}

#[test]
fn typing_of_the_other_operations() {
    // The magma is the join of the magmas of all the arguments.
    assert_eq!(Builtin::Exp.typing(&[CB, SI]), CI);
    assert_eq!(Builtin::Exp.typing(&[CB, SB]), CB);
    assert_eq!(Builtin::Exp.typing(&[SB, SI]), SI);
    assert_eq!(Builtin::Shift.typing(&[CI, SI]), CI);
    assert_eq!(Builtin::Shift.typing(&[CB, SB]), CB);
    assert_eq!(Builtin::Shift.typing(&[CB, SI]), CI);
    assert_eq!(Builtin::Nth.typing(&[CI, SI]), CI);
    assert_eq!(Builtin::Nth.typing(&[CB, SI]), CI);
    assert_eq!(Builtin::IfZero.typing(&[CI, SB]), SI);
    assert_eq!(Builtin::IfZero.typing(&[CB, SB]), SB);
    assert_eq!(Builtin::IfZero.typing(&[CI, SB, CI]), CI);
    assert_eq!(Builtin::IfZero.typing(&[CI, SB, CB]), CI);
    assert_eq!(Builtin::IfZero.typing(&[CB, SB, CB]), CB);
    assert_eq!(Builtin::IfNotZero.typing(&[SB, CB, SI]), CI);
    assert_eq!(Builtin::Not.typing(&[CB]), CB);
    assert_eq!(Builtin::Not.typing(&[CI]), CI);
    assert_eq!(Builtin::Len.typing(&[CI]), SI);
    assert_eq!(Builtin::Len.typing(&[CB]), SB);
    assert_eq!(Builtin::Exp.typing(&[]), SB);
    assert_eq!(Builtin::IfZero.typing(&[CI]), CI);
}
