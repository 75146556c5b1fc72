use corset::column::{Column, ColumnSet, Computation};
use corset::compiler::common::Handle;
use corset::compiler::definitions::ComputationTable;
use corset::compiler::node::{Kind, Node};
use corset::compiler::types::{Magma, Type};
use corset::errors::Error;
use corset::field::Fr;

const CB: Type = Type::Column(Magma::Boolean);
const CI: Type = Type::Column(Magma::Integer);

fn frs(xs: &[u64]) -> Vec<Fr> {
    xs.iter().map(|x| Fr::from_u64(*x)).collect()
}

fn error_of<T>(r: Result<T, Error>) -> Option<Error> {
    r.err()
}

#[test]
fn a_new_column_has_no_values() {
    let c = Column::new(Kind::Atomic, CI);
    assert!(!c.is_computed());
    assert_eq!(c.len(), None);
    assert_eq!(c.padded_len(), None);
    assert_eq!(c.spilling(), 0);
    assert!(c.value().is_none());
    assert_eq!(c.get(0, false), None);
    assert_eq!(c.get(-1, true), None);
    assert_eq!(c.t(), CI);
    assert!(matches!(c.kind(), Kind::Atomic));
    assert!(matches!(Column::composite(CI).kind(), Kind::Composite(_)));
    assert!(matches!(Column::sorted(CI).kind(), Kind::Phantom));
    let froms = vec![Handle::new("m", "a"), Handle::new("m", "b")];
    match Column::interleaved(froms, CB).kind() {
        Kind::Interleaved(hs) => assert_eq!(hs.len(), 2),
        _ => panic!("not an interleaved column"),
    }
}

#[test]
fn an_atomic_column_holds_its_values() {
    let c = Column::atomic(frs(&[5, 6, 7]), CB);
    assert!(c.is_computed());
    assert_eq!(c.len(), Some(3));
    assert_eq!(c.padded_len(), Some(3));
    assert_eq!(c.t(), CB);
    assert_eq!(c.value(), Some(&frs(&[5, 6, 7])));
    assert_eq!(c.get(0, false), Some(&Fr::from_u64(5)));
    assert_eq!(c.get(2, false), Some(&Fr::from_u64(7)));
    assert_eq!(c.get(3, false), None);
    assert_eq!(c.get(-1, false), None);
    assert_eq!(c.get(-1, true), Some(&Fr::from_u64(7)));
    assert_eq!(c.get(-3, true), Some(&Fr::from_u64(5)));
    assert_eq!(c.get(-4, true), None);
    assert_eq!(c.get(isize::MIN, true), None);
    assert_eq!(c.get(isize::MAX, false), None);
}

#[test]
fn spilling_gives_rows_before_row_zero() {
    let mut c = Column::new(Kind::Phantom, CI);
    c.set_raw_value(frs(&[0, 0, 5, 6, 7]), 2);
    assert_eq!(c.len(), Some(3));
    assert_eq!(c.padded_len(), Some(5));
    assert_eq!(c.spilling(), 2);
    assert_eq!(c.get(0, false), Some(&Fr::from_u64(5)));
    assert_eq!(c.get(2, false), Some(&Fr::from_u64(7)));
    assert_eq!(c.get(3, false), None);
    assert_eq!(c.get(-1, false), Some(&Fr::from_u64(0)));
    assert_eq!(c.get(-2, false), Some(&Fr::from_u64(0)));
    assert_eq!(c.get(-3, false), None);
    // Counted from the end, the rows before row zero are the first.
    assert_eq!(c.get(-1, true), Some(&Fr::from_u64(7)));
    assert_eq!(c.get(-5, true), Some(&Fr::from_u64(0)));
    assert_eq!(c.get(-6, true), None);
    assert!(matches!(c.kind(), Kind::Phantom));
}

#[test]
fn columns_get_dense_ids() {
    let mut cs = ColumnSet::new();
    assert_eq!(cs.len(), 0);
    assert_eq!(cs.insert_atomic("m", "a", CI, false), Ok(()));
    assert_eq!(cs.insert_atomic("m", "b", CB, false), Ok(()));
    assert_eq!(cs.insert_composite("n", "a", CI, false), Ok(()));
    assert_eq!(cs.insert_sorted("n", "s", CI, false), Ok(()));
    assert_eq!(cs.len(), 4);
    assert_eq!(cs.id_of(&Handle::new("m", "a")), Some(0));
    assert_eq!(cs.id_of(&Handle::new("m", "b")), Some(1));
    assert_eq!(cs.id_of(&Handle::new("n", "a")), Some(2));
    assert_eq!(cs.id_of(&Handle::new("n", "s")), Some(3));
    assert_eq!(cs.id_of(&Handle::new("n", "b")), None);
    assert_eq!(cs.id_of(&Handle::new("o", "a")), None);
    assert_eq!(cs.column(1).t(), CB);
    assert!(matches!(cs.column(2).kind(), Kind::Composite(_)));
    assert!(matches!(cs.column(3).kind(), Kind::Phantom));
    assert_eq!(cs.handle(2).module, "n");
    assert_eq!(cs.handle(2).name, "a");
    assert_eq!(cs.handle(2).id, Some(2));
    assert!(cs.get(&Handle::new("m", "a")).is_ok());
    assert_eq!(error_of(cs.get(&Handle::new("m", "z"))), Some(Error::UnknownColumn));
}

#[test]
fn duplicates_are_refused_unless_allowed() {
    let mut cs = ColumnSet::new();
    cs.insert_atomic("m", "a", CI, false).unwrap();
    assert_eq!(cs.insert_atomic("m", "a", CB, false), Err(Error::DuplicateSymbol));
    assert_eq!(cs.insert_composite("m", "a", CB, false), Err(Error::DuplicateSymbol));
    assert_eq!(cs.insert_sorted("m", "a", CB, false), Err(Error::DuplicateSymbol));
    assert_eq!(cs.column(0).t(), CI);
    assert_eq!(cs.len(), 1);
    // Allowed, the new column takes the place of the old one.
    assert_eq!(cs.insert_atomic("m", "a", CB, true), Ok(()));
    assert_eq!(cs.len(), 1);
    assert_eq!(cs.id_of(&Handle::new("m", "a")), Some(0));
    assert_eq!(cs.column(0).t(), CB);
    assert_eq!(
        cs.insert_column("m", "a", Column::atomic(frs(&[1]), CI), true),
        Ok(0)
    );
    assert_eq!(cs.column(0).len(), Some(1));
}

#[test]
fn array_columns_are_one_column_for_each_index() {
    let mut cs = ColumnSet::new();
    cs.insert_atomic("m", "x", CI, false).unwrap();
    assert_eq!(cs.insert_array("m", "a", CB, &[1, 2, 5], false), Ok(()));
    assert_eq!(cs.len(), 4);
    assert_eq!(cs.id_of(&Handle::new("m", "a_1")), Some(1));
    assert_eq!(cs.id_of(&Handle::new("m", "a_2")), Some(2));
    assert_eq!(cs.id_of(&Handle::new("m", "a_5")), Some(3));
    assert_eq!(cs.id_of(&Handle::new("m", "a")), None);
    assert_eq!(cs.id_of(&Handle::new("m", "a_3")), None);
    for id in 1..4 {
        assert_eq!(cs.column(id).t(), CB);
        assert!(matches!(cs.column(id).kind(), Kind::Atomic));
        assert!(!cs.column(id).is_computed());
    }
}

#[test]
fn array_columns_clash_with_what_is_declared() {
    let mut cs = ColumnSet::new();
    cs.insert_atomic("m", "a_2", CI, false).unwrap();
    assert_eq!(
        cs.insert_array("m", "a", CB, &[1, 2, 3], false),
        Err(Error::DuplicateSymbol)
    );
    // An index that occurs twice clashes with itself.
    let mut cs = ColumnSet::new();
    assert_eq!(
        cs.insert_array("m", "a", CB, &[1, 1], false),
        Err(Error::DuplicateSymbol)
    );
    let mut cs = ColumnSet::new();
    cs.insert_atomic("m", "a_2", CI, false).unwrap();
    assert_eq!(cs.insert_array("m", "a", CB, &[1, 2, 2], true), Ok(()));
    assert_eq!(cs.len(), 2);
    assert_eq!(cs.column(0).t(), CB);
    // The same name in another module is another column.
    let mut cs = ColumnSet::new();
    cs.insert_atomic("n", "a_2", CI, false).unwrap();
    assert_eq!(cs.insert_array("m", "a", CB, &[2], false), Ok(()));
}

#[test]
fn values_are_set_by_id() {
    let mut cs = ColumnSet::new();
    cs.insert_atomic("m", "a", CI, false).unwrap();
    cs.insert_atomic("m", "b", CI, false).unwrap();
    cs.set_raw_value(1, frs(&[0, 4, 5]), 1);
    assert!(!cs.column(0).is_computed());
    assert_eq!(cs.column(1).len(), Some(2));
    assert_eq!(cs.column(1).spilling(), 1);
    assert_eq!(cs.column(1).get(0, false), Some(&Fr::from_u64(4)));
    assert_eq!(cs.id_of(&Handle::new("m", "b")), Some(1));
}

#[test]
fn raw_lengths_are_recorded_once() {
    let mut cs = ColumnSet::new();
    assert_eq!(cs.raw_len_for_or_set("m", 5), 5);
    assert_eq!(cs.raw_len_for_or_set("m", 7), 5);
    assert_eq!(cs.raw_len_for_or_set("n", 7), 7);
    assert_eq!(cs.raw_len_for_or_set("m", 0), 5);
}

fn sorted(froms: &[&str], tos: &[&str]) -> Computation {
    Computation::Sorted {
        froms: froms.iter().map(|n| Handle::new("m", n)).collect(),
        tos: tos.iter().map(|n| Handle::new("m", n)).collect(),
    }
}

fn composite(target: &str) -> Computation {
    Computation::Composite { target: Handle::new("m", target), exp: Node::one() }
}

#[test]
fn a_column_has_one_computation() {
    let mut table = ComputationTable::new();
    assert_eq!(table.len(), 0);
    assert_eq!(table.insert(&Handle::new("m", "k"), composite("k")), Ok(()));
    assert_eq!(
        table.insert(&Handle::new("m", "k"), composite("k")),
        Err(Error::DuplicateTarget)
    );
    // The id of a handle does not tell it apart.
    assert_eq!(
        table.insert(&Handle::with_id("m", "k", 3), composite("k")),
        Err(Error::DuplicateTarget)
    );
    assert_eq!(table.insert(&Handle::new("m", "l"), composite("l")), Ok(()));
    assert_eq!(table.insert(&Handle::new("n", "k"), composite("k")), Ok(()));
    assert_eq!(table.len(), 3);
    assert_eq!(table.dependencies(&Handle::new("m", "k")), Some(0));
    assert_eq!(table.dependencies(&Handle::new("m", "l")), Some(1));
    assert_eq!(table.dependencies(&Handle::new("n", "k")), Some(2));
    assert_eq!(table.dependencies(&Handle::new("n", "l")), None);
    assert!(matches!(
        table.computation_for(&Handle::new("m", "l")),
        Some(Computation::Composite { target, .. }) if target.name == "l"
    ));
    assert!(table.computation_for(&Handle::new("m", "z")).is_none());
    assert!(table.get(2).is_some());
    assert!(table.get(3).is_none());
    assert_eq!(table.iter().len(), 3);
}

#[test]
fn a_computation_may_fill_several_columns() {
    let mut table = ComputationTable::new();
    table.insert(&Handle::new("m", "k"), composite("k")).unwrap();
    let targets = [Handle::new("m", "s"), Handle::new("m", "t"), Handle::new("m", "k")];
    assert_eq!(
        table.insert_many(&targets, sorted(&["a", "b", "c"], &["s", "t", "k"])),
        Ok(())
    );
    assert_eq!(table.len(), 2);
    for name in ["s", "t", "k"] {
        assert_eq!(table.dependencies(&Handle::new("m", name)), Some(1));
    }
    assert!(matches!(
        table.computation_for(&Handle::new("m", "k")),
        Some(Computation::Sorted { .. })
    ));
    assert_eq!(table.insert_many(&[], composite("z")), Ok(()));
    assert_eq!(table.len(), 3);
    assert_eq!(table.dependencies(&Handle::new("m", "z")), None);
}

#[test]
fn computations_get_the_ids_of_their_columns() {
    let mut cs = ColumnSet::new();
    for name in ["a", "b", "s", "t"] {
        cs.insert_atomic("m", name, CI, false).unwrap();
    }
    let mut table = ComputationTable::new();
    table
        .insert_many(
            &[Handle::new("m", "s"), Handle::new("m", "t")],
            sorted(&["a", "b"], &["s", "t"]),
        )
        .unwrap();
    table
        .insert(
            &Handle::new("m", "i"),
            Computation::Interleaved {
                target: Handle::new("m", "i"),
                froms: vec![Handle::new("m", "b"), Handle::new("m", "nope")],
            },
        )
        .unwrap();
    table.update_ids(&cs);
    match table.get(0).unwrap() {
        Computation::Sorted { froms, tos } => {
            assert_eq!(froms.iter().map(|h| h.id).collect::<Vec<_>>(), vec![Some(0), Some(1)]);
            assert_eq!(tos.iter().map(|h| h.id).collect::<Vec<_>>(), vec![Some(2), Some(3)]);
        }
        _ => panic!("not a sort"),
    }
    match table.get(1).unwrap() {
        Computation::Interleaved { target, froms } => {
            assert_eq!(target.id, None);
            assert_eq!(froms.iter().map(|h| h.id).collect::<Vec<_>>(), vec![Some(1), None]);
        }
        _ => panic!("not an interleaving"),
    }
    assert_eq!(table.dependencies(&Handle::new("m", "s")), Some(0));
}
