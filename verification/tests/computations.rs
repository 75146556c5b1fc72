use corset::column::{Column, ColumnSet, Computation};
use corset::compiler::assemble::{assemble, declare, make};
use corset::compiler::common::Handle;
use corset::compiler::constraint_set::ConstraintSet;
use corset::compiler::definitions::{ComputationTable, SymbolTable};
use corset::compiler::generator::{Builtin, CompileSettings, Constraint};
use corset::compiler::node::{Expression, Kind, Node};
use corset::compiler::parser::{Ast, AstNode, Token};
use corset::compiler::types::{Magma, Type};
use corset::compute::{
    compute, fill_column, fill_traces, next_power_of_two, pad, padding, parse_column, results,
    route, validate, Json, PaddingStrategy,
};
use corset::dict::HandleMap;
use corset::errors::Error;
use corset::field::Fr;
use corset::integer::Integer;
use corset::rows::{compare_rows, evaluate_rows, interleave, permute, sorted_order, Order};

const CB: Type = Type::Column(Magma::Boolean);
const CI: Type = Type::Column(Magma::Integer);

fn fr(x: u64) -> Fr {
    Fr::from_u64(x)
}

fn frs(xs: &[u64]) -> Vec<Fr> {
    xs.iter().map(|x| fr(*x)).collect()
}

fn h(name: &str) -> Handle {
    Handle::new("m", name)
}

fn col(name: &str) -> Node {
    Node { _e: Expression::Column(h(name), Kind::Atomic), _t: Some(CI) }
}

fn k(x: i64) -> Node {
    Node::from_const(x)
}

fn values(cs: &ConstraintSet, name: &str) -> Option<Vec<Fr>> {
    cs.get(&h(name)).unwrap().value().cloned()
}

/// A program over the module `m`: the atomic columns `a`, `b`, `c`, and
/// what is declared by `derived`.
fn program(derived: Vec<(&str, Kind<()>, Option<Computation>)>) -> ConstraintSet {
    let mut columns = ColumnSet::new();
    for name in ["a", "b", "c"] {
        columns.insert_atomic("m", name, CI, false).unwrap();
    }
    let mut computations = ComputationTable::new();
    for (name, kind, computation) in derived {
        columns
            .insert_column("m", name, Column::new(kind, CI), false)
            .unwrap();
        if let Some(c) = computation {
            match &c {
                Computation::Sorted { tos, .. } => {
                    computations.insert_many(tos, c.clone()).unwrap()
                }
                _ => computations.insert(&h(name), c).unwrap(),
            }
        }
    }
    ConstraintSet::new(columns, vec![], HandleMap::new(), computations)
}

fn fill(cs: &mut ConstraintSet, name: &str, xs: &[u64]) {
    let id = cs.modules.id_of(&h(name)).unwrap();
    cs.modules.set_raw_value(id, frs(xs), 0);
}

fn composite(name: &str, exp: Node) -> (&str, Kind<()>, Option<Computation>) {
    (
        name,
        Kind::Composite(Box::new(())),
        Some(Computation::Composite { target: h(name), exp }),
    )
}

#[test]
fn interleaving_takes_the_rows_in_turn() {
    assert_eq!(
        interleave(&vec![frs(&[1, 2]), frs(&[3, 4])]),
        Ok(frs(&[1, 3, 2, 4]))
    );
    assert_eq!(
        interleave(&vec![frs(&[1, 2, 3]), frs(&[4, 5, 6]), frs(&[7, 8, 9])]),
        Ok(frs(&[1, 4, 7, 2, 5, 8, 3, 6, 9]))
    );
    assert_eq!(interleave(&vec![frs(&[1, 2, 3])]), Ok(frs(&[1, 2, 3])));
    assert_eq!(interleave(&vec![]), Ok(vec![]));
    assert_eq!(interleave(&vec![vec![], vec![]]), Ok(vec![]));
}

#[test]
fn interleaving_multiplies_the_length() {
    for n in 1..5usize {
        for len in 0..6usize {
            let columns: Vec<Vec<Fr>> = (0..n).map(|j| vec![fr(j as u64); len]).collect();
            assert_eq!(interleave(&columns).unwrap().len(), n * len);
        }
    }
}

#[test]
fn interleaving_needs_columns_of_one_length() {
    assert_eq!(
        interleave(&vec![frs(&[1, 2]), frs(&[3])]),
        Err(Error::IncoherentLengths)
    );
    assert_eq!(
        interleave(&vec![frs(&[1]), frs(&[2]), vec![]]),
        Err(Error::IncoherentLengths)
    );
}

#[test]
fn rows_compare_column_after_column() {
    let columns = vec![frs(&[3, 1, 3, 1]), frs(&[5, 9, 4, 9])];
    assert_eq!(compare_rows(&columns, 0, 1), Order::Greater);
    assert_eq!(compare_rows(&columns, 1, 0), Order::Less);
    assert_eq!(compare_rows(&columns, 0, 2), Order::Greater);
    assert_eq!(compare_rows(&columns, 2, 0), Order::Less);
    assert_eq!(compare_rows(&columns, 1, 3), Order::Equal);
    assert_eq!(compare_rows(&columns, 2, 2), Order::Equal);
    assert_eq!(compare_rows(&vec![], 0, 0), Order::Equal);
}

#[test]
fn sorting_one_column() {
    let columns = vec![frs(&[3, 1, 2])];
    let order = sorted_order(&columns);
    assert_eq!(order, vec![1, 2, 0]);
    assert_eq!(permute(&columns[0], &order, 0), frs(&[1, 2, 3]));
}

#[test]
fn sorting_breaks_ties_on_the_next_column() {
    let columns = vec![frs(&[3, 1, 2, 1, 3]), frs(&[7, 9, 5, 8, 6])];
    let order = sorted_order(&columns);
    assert_eq!(order, vec![3, 1, 2, 4, 0]);
    assert_eq!(permute(&columns[0], &order, 0), frs(&[1, 1, 2, 3, 3]));
    assert_eq!(permute(&columns[1], &order, 0), frs(&[8, 9, 5, 6, 7]));
}

#[test]
fn sorting_keeps_equal_rows_in_order() {
    let columns = vec![frs(&[2, 1, 2, 1, 2, 1])];
    assert_eq!(sorted_order(&columns), vec![1, 3, 5, 0, 2, 4]);
    let same = vec![frs(&[4, 4, 4]), frs(&[1, 1, 1])];
    assert_eq!(sorted_order(&same), vec![0, 1, 2]);
}

#[test]
fn sorting_is_by_the_representatives() {
    let minus_one = fr(1).neg();
    let columns = vec![vec![minus_one, fr(0), fr(u64::MAX), fr(5)]];
    assert_eq!(sorted_order(&columns), vec![1, 3, 2, 0]);
}

#[test]
fn sorting_permutes() {
    let columns = vec![
        frs(&[5, 3, 9, 3, 1, 5, 0, 9, 9, 2]),
        frs(&[1, 0, 1, 0, 1, 0, 1, 0, 1, 0]),
    ];
    let order = sorted_order(&columns);
    let mut seen = order.clone();
    seen.sort();
    assert_eq!(seen, (0..10).collect::<Vec<_>>());
    for column in &columns {
        let mut before: Vec<u64> = column.iter().map(|x| x.to_u64().unwrap()).collect();
        let mut after: Vec<u64> = permute(column, &order, 0)
            .iter()
            .map(|x| x.to_u64().unwrap())
            .collect();
        before.sort();
        after.sort();
        assert_eq!(before, after);
    }
    for w in order.windows(2) {
        assert_ne!(compare_rows(&columns, w[0], w[1]), Order::Greater);
    }
    assert_eq!(sorted_order(&vec![]), Vec::<usize>::new());
    assert_eq!(sorted_order(&vec![vec![]]), Vec::<usize>::new());
}

#[test]
fn permuting_leaves_room_for_the_spilling() {
    assert_eq!(
        permute(&frs(&[7, 8, 9]), &vec![2, 0, 1], 2),
        frs(&[0, 0, 9, 7, 8])
    );
    assert_eq!(permute(&frs(&[7, 8, 9]), &vec![], 1), frs(&[0]));
}

fn source() -> ColumnSet {
    let mut cs = ColumnSet::new();
    cs.insert_column("m", "a", Column::atomic(frs(&[1, 2, 3]), CI), false)
        .unwrap();
    cs
}

fn with_ids(mut n: Node, cs: &ColumnSet) -> Node {
    n.add_id_to_handles(cs);
    n
}

#[test]
fn rows_are_evaluated_in_order() {
    let cs = source();
    let double = with_ids(Builtin::Add.call(&vec![col("a"), col("a")]), &cs);
    assert_eq!(evaluate_rows(&double, &cs, 0, 3), frs(&[2, 4, 6]));
    assert_eq!(evaluate_rows(&double, &cs, 0, 0), vec![]);
    // Where the expression reads outside of the column, the row is zero.
    assert_eq!(evaluate_rows(&double, &cs, 2, 4), frs(&[0, 0, 2, 4, 6, 0]));
    let previous = with_ids(Builtin::Shift.call(&vec![col("a"), k(-1)]), &cs);
    assert_eq!(evaluate_rows(&previous, &cs, 1, 3), frs(&[0, 0, 1, 2]));
    assert_eq!(evaluate_rows(&k(9), &cs, 1, 2), frs(&[9, 9, 9]));
}

#[test]
fn evaluation_is_repeatable() {
    let cs = source();
    let e = with_ids(
        Builtin::Mul.call(&vec![
            Builtin::Inv.call(&vec![col("a")]),
            Builtin::Shift.call(&vec![col("a"), k(1)]),
        ]),
        &cs,
    );
    let first = evaluate_rows(&e, &cs, 1, 3);
    for _ in 0..3 {
        assert_eq!(evaluate_rows(&e, &cs, 1, 3), first);
    }
}

#[test]
fn composite_columns_are_computed() {
    let sum = Builtin::Add.call(&vec![col("a"), col("b")]);
    let mut cs = program(vec![composite("k", sum)]);
    fill(&mut cs, "a", &[1, 2, 3]);
    fill(&mut cs, "b", &[10, 20, 30]);
    assert_eq!(cs.compute_column(&h("k"), 8), Ok(()));
    assert_eq!(values(&cs, "k"), Some(frs(&[11, 22, 33])));
    assert_eq!(cs.get(&h("k")).unwrap().spilling(), 0);
    // What was filled stays.
    assert_eq!(values(&cs, "a"), Some(frs(&[1, 2, 3])));
    assert_eq!(cs.compute_column(&h("k"), 8), Ok(()));
    assert_eq!(values(&cs, "k"), Some(frs(&[11, 22, 33])));
}

#[test]
fn composite_columns_are_as_long_as_the_longest_they_read() {
    let sum = Builtin::Add.call(&vec![col("a"), col("b")]);
    let mut cs = program(vec![composite("k", sum)]);
    fill(&mut cs, "a", &[1, 2]);
    fill(&mut cs, "b", &[10, 20, 30, 40]);
    assert_eq!(cs.compute_column(&h("k"), 8), Ok(()));
    // Past the end of `a`, the sum has no value: it counts as zero.
    assert_eq!(values(&cs, "k"), Some(frs(&[11, 22, 0, 0])));
}

#[test]
fn spilling_is_the_farthest_shift_of_the_module() {
    let back = Builtin::Shift.call(&vec![col("a"), k(-2)]);
    let forth = Builtin::Shift.call(&vec![col("a"), k(1)]);
    let mut cs = program(vec![composite("k", back), composite("l", forth)]);
    assert_eq!(cs.spilling("m"), None);
    assert_eq!(cs.spilling_or_insert("m"), 2);
    assert_eq!(cs.spilling("m"), Some(2));
    assert_eq!(cs.spilling_or_insert("m"), 2);
    assert_eq!(cs.spilling_or_insert("other"), 0);
    assert_eq!(cs.spilling("other"), Some(0));
    fill(&mut cs, "a", &[1, 2, 3]);
    assert_eq!(cs.compute_column(&h("k"), 8), Ok(()));
    assert_eq!(values(&cs, "k"), Some(frs(&[0, 0, 0, 0, 1])));
    let k = cs.get(&h("k")).unwrap();
    assert_eq!(k.spilling(), 2);
    assert_eq!(k.len(), Some(3));
    assert_eq!(k.get(2, false), Some(&fr(1)));
    assert_eq!(k.get(-1, false), Some(&fr(0)));
    assert_eq!(cs.compute_column(&h("l"), 8), Ok(()));
    assert_eq!(values(&cs, "l"), Some(frs(&[0, 1, 2, 3, 0])));
}

#[test]
fn shifts_too_far_to_count_are_refused() {
    let back = Builtin::Shift.call(&vec![col("a"), k(i64::MIN)]);
    let mut cs = program(vec![composite("k", back)]);
    fill(&mut cs, "a", &[1, 2, 3]);
    assert_eq!(cs.compute_column(&h("k"), 8), Err(Error::TooLong));
    assert_eq!(values(&cs, "k"), None);
    assert_eq!(values(&cs, "a"), Some(frs(&[1, 2, 3])));
}

#[test]
fn future_shifts_count_for_the_spilling() {
    let forth = Builtin::Shift.call(&vec![col("a"), k(3)]);
    let mut cs = program(vec![composite("k", forth)]);
    assert_eq!(cs.spilling_or_insert("m"), 3);
}

#[test]
fn computations_chain() {
    let first = Builtin::Add.call(&vec![col("a"), k(1)]);
    let second = Builtin::Mul.call(&vec![col("k"), k(2)]);
    let mut cs = program(vec![composite("k", first), composite("l", second)]);
    fill(&mut cs, "a", &[1, 2, 3]);
    assert_eq!(cs.compute_column(&h("l"), 8), Ok(()));
    assert_eq!(values(&cs, "k"), Some(frs(&[2, 3, 4])));
    assert_eq!(values(&cs, "l"), Some(frs(&[4, 6, 8])));
}

#[test]
fn circular_computations_are_cut() {
    let first = Builtin::Add.call(&vec![col("l"), k(1)]);
    let second = Builtin::Add.call(&vec![col("k"), k(1)]);
    let mut cs = program(vec![composite("k", first), composite("l", second)]);
    assert_eq!(cs.compute_column(&h("k"), 8), Err(Error::CircularDefinition));
    assert_eq!(cs.compute(0), Err(Error::CircularDefinition));
    assert_eq!(values(&cs, "k"), None);
}

#[test]
fn columns_without_computation_cannot_be_computed() {
    let mut cs = program(vec![("p", Kind::Phantom, None)]);
    assert_eq!(cs.compute_column(&h("p"), 8), Err(Error::ComputationMissing));
    assert_eq!(cs.compute_column(&h("a"), 8), Err(Error::ComputationMissing));
    assert_eq!(cs.compute_column(&h("nope"), 8), Err(Error::UnknownColumn));
    assert_eq!(cs.compute(5), Err(Error::ComputationMissing));
    let reads_nothing = Builtin::Add.call(&vec![col("a"), k(1)]);
    let mut cs = program(vec![composite("k", reads_nothing)]);
    assert_eq!(cs.compute_column(&h("k"), 8), Err(Error::ComputationMissing));
}

#[test]
fn interleaved_columns_are_computed() {
    let froms = vec![h("a"), h("b")];
    let mut cs = program(vec![(
        "i",
        Kind::Interleaved(froms.clone()),
        Some(Computation::Interleaved { target: h("i"), froms }),
    )]);
    fill(&mut cs, "a", &[1, 2]);
    fill(&mut cs, "b", &[3, 4]);
    assert_eq!(cs.compute_column(&h("i"), 8), Ok(()));
    assert_eq!(values(&cs, "i"), Some(frs(&[1, 3, 2, 4])));
    assert_eq!(cs.length_multiplier(&h("i")), 2);
    assert_eq!(cs.length_multiplier(&h("a")), 1);
}

#[test]
fn interleaving_columns_of_different_lengths_fails() {
    let froms = vec![h("a"), h("b")];
    let mut cs = program(vec![(
        "i",
        Kind::Interleaved(froms.clone()),
        Some(Computation::Interleaved { target: h("i"), froms }),
    )]);
    fill(&mut cs, "a", &[1, 2]);
    fill(&mut cs, "b", &[3]);
    assert_eq!(cs.compute_column(&h("i"), 8), Err(Error::IncoherentLengths));
    assert_eq!(values(&cs, "i"), None);
}

#[test]
fn sorted_columns_are_computed() {
    let sort = Computation::Sorted { froms: vec![h("a"), h("b")], tos: vec![h("s"), h("t")] };
    let mut cs = program(vec![
        ("s", Kind::Phantom, None),
        ("t", Kind::Phantom, Some(sort)),
    ]);
    fill(&mut cs, "a", &[3, 1, 2, 1]);
    fill(&mut cs, "b", &[7, 9, 5, 8]);
    assert_eq!(cs.compute_column(&h("s"), 8), Ok(()));
    assert_eq!(values(&cs, "s"), Some(frs(&[1, 1, 2, 3])));
    assert_eq!(values(&cs, "t"), Some(frs(&[8, 9, 5, 7])));
    assert_eq!(cs.length_multiplier(&h("t")), 1);
}

#[test]
fn sorting_columns_of_different_lengths_fails() {
    let sort = Computation::Sorted { froms: vec![h("a"), h("b")], tos: vec![h("s"), h("t")] };
    let mut cs = program(vec![
        ("s", Kind::Phantom, None),
        ("t", Kind::Phantom, Some(sort)),
    ]);
    fill(&mut cs, "a", &[3, 1, 2]);
    fill(&mut cs, "b", &[7, 9]);
    assert_eq!(cs.compute_column(&h("s"), 8), Err(Error::IncoherentLengths));
    assert_eq!(
        cs.compute_sorted(&vec![h("a")], &vec![h("s"), h("t")], 8),
        Err(Error::IncoherentLengths)
    );
    assert_eq!(cs.compute_sorted(&vec![], &vec![], 8), Err(Error::IncoherentLengths));
}

#[test]
fn a_column_cannot_be_sorted_into_twice() {
    let mut cs = program(vec![("s", Kind::Phantom, None)]);
    fill(&mut cs, "a", &[2, 1]);
    fill(&mut cs, "b", &[5, 6]);
    assert_eq!(
        cs.compute_sorted(&vec![h("a")], &vec![h("nope")], 8),
        Err(Error::UnknownColumn)
    );
    assert_eq!(values(&cs, "s"), None);
    assert_eq!(
        cs.compute_sorted(&vec![h("a"), h("b")], &vec![h("s"), h("s")], 8),
        Err(Error::CircularDefinition)
    );
    // The first of the two has been filled.
    assert_eq!(values(&cs, "s"), Some(frs(&[1, 2])));
}

#[test]
fn fuel_is_spent_on_what_has_to_be_computed() {
    // Columns that are filled need no fuel.
    let mut cs = program(vec![("s", Kind::Phantom, None)]);
    fill(&mut cs, "a", &[2, 1]);
    assert_eq!(cs.compute_sorted(&vec![h("a")], &vec![h("s")], 0), Ok(()));
    assert_eq!(values(&cs, "s"), Some(frs(&[1, 2])));
    assert_eq!(cs.compute_column(&h("s"), 0), Ok(()));
    let froms = vec![h("a"), h("b")];
    let mut cs = program(vec![(
        "i",
        Kind::Interleaved(froms.clone()),
        Some(Computation::Interleaved { target: h("i"), froms: froms.clone() }),
    )]);
    fill(&mut cs, "a", &[1, 2]);
    fill(&mut cs, "b", &[3, 4]);
    assert_eq!(cs.compute_interleaved(&froms, &h("i"), 0), Ok(()));
    assert_eq!(values(&cs, "i"), Some(frs(&[1, 3, 2, 4])));
    let sum = Builtin::Add.call(&vec![col("a"), col("b")]);
    let mut cs = program(vec![composite("k", sum.clone())]);
    fill(&mut cs, "a", &[1, 2]);
    fill(&mut cs, "b", &[3, 4]);
    let sum = with_ids(sum, &cs.modules);
    assert_eq!(cs.compute_composite(&sum, &h("k"), 0), Ok(()));
    assert_eq!(values(&cs, "k"), Some(frs(&[4, 6])));
    // A column that has to be computed needs some.
    let first = Builtin::Add.call(&vec![col("a"), k(1)]);
    let second = Builtin::Mul.call(&vec![col("k"), k(2)]);
    let mut cs = program(vec![composite("k", first), composite("l", second.clone())]);
    fill(&mut cs, "a", &[1, 2, 3]);
    let second = with_ids(second, &cs.modules);
    assert_eq!(cs.compute_column(&h("l"), 0), Err(Error::CircularDefinition));
    assert_eq!(cs.compute_composite(&second, &h("l"), 0), Err(Error::CircularDefinition));
    assert_eq!(values(&cs, "k"), None);
    assert_eq!(cs.compute_composite(&second, &h("l"), 1), Ok(()));
    assert_eq!(values(&cs, "l"), Some(frs(&[4, 6, 8])));
}

fn fill_with_spilling(cs: &mut ConstraintSet, name: &str, xs: &[u64], spilling: usize) {
    let id = cs.modules.id_of(&h(name)).unwrap();
    cs.modules.set_raw_value(id, frs(xs), spilling);
}

#[test]
fn sorted_columns_hold_as_many_values() {
    let sort = || Computation::Sorted { froms: vec![h("a"), h("b")], tos: vec![h("s"), h("t")] };
    let declared = || program(vec![("s", Kind::Phantom, None), ("t", Kind::Phantom, Some(sort()))]);
    // As many rows, but not as many values: nothing is written.
    let mut cs = declared();
    fill_with_spilling(&mut cs, "a", &[0, 0, 3, 1, 2], 2);
    fill_with_spilling(&mut cs, "b", &[7, 9, 5], 0);
    assert_eq!(cs.compute_column(&h("s"), 8), Err(Error::IncoherentLengths));
    assert_eq!(values(&cs, "s"), None);
    assert_eq!(values(&cs, "t"), None);
    assert_eq!(values(&cs, "a"), Some(frs(&[0, 0, 3, 1, 2])));
    assert_eq!(values(&cs, "b"), Some(frs(&[7, 9, 5])));
    // As many values: the rows of the first column are those that are sorted.
    let mut cs = declared();
    fill_with_spilling(&mut cs, "a", &[0, 0, 3, 1, 2], 2);
    fill_with_spilling(&mut cs, "b", &[7, 9, 5, 8, 6], 0);
    assert_eq!(cs.compute_column(&h("s"), 8), Ok(()));
    assert_eq!(values(&cs, "s"), Some(frs(&[1, 2, 3])));
    assert_eq!(values(&cs, "t"), Some(frs(&[9, 5, 7])));
    // A column with fewer rows than the first cannot be read.
    let mut cs = declared();
    fill_with_spilling(&mut cs, "a", &[7, 9, 5, 8, 6], 0);
    fill_with_spilling(&mut cs, "b", &[0, 0, 3, 1, 2], 2);
    assert_eq!(cs.compute_column(&h("s"), 8), Err(Error::IncoherentLengths));
    assert_eq!(values(&cs, "s"), None);
    assert_eq!(values(&cs, "t"), None);
}

#[test]
fn all_computations_are_run_whatever_fails() {
    let good = Builtin::Add.call(&vec![col("a"), k(1)]);
    let bad = Builtin::Add.call(&vec![col("b"), k(1)]);
    let mut cs = program(vec![composite("k", bad), composite("l", good)]);
    fill(&mut cs, "a", &[1, 2, 3]);
    let failures = cs.compute_all();
    assert_eq!(failures, vec![(0, Error::ComputationMissing)]);
    assert_eq!(values(&cs, "k"), None);
    assert_eq!(values(&cs, "l"), Some(frs(&[2, 3, 4])));
}

#[test]
fn static_evaluation_needs_filled_columns() {
    let sum = Builtin::Add.call(&vec![col("a"), col("b")]);
    let mut cs = program(vec![]);
    let mut e = sum;
    e.add_id_to_handles(&cs.modules);
    assert_eq!(cs.compute_composite_static(&e), Err(Error::NotComputed));
    fill(&mut cs, "a", &[1, 2, 3]);
    fill(&mut cs, "b", &[10, 20, 30]);
    assert_eq!(cs.compute_composite_static(&e), Ok(frs(&[11, 22, 33])));
}

#[test]
fn length_multipliers_compose() {
    let twice = vec![h("a"), h("b")];
    let thrice = vec![h("i"), h("i"), h("i")];
    let of_i = Builtin::Add.call(&vec![col("j"), k(1)]);
    let cs = program(vec![
        (
            "i",
            Kind::Interleaved(twice.clone()),
            Some(Computation::Interleaved { target: h("i"), froms: twice }),
        ),
        (
            "j",
            Kind::Interleaved(thrice.clone()),
            Some(Computation::Interleaved { target: h("j"), froms: thrice }),
        ),
        composite("k", of_i),
        composite("one", k(1)),
    ]);
    assert_eq!(cs.length_multiplier(&h("i")), 2);
    assert_eq!(cs.length_multiplier(&h("j")), 6);
    assert_eq!(cs.length_multiplier(&h("k")), 6);
    assert_eq!(cs.length_multiplier(&h("one")), 1);
    assert_eq!(cs.length_multiplier(&h("nope")), 1);
}

#[test]
fn trace_values_are_validated() {
    assert_eq!(validate(CB, fr(0)), Ok(fr(0)));
    assert_eq!(validate(CB, fr(1)), Ok(fr(1)));
    assert_eq!(validate(CB, fr(2)), Err(Error::NotBoolean));
    assert_eq!(validate(CI, fr(2)), Ok(fr(2)));
    assert_eq!(validate(Type::Scalar(Magma::Boolean), fr(3)), Err(Error::NotBoolean));
}

fn number(s: &str) -> Json {
    Json::Number(s.to_string())
}

fn numbers(xs: &[u64]) -> Vec<Json> {
    xs.iter().map(|x| number(&x.to_string())).collect()
}

#[test]
fn columns_are_read_from_numerals() {
    assert_eq!(
        parse_column(&vec![number("12"), Json::String("13".to_string()), number("0")], CI),
        Ok(frs(&[12, 13, 0]))
    );
    assert_eq!(parse_column(&vec![], CB), Ok(vec![]));
    assert_eq!(parse_column(&numbers(&[0, 1, 1]), CB), Ok(frs(&[0, 1, 1])));
    assert_eq!(parse_column(&numbers(&[0, 2]), CB), Err(Error::NotBoolean));
    for bad in [
        Json::Null,
        Json::Bool(true),
        number("-1"),
        number("1.5"),
        number("1e3"),
        Json::String("".to_string()),
        Json::String("0x10".to_string()),
        Json::Array(vec![]),
        Json::Object(vec![]),
    ] {
        assert_eq!(parse_column(&vec![number("1"), bad], CI), Err(Error::Parse));
    }
}

#[test]
fn entries_are_routed_to_columns() {
    assert_eq!(route("a"), "a");
    assert_eq!(route("a_b"), "a_b");
    assert_eq!(route("a_2"), "a_2");
    assert_eq!(route("a_b_2"), "a_b_2");
    assert_eq!(route("a_007"), "a_7");
    assert_eq!(route("a_+7"), "a_7");
    assert_eq!(route("a__3"), "a__3");
    assert_eq!(route("a_"), "a_");
    assert_eq!(route("_5"), "_5");
    assert_eq!(route("5"), "5");
    assert_eq!(route("a_99999999999999999999999999"), "a_99999999999999999999999999");
    assert_eq!(route(""), "");
}

fn trace_program() -> ConstraintSet {
    let mut columns = ColumnSet::new();
    columns.insert_atomic("m", "a", CI, false).unwrap();
    columns.insert_atomic("m", "flag", CB, false).unwrap();
    columns.insert_array("m", "arr", CI, &[1, 2], false).unwrap();
    columns.insert_composite("m", "k", CB, false).unwrap();
    columns.insert_atomic("n", "a", CI, false).unwrap();
    let mut computations = ComputationTable::new();
    computations
        .insert(
            &h("k"),
            Computation::Composite {
                target: h("k"),
                exp: Builtin::Add.call(&vec![col("a"), k(1)]),
            },
        )
        .unwrap();
    ConstraintSet::new(columns, vec![], HandleMap::new(), computations)
}

#[test]
fn columns_are_filled_from_the_trace() {
    let mut cs = trace_program();
    assert_eq!(fill_column(&mut cs.modules, "m", "a", &numbers(&[4, 5])), Ok(()));
    assert_eq!(values(&cs, "a"), Some(frs(&[4, 5])));
    assert_eq!(fill_column(&mut cs.modules, "m", "arr_02", &numbers(&[6])), Ok(()));
    assert_eq!(values(&cs, "arr_2"), Some(frs(&[6])));
    assert_eq!(values(&cs, "arr_1"), None);
    assert_eq!(fill_column(&mut cs.modules, "m", "flag", &numbers(&[1, 0])), Ok(()));
    // A derived column may be given; its values are not held to its type.
    assert_eq!(fill_column(&mut cs.modules, "m", "k", &numbers(&[7, 8])), Ok(()));
    assert_eq!(values(&cs, "k"), Some(frs(&[7, 8])));
    // New values take the place of the old ones.
    assert_eq!(fill_column(&mut cs.modules, "m", "a", &numbers(&[9])), Ok(()));
    assert_eq!(values(&cs, "a"), Some(frs(&[9])));
}

#[test]
fn what_cannot_be_filled_is_left_alone() {
    let mut cs = trace_program();
    assert_eq!(
        fill_column(&mut cs.modules, "m", "nope", &numbers(&[1])),
        Err(Error::UnknownColumn)
    );
    assert_eq!(
        fill_column(&mut cs.modules, "o", "a", &numbers(&[1])),
        Err(Error::UnknownColumn)
    );
    assert_eq!(
        fill_column(&mut cs.modules, "m", "arr_3", &numbers(&[1])),
        Err(Error::UnknownColumn)
    );
    assert_eq!(
        fill_column(&mut cs.modules, "m", "flag", &numbers(&[1, 2])),
        Err(Error::NotBoolean)
    );
    assert_eq!(
        fill_column(&mut cs.modules, "m", "a", &vec![Json::Null]),
        Err(Error::Parse)
    );
    for name in ["a", "flag", "arr_1", "arr_2", "k"] {
        assert_eq!(values(&cs, name), None);
    }
}

fn object(members: Vec<(&str, Json)>) -> Json {
    Json::Object(members.into_iter().map(|(k, v)| (k.to_string(), v)).collect())
}

fn array(xs: &[u64]) -> Json {
    Json::Array(numbers(xs))
}

#[test]
fn the_trace_is_walked() {
    let trace = object(vec![
        ("version", Json::String("1".to_string())),
        (
            "m",
            object(vec![(
                "Trace",
                object(vec![
                    ("a", array(&[1, 2, 3])),
                    ("arr_1", array(&[4, 5, 6])),
                    ("unknown", array(&[0])),
                    ("size", number("3")),
                ]),
            )]),
        ),
        (
            "n",
            object(vec![("Assignment", object(vec![("a", array(&[7]))])), ("x", Json::Null)]),
        ),
        ("loose", array(&[1])),
    ]);
    let mut cs = trace_program();
    let mut problems = vec![];
    fill_traces(&trace, vec![], &mut cs.modules, &mut problems);
    assert_eq!(values(&cs, "a"), Some(frs(&[1, 2, 3])));
    assert_eq!(values(&cs, "arr_1"), Some(frs(&[4, 5, 6])));
    assert_eq!(
        cs.get(&Handle::new("n", "a")).unwrap().value(),
        Some(&frs(&[7]))
    );
    assert_eq!(values(&cs, "flag"), None);
    assert_eq!(problems, vec![Error::UnknownColumn, Error::Parse]);
}

#[test]
fn paths_are_relative_to_where_the_walk_starts() {
    let mut cs = trace_program();
    let mut problems = vec![];
    fill_traces(
        &array(&[1, 2]),
        vec!["m".to_string(), "a".to_string()],
        &mut cs.modules,
        &mut problems,
    );
    assert_eq!(values(&cs, "a"), Some(frs(&[1, 2])));
    fill_traces(
        &object(vec![("a", array(&[3]))]),
        vec!["deep".to_string(), "m".to_string()],
        &mut cs.modules,
        &mut problems,
    );
    assert_eq!(values(&cs, "a"), Some(frs(&[3])));
    assert!(problems.is_empty());
    fill_traces(&Json::Bool(true), vec![], &mut cs.modules, &mut problems);
    fill_traces(&array(&[1]), vec!["a".to_string()], &mut cs.modules, &mut problems);
    assert_eq!(problems, vec![Error::Parse]);
}

#[test]
fn powers_of_two() {
    assert_eq!(next_power_of_two(0), Some(1));
    assert_eq!(next_power_of_two(1), Some(1));
    assert_eq!(next_power_of_two(2), Some(2));
    assert_eq!(next_power_of_two(3), Some(4));
    assert_eq!(next_power_of_two(4), Some(4));
    assert_eq!(next_power_of_two(5), Some(8));
    assert_eq!(next_power_of_two(1000), Some(1024));
    assert_eq!(next_power_of_two(1 << 20), Some(1 << 20));
    assert_eq!(next_power_of_two(usize::MAX / 2 + 1), Some(usize::MAX / 2 + 1));
    assert_eq!(next_power_of_two(usize::MAX / 2 + 2), None);
    assert_eq!(next_power_of_two(usize::MAX), None);
}

#[test]
fn atomic_columns_are_padded_with_zero() {
    let cs = trace_program();
    assert_eq!(padding(&cs, &h("a"), &Kind::Atomic), fr(0));
    assert_eq!(padding(&cs, &h("a"), &Kind::Phantom), fr(0));
    assert_eq!(padding(&cs, &h("a"), &Kind::Interleaved(vec![])), fr(0));
    assert_eq!(padding(&cs, &Handle::new("binary", "NOT"), &Kind::Atomic), fr(255));
}

#[test]
fn composite_columns_are_padded_with_the_value_of_their_expression() {
    let sum = Builtin::Add.call(&vec![col("a"), col("b")]);
    let shifted = Builtin::Add.call(&vec![col("a"), k(7)]);
    let not = Node {
        _e: Expression::Column(Handle::new("binary", "NOT"), Kind::Atomic),
        _t: Some(CI),
    };
    let with_not = Builtin::Sub.call(&vec![not, col("a")]);
    let cs = program(vec![
        composite("k", sum),
        composite("l", shifted),
        composite("n", with_not),
        ("p", Kind::Composite(Box::new(())), None),
    ]);
    let kind = Kind::Composite(Box::new(()));
    assert_eq!(padding(&cs, &h("k"), &kind), fr(0));
    assert_eq!(padding(&cs, &h("l"), &kind), fr(7));
    assert_eq!(padding(&cs, &h("n"), &kind), fr(255));
    assert_eq!(padding(&cs, &h("p"), &kind), fr(0));
}

#[test]
fn padding_by_one_line() {
    let plus = Builtin::Add.call(&vec![col("a"), k(7)]);
    let mut cs = program(vec![composite("k", plus)]);
    fill(&mut cs, "a", &[1, 2, 3]);
    fill(&mut cs, "k", &[8, 9, 10]);
    assert_eq!(pad(&mut cs, PaddingStrategy::OneLine), Ok(()));
    assert_eq!(values(&cs, "a"), Some(frs(&[0, 1, 2, 3])));
    assert_eq!(values(&cs, "k"), Some(frs(&[7, 8, 9, 10])));
    assert_eq!(values(&cs, "b"), None);
    let once_a = values(&cs, "a").unwrap();
    let once_k = values(&cs, "k").unwrap();
    assert_eq!(pad(&mut cs, PaddingStrategy::OneLine), Ok(()));
    let twice_a = values(&cs, "a").unwrap();
    let twice_k = values(&cs, "k").unwrap();
    // Twice is once, with one more line of padding.
    assert_eq!(twice_a.len(), once_a.len() + 1);
    assert_eq!(twice_a[1..], once_a[..]);
    assert_eq!(twice_a[0], fr(0));
    assert_eq!(twice_k[1..], once_k[..]);
    assert_eq!(twice_k[0], fr(7));
}

#[test]
fn padding_in_full() {
    let mut cs = program(vec![]);
    fill(&mut cs, "a", &[1, 2, 3]);
    fill(&mut cs, "b", &[1, 2, 3, 4, 5]);
    assert_eq!(pad(&mut cs, PaddingStrategy::Full), Ok(()));
    assert_eq!(values(&cs, "a"), Some(frs(&[0, 0, 0, 0, 0, 1, 2, 3])));
    assert_eq!(values(&cs, "b"), Some(frs(&[0, 0, 0, 1, 2, 3, 4, 5])));
    assert_eq!(values(&cs, "c"), None);
    // There is always room for one line of padding.
    let mut cs = program(vec![]);
    fill(&mut cs, "a", &[1, 2, 3, 4]);
    assert_eq!(pad(&mut cs, PaddingStrategy::Full), Ok(()));
    assert_eq!(values(&cs, "a"), Some(frs(&[0, 0, 0, 0, 1, 2, 3, 4])));
    let mut cs = program(vec![]);
    fill(&mut cs, "a", &[]);
    assert_eq!(pad(&mut cs, PaddingStrategy::Full), Ok(()));
    assert_eq!(values(&cs, "a"), Some(frs(&[0])));
}

#[test]
fn results_are_the_filled_columns() {
    let mut cs = program(vec![]);
    fill(&mut cs, "c", &[5]);
    fill(&mut cs, "a", &[1, 2]);
    let r = results(&cs.modules);
    assert_eq!(
        r.columns,
        vec![("m__a".to_string(), frs(&[1, 2])), ("m__c".to_string(), frs(&[5]))]
    );
}

#[test]
fn a_trace_is_computed() {
    let mut cs = trace_program();
    let trace = object(vec![(
        "m",
        object(vec![("a", array(&[1, 2, 3])), ("flag", array(&[1, 0, 1]))]),
    )]);
    let r = compute(&trace, &mut cs, PaddingStrategy::OneLine).unwrap();
    assert_eq!(
        r.columns,
        vec![
            ("m__a".to_string(), frs(&[0, 1, 2, 3])),
            ("m__flag".to_string(), frs(&[0, 1, 0, 1])),
            ("m__k".to_string(), frs(&[1, 2, 3, 4])),
        ]
    );
}

#[test]
fn the_columns_are_written_as_json() {
    let plus = Builtin::Add.call(&vec![col("a"), k(7)]);
    let mut columns = ColumnSet::new();
    columns.insert_atomic("m", "a", CI, false).unwrap();
    columns.insert_composite("m", "k-1", CI, false).unwrap();
    let mut computations = ComputationTable::new();
    computations
        .insert(
            &h("k-1"),
            Computation::Composite { target: h("k-1"), exp: plus },
        )
        .unwrap();
    let mut cs = ConstraintSet::new(columns, vec![], HandleMap::new(), computations);
    assert_eq!(
        cs.write(),
        concat_lines(&[
            "{\"columns\":{",
            "\"m__a\":{",
            "\"values\":[],",
            "\"padding_strategy\": {\"action\": \"prepend\", \"value\": \"0x0\"}",
            "}",
            ",\"m__ksub1\":{",
            "\"values\":[],",
            "\"padding_strategy\": {\"action\": \"prepend\", \"value\": \"0x07\"}",
            "}",
            "}}",
        ])
    );
    fill(&mut cs, "a", &[255, 0, 4096]);
    cs.compute_all();
    assert_eq!(
        cs.write(),
        concat_lines(&[
            "{\"columns\":{",
            "\"m__a\":{",
            "\"values\":[\"0x0ff\",\"0x0\",\"0x01000\"],",
            "\"padding_strategy\": {\"action\": \"prepend\", \"value\": \"0x0ff\"}",
            "}",
            ",\"m__ksub1\":{",
            "\"values\":[\"0x0106\",\"0x07\",\"0x01007\"],",
            "\"padding_strategy\": {\"action\": \"prepend\", \"value\": \"0x0106\"}",
            "}",
            "}}",
        ])
    );
}

fn concat_lines(lines: &[&str]) -> String {
    let mut out = String::new();
    for (i, l) in lines.iter().enumerate() {
        out.push_str(l);
        if i + 1 < lines.len() {
            out.push('\n');
        }
    }
    out
}

#[test]
fn an_empty_program_is_written() {
    let cs = ConstraintSet::new(
        ColumnSet::new(),
        vec![],
        HandleMap::new(),
        ComputationTable::new(),
    );
    assert_eq!(cs.write(), "{\"columns\":{\n}}");
}

fn ast(class: Token) -> AstNode {
    AstNode { class, src: String::new(), lc: (0, 0) }
}

fn sym(name: &str) -> AstNode {
    ast(Token::Symbol(name.to_string()))
}

fn val(x: i64) -> AstNode {
    ast(Token::Value(Integer::from_i64(x)))
}

fn source_program() -> Ast {
    let call = |verb: &str, mut args: Vec<AstNode>| {
        let mut items = vec![sym(verb)];
        items.append(&mut args);
        ast(Token::List(items))
    };
    Ast {
        exprs: vec![
            ast(Token::DefModule("m".to_string())),
            ast(Token::DefConsts(vec![("LIMIT".to_string(), Integer::from_u64(3))])),
            ast(Token::DefColumns(vec![
                ast(Token::DefColumn("a".to_string(), CI, Kind::Atomic)),
                ast(Token::DefColumn("b".to_string(), CB, Kind::Atomic)),
                ast(Token::DefArrayColumn("arr".to_string(), vec![1, 2], CI)),
                ast(Token::DefColumn(
                    "k".to_string(),
                    CI,
                    Kind::Composite(Box::new(call("+", vec![sym("a"), sym("LIMIT")]))),
                )),
                ast(Token::DefColumn(
                    "i".to_string(),
                    CI,
                    Kind::Interleaved(vec![Handle::new("", "a"), Handle::new("", "b")]),
                )),
            ])),
            ast(Token::DefPermutation(vec![sym("s")], vec![sym("a")])),
            ast(Token::DefConstraint(
                "c".to_string(),
                None,
                Box::new(call("eq", vec![sym("k"), sym("s")])),
            )),
        ],
    }
}

#[test]
fn a_program_is_compiled() {
    let settings = CompileSettings { debug: false, allow_dups: false };
    let mut cs = make(&vec![source_program()], &settings).unwrap();
    let names: Vec<String> = (0..cs.modules.len())
        .map(|i| cs.modules.handle(i).name.clone())
        .collect();
    assert_eq!(names, vec!["a", "b", "arr_1", "arr_2", "k", "i", "s"]);
    assert_eq!(cs.constraints.len(), 2);
    assert!(matches!(&cs.constraints[0], Constraint::Permutation(..)));
    match &cs.constraints[1] {
        Constraint::Vanishes { handle, expr, .. } => {
            assert_eq!(handle.to_string(), "m.c");
            // The handles carry the ids of their columns.
            let ids: Vec<Option<usize>> =
                expr.dependencies().into_iter().map(|h| h.id).collect();
            assert_eq!(ids, vec![Some(4), Some(6)]);
        }
        _ => panic!("not a vanishing constraint"),
    }
    assert_eq!(cs.constraints[1].name(), "m.c");
    assert!(cs
        .constants
        .get("m", "LIMIT")
        .unwrap()
        .equals(&Integer::from_u64(3)));
    assert_eq!(cs.computations.len(), 3);
    fill(&mut cs, "a", &[5, 3, 4]);
    fill(&mut cs, "b", &[1, 0, 1]);
    assert_eq!(cs.compute_all(), vec![]);
    assert_eq!(values(&cs, "k"), Some(frs(&[8, 6, 7])));
    assert_eq!(values(&cs, "i"), Some(frs(&[5, 1, 3, 0, 4, 1])));
    assert_eq!(values(&cs, "s"), Some(frs(&[3, 4, 5])));
}

#[test]
fn a_column_declared_twice_is_refused() {
    let settings = CompileSettings { debug: false, allow_dups: false };
    let twice = Ast {
        exprs: vec![
            ast(Token::DefModule("m".to_string())),
            ast(Token::DefColumns(vec![
                ast(Token::DefColumn("a".to_string(), CI, Kind::Atomic)),
                ast(Token::DefColumn("a".to_string(), CI, Kind::Atomic)),
            ])),
        ],
    };
    assert!(matches!(make(&vec![twice], &settings), Err(Error::DuplicateSymbol)));
    let stray = Ast { exprs: vec![val(1)] };
    assert!(matches!(make(&vec![stray], &settings), Err(Error::UnexpectedForm)));
}

#[test]
fn symbols_declare_columns_and_constants() {
    let mut columns = ColumnSet::new();
    let mut constants = HandleMap::new();
    let mut computations = ComputationTable::new();
    let a = Node { _e: Expression::Column(h("a"), Kind::Atomic), _t: Some(CB) };
    assert_eq!(
        declare("m", "a", &a, &mut columns, &mut constants, &mut computations, false),
        Ok(())
    );
    assert_eq!(columns.len(), 1);
    assert_eq!(columns.column(0).t(), CB);
    // A name for a column of another name declares nothing.
    assert_eq!(
        declare("m", "alias", &a, &mut columns, &mut constants, &mut computations, false),
        Ok(())
    );
    assert_eq!(columns.len(), 1);
    assert_eq!(
        declare("m", "a", &a, &mut columns, &mut constants, &mut computations, false),
        Err(Error::DuplicateSymbol)
    );
    assert_eq!(
        declare("m", "a", &a, &mut columns, &mut constants, &mut computations, true),
        Ok(())
    );
    assert_eq!(
        declare("m", "two", &k(2), &mut columns, &mut constants, &mut computations, false),
        Ok(())
    );
    assert!(constants.get("m", "two").unwrap().equals(&Integer::from_u64(2)));
    assert_eq!(computations.len(), 0);
    let mut table = SymbolTable::new_root();
    let settings = CompileSettings { debug: false, allow_dups: false };
    let cs = assemble(&mut table, vec![], &settings).unwrap();
    assert_eq!(cs.modules.len(), 0);
}

#[test]
fn expressions_that_cannot_be_evaluated_are_not_computed() {
    let sum = Builtin::Add.call(&vec![col("a"), k(-1)]);
    let mut cs = program(vec![composite("k", sum.clone())]);
    fill(&mut cs, "a", &[1, 2, 3]);
    assert_eq!(cs.compute_column(&h("k"), 8), Err(Error::NotInField));
    assert_eq!(values(&cs, "k"), None);
    assert_eq!(cs.compute_composite_static(&sum).err(), Some(Error::NotInField));
    assert_eq!(cs.compute_all(), vec![(0, Error::NotInField)]);
}

#[test]
fn computing_twice_gives_the_same_columns() {
    let declared = || {
        let first = Builtin::Add.call(&vec![col("a"), col("b")]);
        let second = Builtin::Mul.call(&vec![col("k"), col("s")]);
        let froms = vec![h("a"), h("k")];
        let sort = Computation::Sorted { froms: vec![h("b")], tos: vec![h("s")] };
        let mut cs = program(vec![
            composite("l", second),
            composite("k", first),
            ("s", Kind::Phantom, Some(sort)),
            (
                "i",
                Kind::Interleaved(froms.clone()),
                Some(Computation::Interleaved { target: h("i"), froms }),
            ),
        ]);
        fill(&mut cs, "a", &[3, 1, 2]);
        fill(&mut cs, "b", &[9, 7, 8]);
        cs
    };
    let mut one = declared();
    let mut two = declared();
    assert_eq!(one.compute_all(), vec![]);
    // The same columns come of another order of asking.
    for name in ["i", "s", "k", "l"] {
        assert_eq!(two.compute_column(&h(name), 8), Ok(()));
    }
    for name in ["a", "b", "k", "l", "s", "i"] {
        assert_eq!(values(&one, name), values(&two, name), "{name}");
    }
    assert_eq!(values(&one, "k"), Some(frs(&[12, 8, 10])));
    assert_eq!(values(&one, "s"), Some(frs(&[7, 8, 9])));
    assert_eq!(values(&one, "l"), Some(frs(&[84, 64, 90])));
    assert_eq!(values(&one, "i"), Some(frs(&[3, 12, 1, 8, 2, 10])));
}
