//! What fills derived columns: interleaving, sorting, and the row by row
//! evaluation of an expression.

use crate::column::{field_values, ColumnSource};
use crate::compiler::eval::{eval_spec, repr, InverseCache};
use crate::compiler::node::{Node, NodeView};
use crate::errors::Error;
use crate::field::Fr;
use vstd::prelude::*;

verus! {

/// The representatives of the elements of each of `cols`.
pub open spec fn columns_values(cols: Seq<Vec<Fr>>) -> Seq<Seq<nat>> {
    Seq::new(cols.len(), |k: int| field_values(cols[k]@))
}

/// Whether all of `cols` have `len` rows.
pub open spec fn all_of_length(cols: Seq<Seq<nat>>, len: nat) -> bool {
    forall|k: int| 0 <= k < cols.len() ==> (#[trigger] cols[k]).len() == len
}

/// Whether all of `cols` have as many rows.
pub open spec fn same_lengths(cols: Seq<Seq<nat>>) -> bool {
    cols.len() == 0 || all_of_length(cols, cols[0].len())
}

/// The number of rows of columns that have as many rows.
pub open spec fn common_length(cols: Seq<Seq<nat>>) -> nat {
    if cols.len() == 0 {
        0
    } else {
        cols[0].len()
    }
}

/// The rows of `cols`, which have `len` rows each, taken in turn: row `i`
/// of the `j`-th column is row `i * n + j` of the result, where `n` is the
/// number of columns.
pub open spec fn interleaved(cols: Seq<Seq<nat>>, len: nat) -> Seq<nat> {
    Seq::new(len * cols.len(), |k: int| cols[k % (cols.len() as int)][k / (cols.len() as int)])
}

/// Interleaves `columns`: the result holds row 0 of each column, then row 1
/// of each column, and so on. Columns that do not have as many rows are
/// refused, and so are columns whose rows a `usize` cannot count together.
pub fn interleave(columns: &Vec<Vec<Fr>>) -> (r: Result<Vec<Fr>, Error>)
    ensures
        match r {
            Ok(v) => {
                &&& same_lengths(columns_values(columns@))
                &&& v@.len() == columns@.len() * common_length(columns_values(columns@))
                &&& field_values(v@) == interleaved(
                    columns_values(columns@),
                    common_length(columns_values(columns@)),
                )
            },
            Err(e) => if same_lengths(columns_values(columns@)) {
                e == Error::TooLong && columns@.len() * common_length(columns_values(columns@))
                    > usize::MAX
            } else {
                e == Error::IncoherentLengths
            },
        },
{
    let ghost cols = columns_values(columns@);
    let count = columns.len();
    if count == 0 {
        let v: Vec<Fr> = Vec::new();
        assert(field_values(v@) =~= interleaved(cols, 0));
        return Ok(v);
    }
    let len = columns[0].len();
    assert(cols[0].len() == len);
    let mut k: usize = 1;
    while k < count
        invariant
            1 <= k <= count,
            count == columns@.len(),
            cols == columns_values(columns@),
            len == cols[0].len(),
            forall|j: int| 0 <= j < k ==> (#[trigger] cols[j]).len() == len,
        decreases count - k,
    {
        if columns[k].len() != len {
            assert(cols[k as int].len() != len);
            return Err(Error::IncoherentLengths);
        }
        k = k + 1;
    }
    assert(same_lengths(cols));
    let total = match len.checked_mul(count) {
        Some(t) => t,
        None => {
            assert(count * len == len * count) by (nonlinear_arith);
            return Err(Error::TooLong);
        },
    };
    let mut out: Vec<Fr> = Vec::new();
    let mut i: usize = 0;
    while i < len
        invariant
            i <= len,
            count == columns@.len(),
            count > 0,
            cols == columns_values(columns@),
            all_of_length(cols, len as nat),
            out@.len() == i * count,
            forall|x: int|
                0 <= x < out@.len() ==> (#[trigger] out@[x]).value() == cols[x % (
                count as int)][x / (count as int)],
        decreases len - i,
    {
        let mut j: usize = 0;
        while j < count
            invariant
                i < len,
                j <= count,
                count == columns@.len(),
                count > 0,
                cols == columns_values(columns@),
                all_of_length(cols, len as nat),
                out@.len() == i * count + j,
                forall|x: int|
                    0 <= x < out@.len() ==> (#[trigger] out@[x]).value() == cols[x % (
                    count as int)][x / (count as int)],
            decreases count - j,
        {
            assert(cols[j as int].len() == len);
            let x = columns[j][i];
            proof {
                let at = i * count + j;
                vstd::arithmetic::div_mod::lemma_fundamental_div_mod_converse(
                    at as int,
                    count as int,
                    i as int,
                    j as int,
                );
                assert(x.value() == cols[j as int][i as int]);
            }
            out.push(x);
            j = j + 1;
        }
        proof {
            assert(i * count + count == (i + 1) * count) by (nonlinear_arith);
        }
        i = i + 1;
    }
    proof {
        assert(len * count == count * len) by (nonlinear_arith);
        assert(field_values(out@) =~= interleaved(cols, len as nat));
    }
    Ok(out)
}

/// The value of `n` on row `i` where it has one, zero where it has none.
/// Negative rows do not count from the end.
pub open spec fn value_or_zero<S: ColumnSource>(n: NodeView, i: int, src: &S) -> nat {
    match eval_spec(n, i, src, false) {
        Some(x) => x,
        None => 0,
    }
}

/// The values of the expression `exp` on the rows from `-spilling` to
/// `length - 1`, in order, where the columns read as `src` says. A row on
/// which the expression has no value, because it reads outside of a column,
/// counts as zero.
pub fn evaluate_rows<S: ColumnSource>(exp: &Node, src: &S, spilling: usize, length: usize) -> (r:
    Vec<Fr>)
    requires
        spilling <= isize::MAX,
        length <= isize::MAX,
    ensures
        r@.len() == spilling + length,
        forall|k: int|
            0 <= k < spilling + length ==> (#[trigger] r@[k]).value() == value_or_zero(
                exp@,
                k - spilling,
                src,
            ),
{
    let mut out: Vec<Fr> = Vec::new();
    let mut cache: Option<InverseCache> = None;
    let mut i: isize = -(spilling as isize);
    while i < length as isize
        invariant
            spilling <= isize::MAX,
            length <= isize::MAX,
            -spilling <= i <= length,
            out@.len() == i + spilling,
            forall|k: int|
                0 <= k < out@.len() ==> (#[trigger] out@[k]).value() == value_or_zero(
                    exp@,
                    k - spilling,
                    src,
                ),
        decreases length - i,
    {
        let x = match exp.eval_at(i, src, &mut cache, false) {
            Some(x) => x,
            None => Fr::zero(),
        };
        out.push(x);
        i = i + 1;
    }
    out
}

/// How two rows compare.
#[derive(Debug, Clone, Copy, PartialEq, Eq, Structural)]
pub enum Order {
    Less,
    Equal,
    Greater,
}

/// How row `i` compares with row `j` over the columns from the `k`-th on:
/// by their values in the `k`-th column, then in the next, and so on.
pub open spec fn row_order(cols: Seq<Seq<nat>>, k: int, i: int, j: int) -> Order
    decreases cols.len() - k,
{
    if k < 0 || k >= cols.len() {
        Order::Equal
    } else if cols[k][i] < cols[k][j] {
        Order::Less
    } else if cols[k][i] > cols[k][j] {
        Order::Greater
    } else {
        row_order(cols, k + 1, i, j)
    }
}

/// The numbers from zero up to `n`, in order.
pub open spec fn identity(n: nat) -> Seq<usize> {
    Seq::new(n, |i: int| i as usize)
}

/// Whether no row of `perm` comes before a lesser one.
pub open spec fn ordered(perm: Seq<usize>, cols: Seq<Seq<nat>>) -> bool {
    forall|a: int, b: int|
        0 <= a < b < perm.len() ==> row_order(
            cols,
            0,
            #[trigger] perm[a] as int,
            #[trigger] perm[b] as int,
        ) != Order::Greater
}

/// Whether, of two rows of `perm` that compare equal, the one of lesser
/// number comes first.
pub open spec fn stable(perm: Seq<usize>, cols: Seq<Seq<nat>>) -> bool {
    forall|a: int, b: int|
        0 <= a < b < perm.len() && row_order(
            cols,
            0,
            #[trigger] perm[a] as int,
            #[trigger] perm[b] as int,
        ) == Order::Equal ==> perm[a] < perm[b]
}

/// Whether every row of `perm` is a row of each of `columns`.
pub open spec fn in_bounds(perm: Seq<usize>, columns: Seq<Vec<Fr>>) -> bool {
    forall|a: int, k: int|
        0 <= a < perm.len() && 0 <= k < columns.len() ==> (#[trigger] perm[a]) < (
        #[trigger] columns[k])@.len()
}

/// Whether the rows of `perm` are in increasing order.
pub open spec fn increasing(perm: Seq<usize>) -> bool {
    forall|a: int, b: int| 0 <= a < b < perm.len() ==> perm[a] < perm[b]
}

/// Whether `perm` lists the rows of `cols`, each once, so that no row comes
/// before a lesser one, and that of two rows that compare equal the one of
/// lesser number comes first.
pub open spec fn sorts(perm: Seq<usize>, cols: Seq<Seq<nat>>, n: nat) -> bool {
    &&& perm.len() == n
    &&& perm.to_multiset() == identity(n).to_multiset()
    &&& forall|a: int| 0 <= a < n ==> (#[trigger] perm[a]) < n
    &&& ordered(perm, cols)
    &&& stable(perm, cols)
}

/// How row `i` compares with row `j`: by their values in the first column,
/// then in the second, and so on.
pub fn compare_rows(columns: &Vec<Vec<Fr>>, i: usize, j: usize) -> (r: Order)
    requires
        forall|k: int| 0 <= k < columns@.len() ==> i < (#[trigger] columns@[k])@.len() && j
            < columns@[k]@.len(),
    ensures
        r == row_order(columns_values(columns@), 0, i as int, j as int),
{
    let ghost cols = columns_values(columns@);
    let mut k: usize = 0;
    while k < columns.len()
        invariant
            k <= columns.len(),
            cols == columns_values(columns@),
            forall|k: int|
                0 <= k < columns@.len() ==> i < (#[trigger] columns@[k])@.len() && j
                    < columns@[k]@.len(),
            row_order(cols, 0, i as int, j as int) == row_order(cols, k as int, i as int, j as int),
        decreases columns.len() - k,
    {
        assert(i < columns@[k as int]@.len());
        let x = &columns[k][i];
        let y = &columns[k][j];
        assert(cols[k as int][i as int] == x.value());
        assert(cols[k as int][j as int] == y.value());
        if x.lt(y) {
            return Order::Less;
        }
        if y.lt(x) {
            return Order::Greater;
        }
        k = k + 1;
    }
    Order::Equal
}

/// Sorts the numbers of the rows of `columns`.
///
/// Trusted: the body is `sort_by` of the standard library on `perm`, with
/// [`compare_rows`] to compare two rows. The standard library documents
/// this sort as stable: what compares equal stays in the order it was in.
/// The contract claims that afterwards `perm` holds what it held, ordered
/// as the comparison says, and that of two rows that compare equal the one
/// that stood first still stands first.
#[verifier::external_body]
fn sort_rows(perm: &mut Vec<usize>, columns: &Vec<Vec<Fr>>)
    requires
        in_bounds(old(perm)@, columns@),
        increasing(old(perm)@),
    ensures
        final(perm)@.len() == old(perm)@.len(),
        final(perm)@.to_multiset() == old(perm)@.to_multiset(),
        ordered(final(perm)@, columns_values(columns@)),
        stable(final(perm)@, columns_values(columns@)),
{
    perm.sort_by(
        |i, j|
            match compare_rows(columns, *i, *j) {
                Order::Less => core::cmp::Ordering::Less,
                Order::Equal => core::cmp::Ordering::Equal,
                Order::Greater => core::cmp::Ordering::Greater,
            },
    );
}

/// Sequences that hold the same elements as often still do when a function
/// is applied to each of their elements.
pub proof fn lemma_map_multiset<A, B>(s1: Seq<A>, s2: Seq<A>, f: spec_fn(A) -> B)
    requires
        s1.to_multiset() == s2.to_multiset(),
    ensures
        s1.map_values(f).to_multiset() == s2.map_values(f).to_multiset(),
    decreases s1.len(),
{
    broadcast use vstd::seq_lib::to_multiset_len;

    assert(s1.len() == s2.len()) by {
        vstd::seq_lib::to_multiset_len(s1);
        vstd::seq_lib::to_multiset_len(s2);
    }
    if s1.len() == 0 {
        assert(s1.map_values(f) =~= s2.map_values(f));
    } else {
        let a = s1.last();
        let n = s1.len() - 1;
        assert(s1.contains(a)) by {
            assert(s1[n] == a);
        }
        vstd::seq_lib::to_multiset_contains(s1, a);
        vstd::seq_lib::to_multiset_contains(s2, a);
        let i = choose|i: int| 0 <= i < s2.len() && s2[i] == a;
        let r1 = s1.remove(n);
        let r2 = s2.remove(i);
        vstd::seq_lib::to_multiset_remove(s1, n);
        vstd::seq_lib::to_multiset_remove(s2, i);
        assert(r1 =~= s1.drop_last());
        lemma_map_multiset(r1, r2, f);
        let m1 = r1.map_values(f);
        let m2 = r2.map_values(f);
        assert(s1.map_values(f) =~= m1.push(f(a)));
        assert(s2.map_values(f) =~= m2.insert(i, f(a)));
        vstd::seq_lib::to_multiset_build(m1, f(a));
        vstd::seq_lib::to_multiset_insert(m2, i, f(a));
    }
}

/// The column `col`, its rows taken in the order of `perm`.
pub open spec fn permuted(col: Seq<nat>, perm: Seq<usize>) -> Seq<nat> {
    Seq::new(perm.len(), |a: int| col[perm[a] as int])
}

/// A column whose rows were taken in the order of a list of all its rows
/// holds the same values as often as before. The rows are counted by a
/// `usize`.
pub proof fn lemma_permuted_is_permutation(col: Seq<nat>, perm: Seq<usize>)
    requires
        col.len() <= usize::MAX,
        perm.to_multiset() == identity(col.len()).to_multiset(),
    ensures
        permuted(col, perm).to_multiset() == col.to_multiset(),
{
    let f = |i: usize| col[i as int];
    lemma_map_multiset(perm, identity(col.len()), f);
    assert(perm.map_values(f) =~= permuted(col, perm));
    assert(identity(col.len()).map_values(f) =~= col);
}

/// The order in which the rows of `columns`, which have as many rows, come
/// when they are sorted: rows compare by their values in the first column,
/// then in the second, and so on, a value being less than another when its
/// representative is; rows that compare equal stay in the order they were
/// in.
pub fn sorted_order(columns: &Vec<Vec<Fr>>) -> (r: Vec<usize>)
    requires
        same_lengths(columns_values(columns@)),
    ensures
        sorts(r@, columns_values(columns@), common_length(columns_values(columns@))),
{
    let ghost cols = columns_values(columns@);
    let n = if columns.len() == 0 {
        0
    } else {
        columns[0].len()
    };
    assert(n == common_length(cols)) by {
        if columns@.len() > 0 {
            assert(cols[0].len() == columns@[0]@.len());
        }
    }
    let mut perm: Vec<usize> = Vec::new();
    let mut i: usize = 0;
    while i < n
        invariant
            i <= n,
            perm@ == identity(i as nat),
        decreases n - i,
    {
        perm.push(i);
        assert(perm@ =~= identity((i + 1) as nat));
        i = i + 1;
    }
    proof {
        assert forall|a: int, k: int| 0 <= a < perm@.len() && 0 <= k < columns@.len() implies (
        #[trigger] perm@[a]) < (#[trigger] columns@[k])@.len() by {
            assert(cols[k].len() == n);
        }
        assert(in_bounds(perm@, columns@));
        assert(increasing(perm@));
    }
    let ghost before = perm@;
    sort_rows(&mut perm, columns);
    proof {
        assert forall|a: int| 0 <= a < n implies (#[trigger] perm@[a]) < n by {
            vstd::seq_lib::to_multiset_contains(perm@, perm@[a]);
            vstd::seq_lib::to_multiset_contains(before, perm@[a]);
            assert(perm@.contains(perm@[a]));
        }
    }
    perm
}

/// The column `col`, its rows taken in the order of `perm`, after
/// `spilling` zeros.
pub fn permute(col: &Vec<Fr>, perm: &Vec<usize>, spilling: usize) -> (r: Vec<Fr>)
    requires
        forall|a: int| 0 <= a < perm@.len() ==> (#[trigger] perm@[a]) < col@.len(),
    ensures
        r@.len() == spilling + perm@.len(),
        forall|a: int| 0 <= a < spilling ==> (#[trigger] r@[a]).value() == 0,
        field_values(r@).skip(spilling as int) == permuted(field_values(col@), perm@),
{
    let mut out: Vec<Fr> = Vec::new();
    let mut i: usize = 0;
    while i < spilling
        invariant
            i <= spilling,
            out@.len() == i,
            forall|a: int| 0 <= a < i ==> (#[trigger] out@[a]).value() == 0,
        decreases spilling - i,
    {
        out.push(Fr::zero());
        i = i + 1;
    }
    let mut a: usize = 0;
    while a < perm.len()
        invariant
            a <= perm.len(),
            out@.len() == spilling + a,
            forall|b: int| 0 <= b < perm@.len() ==> (#[trigger] perm@[b]) < col@.len(),
            forall|b: int| 0 <= b < spilling ==> (#[trigger] out@[b]).value() == 0,
            forall|b: int|
                0 <= b < a ==> (#[trigger] out@[spilling + b]).value() == col@[perm@[b] as int].value(),
        decreases perm.len() - a,
    {
        out.push(col[perm[a]]);
        a = a + 1;
    }
    proof {
        assert forall|b: int| 0 <= b < perm@.len() implies field_values(out@).skip(
            spilling as int,
        )[b] == permuted(field_values(col@), perm@)[b] by {
            assert(out@[spilling + b].value() == col@[perm@[b] as int].value());
        }
        assert(field_values(out@).skip(spilling as int) =~= permuted(field_values(col@), perm@));
    }
    out
}

/// Comparing two rows the other way round gives the opposite.
pub proof fn lemma_row_order_flips(cols: Seq<Seq<nat>>, k: int, i: int, j: int)
    requires
        0 <= k,
    ensures
        row_order(cols, k, j, i) == match row_order(cols, k, i, j) {
            Order::Less => Order::Greater,
            Order::Equal => Order::Equal,
            Order::Greater => Order::Less,
        },
    decreases cols.len() - k,
{
    if k < cols.len() {
        lemma_row_order_flips(cols, k + 1, i, j);
    }
}

/// Rows can be sorted in one way only: two lists of the same rows, in each
/// of which no row comes before a lesser one and equal rows come in the
/// order of their numbers, are the same list.
pub proof fn lemma_sorted_once(p: Seq<usize>, q: Seq<usize>, cols: Seq<Seq<nat>>)
    requires
        p.to_multiset() == q.to_multiset(),
        ordered(p, cols),
        stable(p, cols),
        ordered(q, cols),
        stable(q, cols),
    ensures
        p == q,
    decreases p.len(),
{
    vstd::seq_lib::to_multiset_len(p);
    vstd::seq_lib::to_multiset_len(q);
    if p.len() == 0 {
        assert(p =~= q);
    } else {
        let x = p[0];
        let y = q[0];
        assert(p.contains(x));
        assert(q.contains(y));
        vstd::seq_lib::to_multiset_contains(p, x);
        vstd::seq_lib::to_multiset_contains(q, x);
        vstd::seq_lib::to_multiset_contains(p, y);
        vstd::seq_lib::to_multiset_contains(q, y);
        let b = choose|b: int| 0 <= b < p.len() && p[b] == y;
        let c = choose|c: int| 0 <= c < q.len() && q[c] == x;
        if b > 0 && c > 0 {
            assert(row_order(cols, 0, p[0] as int, p[b] as int) != Order::Greater);
            assert(row_order(cols, 0, q[0] as int, q[c] as int) != Order::Greater);
            lemma_row_order_flips(cols, 0, x as int, y as int);
            assert(row_order(cols, 0, p[0] as int, p[b] as int) == Order::Equal);
            assert(row_order(cols, 0, q[0] as int, q[c] as int) == Order::Equal);
            assert(p[0] < p[b]);
            assert(q[0] < q[c]);
        }
        assert(x == y);
        let rest = p.remove(0);
        let q1 = q.remove(0);
        vstd::seq_lib::to_multiset_remove(p, 0);
        vstd::seq_lib::to_multiset_remove(q, 0);
        assert forall|a: int, b: int| 0 <= a < b < rest.len() implies row_order(
            cols,
            0,
            #[trigger] rest[a] as int,
            #[trigger] rest[b] as int,
        ) != Order::Greater && (row_order(cols, 0, rest[a] as int, rest[b] as int) == Order::Equal
            ==> rest[a] < rest[b]) by {
            assert(rest[a] == p[a + 1]);
            assert(rest[b] == p[b + 1]);
        }
        assert forall|a: int, b: int| 0 <= a < b < q1.len() implies row_order(
            cols,
            0,
            #[trigger] q1[a] as int,
            #[trigger] q1[b] as int,
        ) != Order::Greater && (row_order(cols, 0, q1[a] as int, q1[b] as int) == Order::Equal
            ==> q1[a] < q1[b]) by {
            assert(q1[a] == q[a + 1]);
            assert(q1[b] == q[b + 1]);
        }
        lemma_sorted_once(rest, q1, cols);
        assert(p =~= q) by {
            assert forall|a: int| 0 <= a < p.len() implies p[a] == q[a] by {
                if a > 0 {
                    assert(rest[a - 1] == p[a]);
                    assert(q1[a - 1] == q[a]);
                }
            }
        }
    }
}

} // verus!
