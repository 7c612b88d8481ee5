//! Dense square matrices of 64-bit integers, held and multiplied by the
//! `nalgebra` crate.
//!
//! What this module states of `nalgebra` is believed, not proved: each
//! function below says in its comment which function of the crate it
//! calls and what it claims of it.

use vstd::prelude::*;
use crate::matrix::{
    entries_within, identity_matrix, is_square, matrix_product, zero_matrix, IntMatrix,
};

verus! {

/// A matrix of the `nalgebra` crate, a `DMatrix<i64>`.
#[verifier::external_body]
pub struct DenseMatrix {
    inner: nalgebra::DMatrix<i64>,
}

/// The entries of a matrix, row by row.
pub uninterp spec fn dense_entries(m: DenseMatrix) -> Seq<Seq<int>>;

/// A square matrix of `n` rows has a size in bytes that an allocation can
/// have.
pub open spec fn can_hold_square(n: int) -> bool {
    n * n * 8 <= isize::MAX
}

/// Whether a square matrix of `n` rows can be allocated at all.
pub fn square_fits(n: usize) -> (r: bool)
    ensures
        r == can_hold_square(n as int),
{
    if n > 4294967295 {
        assert(n * n * 8 > isize::MAX) by (nonlinear_arith)
            requires
                n >= 4294967296,
                isize::MAX <= 9223372036854775807,
        ;
        false
    } else {
        let wide: u128 = n as u128;
        assert(wide * wide <= 4294967295 * 4294967295) by (nonlinear_arith)
            requires
                0 <= wide <= 4294967295,
        ;
        wide * wide * 8 <= isize::MAX as u128
    }
}

/// `DMatrix::identity`: the square matrix of `n` rows with one on the
/// diagonal and zero elsewhere. The crate panics where the size in bytes
/// exceeds `isize::MAX`, which the precondition leaves out.
#[verifier::external_body]
pub(crate) fn dense_identity(n: usize) -> (m: DenseMatrix)
    requires
        can_hold_square(n as int),
    ensures
        dense_entries(m) == identity_matrix(n as nat),
{
    DenseMatrix { inner: nalgebra::DMatrix::<i64>::identity(n, n) }
}

/// `DMatrix::zeros`: the square matrix of `n` rows whose entries are all
/// zero. The crate panics where the size in bytes exceeds `isize::MAX`,
/// which the precondition leaves out.
#[verifier::external_body]
pub(crate) fn dense_zeros(n: usize) -> (m: DenseMatrix)
    requires
        can_hold_square(n as int),
    ensures
        dense_entries(m) == zero_matrix(n as nat),
{
    DenseMatrix { inner: nalgebra::DMatrix::<i64>::zeros(n, n) }
}

/// Indexing a matrix by `(row, column)`: the entry there. The crate
/// panics on an index outside the matrix, which the precondition leaves
/// out.
#[verifier::external_body]
pub(crate) fn dense_get(m: &DenseMatrix, r: usize, c: usize) -> (v: i64)
    requires
        r < dense_entries(*m).len(),
        c < dense_entries(*m)[r as int].len(),
    ensures
        v == dense_entries(*m)[r as int][c as int],
{
    m.inner[(r, c)]
}

/// Assigning to a matrix indexed by `(row, column)`: that entry becomes
/// `v`, and no other entry changes. The crate panics on an index outside
/// the matrix, which the precondition leaves out.
#[verifier::external_body]
pub(crate) fn dense_set(m: &mut DenseMatrix, r: usize, c: usize, v: i64)
    requires
        r < dense_entries(*old(m)).len(),
        c < dense_entries(*old(m))[r as int].len(),
    ensures
        dense_entries(*final(m)) == dense_entries(*old(m)).update(
            r as int,
            dense_entries(*old(m))[r as int].update(c as int, v as int),
        ),
{
    m.inner[(r, c)] = v;
}

/// The product `&a * &b` of two matrices: the entry in row `r` and column
/// `c` is the sum over `k` of `a[r][k] * b[k][c]`. The crate panics where
/// the shapes do not match, and adds up products of entries in 64 bits;
/// the precondition asks for two square matrices of one size with entries
/// of magnitude at most one, whose sums cannot overflow.
#[verifier::external_body]
pub(crate) fn dense_product(a: &DenseMatrix, b: &DenseMatrix) -> (p: DenseMatrix)
    requires
        is_square(dense_entries(*a)),
        is_square(dense_entries(*b)),
        dense_entries(*a).len() == dense_entries(*b).len(),
        can_hold_square(dense_entries(*a).len() as int),
        entries_within(dense_entries(*a), 1),
        entries_within(dense_entries(*b), 1),
    ensures
        dense_entries(p) == matrix_product(dense_entries(*a), dense_entries(*b)),
{
    DenseMatrix { inner: &a.inner * &b.inner }
}

/// The rows of a dense square matrix of `n` rows, as a matrix of this
/// library.
pub(crate) fn dense_rows(m: &DenseMatrix, n: usize) -> (rows: IntMatrix)
    requires
        dense_entries(*m).len() == n,
        is_square(dense_entries(*m)),
    ensures
        rows.wf(),
        rows@ == dense_entries(*m),
{
    let ghost entries = dense_entries(*m);
    let mut rows = IntMatrix::scalar(n, 0);
    let mut r: usize = 0;
    while r < n
        invariant
            r <= n,
            entries == dense_entries(*m),
            entries.len() == n,
            is_square(entries),
            rows.wf(),
            rows@.len() == n,
            forall|i: int| 0 <= i < r ==> #[trigger] rows@[i] == entries[i],
        decreases n - r,
    {
        assert(entries[r as int].len() == n);
        let mut row: Vec<i64> = Vec::new();
        let mut c: usize = 0;
        while c < n
            invariant
                c <= n,
                r < n,
                entries == dense_entries(*m),
                entries.len() == n,
                entries[r as int].len() == n,
                row@.len() == c,
                forall|k: int| 0 <= k < c ==> #[trigger] row@[k] as int == entries[r as int][k],
            decreases n - c,
        {
            row.push(dense_get(m, r, c));
            c += 1;
        }
        let ghost before = rows@;
        rows.set_row(r, row);
        proof {
            assert(rows@[r as int] =~= entries[r as int]);
            assert forall|i: int| 0 <= i < r + 1 implies #[trigger] rows@[i] == entries[i] by {
                if i < r {
                    assert(rows@[i] == before[i]);
                }
            }
        }
        r += 1;
    }
    assert(rows@ =~= entries);
    rows
}

} // verus!
