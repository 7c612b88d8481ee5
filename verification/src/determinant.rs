//! The determinant of an integer matrix, by expansion along the last row,
//! and its three-term recurrence on band matrices.

use vstd::prelude::*;
use crate::bounds::lemma_product_within;
use crate::matrix::{entries_within, is_square, IntMatrix};

verus! {

/// The determinant of the leading `k`-by-`k` block of a matrix that has
/// entries only on its diagonal and beside it, by the three-term
/// recurrence of such determinants.
pub open spec fn band_determinant(m: Seq<Seq<int>>, k: nat) -> int
    decreases k,
{
    if k == 0 {
        1
    } else if k == 1 {
        m[0][0]
    } else {
        m[k - 1][k - 1] * band_determinant(m, (k - 1) as nat) - (m[k - 2][k - 1] * m[k - 1][k
            - 2]) * band_determinant(m, (k - 2) as nat)
    }
}

/// The columns `0, 1, ..., k - 1`.
pub open spec fn leading_columns(k: nat) -> Seq<int> {
    Seq::new(k, |j: int| j)
}

/// One term of the expansion along row `k - 1`: the entry in the `j`-th
/// of the chosen columns, times the determinant of the rows above it
/// without that column, with the sign of the place.
pub open spec fn cofactor_term(m: Seq<Seq<int>>, k: nat, columns: Seq<int>, j: int) -> int
    decreases k, 0nat,
{
    if k == 0 {
        0
    } else {
        let minor = minor_determinant(m, (k - 1) as nat, columns.remove(j));
        if (k - 1 + j) % 2 == 0 {
            m[k - 1][columns[j]] * minor
        } else {
            -(m[k - 1][columns[j]] * minor)
        }
    }
}

/// The first `upto` terms of the expansion along row `k - 1`.
pub open spec fn expansion(m: Seq<Seq<int>>, k: nat, columns: Seq<int>, upto: nat) -> int
    decreases k, upto + 1,
{
    if upto == 0 {
        0
    } else {
        expansion(m, k, columns, (upto - 1) as nat) + cofactor_term(m, k, columns, upto - 1)
    }
}

/// The determinant of the first `k` rows of `m` in the `k` chosen
/// columns, by expansion along the last of these rows.
pub open spec fn minor_determinant(m: Seq<Seq<int>>, k: nat, columns: Seq<int>) -> int
    decreases k, k + 2,
{
    if k == 0 {
        1
    } else {
        expansion(m, k, columns, k)
    }
}

/// The determinant of a square matrix.
pub open spec fn determinant(m: Seq<Seq<int>>) -> int {
    minor_determinant(m, m.len(), leading_columns(m.len()))
}

/// `m` has entries only on its diagonal and beside it.
pub open spec fn is_band(m: Seq<Seq<int>>) -> bool {
    forall|r: int, c: int|
        0 <= r < m.len() && 0 <= c < m.len() && (r - c > 1 || c - r > 1) ==> #[trigger] m[r][c]
            == 0
}

/// The determinants of all leading blocks up to size `k` fit 64 bits.
pub open spec fn leading_determinants_fit(m: Seq<Seq<int>>, k: nat) -> bool {
    forall|j: nat|
        j <= k ==> i64::MIN <= #[trigger] minor_determinant(m, j, leading_columns(j)) <= i64::MAX
}

/// Terms whose entry is zero add nothing to an expansion.
proof fn lemma_expansion_of_zeros(m: Seq<Seq<int>>, k: nat, columns: Seq<int>, upto: nat)
    requires
        k >= 1,
        forall|j: int| 0 <= j < upto ==> m[k - 1][#[trigger] columns[j]] == 0,
    ensures
        expansion(m, k, columns, upto) == 0,
    decreases upto,
{
    if upto > 0 {
        lemma_expansion_of_zeros(m, k, columns, (upto - 1) as nat);
        let minor = minor_determinant(m, (k - 1) as nat, columns.remove(upto - 1));
        let entry = m[k - 1][columns[upto - 1]];
        assert(entry == 0);
        assert(entry * minor == 0) by (nonlinear_arith)
            requires
                entry == 0,
        ;
        assert(cofactor_term(m, k, columns, upto - 1) == 0);
        assert(expansion(m, k, columns, upto) == expansion(m, k, columns, (upto - 1) as nat)
            + cofactor_term(m, k, columns, upto - 1));
    }
}

/// A determinant whose last column is zero is zero.
proof fn lemma_zero_last_column(m: Seq<Seq<int>>, k: nat, columns: Seq<int>)
    requires
        k >= 1,
        columns.len() == k,
        forall|r: int| 0 <= r < k ==> (#[trigger] m[r])[columns[k - 1]] == 0,
    ensures
        minor_determinant(m, k, columns) == 0,
    decreases k,
{
    lemma_zero_last_column_terms(m, k, columns, k);
}

proof fn lemma_zero_last_column_terms(m: Seq<Seq<int>>, k: nat, columns: Seq<int>, upto: nat)
    requires
        k >= 1,
        upto <= k,
        columns.len() == k,
        forall|r: int| 0 <= r < k ==> (#[trigger] m[r])[columns[k - 1]] == 0,
    ensures
        expansion(m, k, columns, upto) == 0,
    decreases k, upto,
{
    if upto > 0 {
        lemma_zero_last_column_terms(m, k, columns, (upto - 1) as nat);
        let j = upto - 1;
        let rest = columns.remove(j);
        let minor = minor_determinant(m, (k - 1) as nat, rest);
        let entry = m[k - 1][columns[j]];
        if j == k - 1 {
            assert(entry == 0);
            assert(entry * minor == 0) by (nonlinear_arith)
                requires
                    entry == 0,
            ;
        } else {
            assert(k >= 2);
            assert(rest.len() == k - 1);
            assert(rest[k - 2] == columns[k - 1]);
            assert forall|r: int| 0 <= r < k - 1 implies (#[trigger] m[r])[rest[k - 2]] == 0 by {}
            lemma_zero_last_column(m, (k - 1) as nat, rest);
            assert(entry * minor == 0) by (nonlinear_arith)
                requires
                    minor == 0,
            ;
        }
        assert(cofactor_term(m, k, columns, j) == 0);
        assert(expansion(m, k, columns, upto) == expansion(m, k, columns, (upto - 1) as nat)
            + cofactor_term(m, k, columns, j));
    }
}

/// The columns `0, ..., k - 2` and `k`: those of a leading block of size
/// `k + 1`, without the last but one.
pub open spec fn skipping_columns(k: nat) -> Seq<int> {
    Seq::new(k, |j: int| if j < k - 1 { j } else { k as int })
}

/// On a band matrix the determinant of a leading block obeys the
/// three-term recurrence.
pub proof fn lemma_band_determinant(m: Seq<Seq<int>>, k: nat)
    requires
        is_square(m),
        is_band(m),
        k <= m.len(),
    ensures
        minor_determinant(m, k, leading_columns(k)) == band_determinant(m, k),
    decreases k,
{
    if k == 0 {
    } else if k == 1 {
        let columns = leading_columns(1);
        assert(minor_determinant(m, 0, columns.remove(0)) == 1);
        assert(expansion(m, 1, columns, 0) == 0);
        assert(cofactor_term(m, 1, columns, 0) == m[0][0] * 1);
        assert(expansion(m, 1, columns, 1) == m[0][0]);
    } else {
        let columns = leading_columns(k);
        lemma_band_determinant(m, (k - 1) as nat);
        lemma_band_determinant(m, (k - 2) as nat);
        assert(m[k - 1].len() == m.len());
        // All terms before the last two vanish.
        assert forall|j: int| 0 <= j < k - 2 implies m[k - 1][#[trigger] columns[j]] == 0 by {
            assert(m[k - 1][j] == 0);
        }
        lemma_expansion_of_zeros(m, k, columns, (k - 2) as nat);
        // The last term: the leading block one smaller.
        assert(columns.remove(k - 1) =~= leading_columns((k - 1) as nat));
        assert((k - 1 + (k - 1)) % 2 == 0);
        // The term before it: the block one smaller with its last column
        // exchanged for the next.
        assert(columns.remove(k - 2) =~= skipping_columns((k - 1) as nat));
        assert((k - 1 + (k - 2)) % 2 == 1);
        lemma_skipping_determinant(m, (k - 1) as nat);
        let d1 = band_determinant(m, (k - 1) as nat);
        let d2 = band_determinant(m, (k - 2) as nat);
        let a = m[k - 1][k - 1];
        let b = m[k - 2][k - 1];
        let c = m[k - 1][k - 2];
        assert(cofactor_term(m, k, columns, k - 1) == a * d1);
        assert(cofactor_term(m, k, columns, k - 2) == -(c * (b * d2)));
        assert(expansion(m, k, columns, (k - 1) as nat) == expansion(
            m,
            k,
            columns,
            (k - 2) as nat,
        ) + cofactor_term(m, k, columns, k - 2));
        assert(expansion(m, k, columns, k) == a * d1 - c * (b * d2));
        assert(c * (b * d2) == (b * c) * d2) by (nonlinear_arith);
    }
}

/// The determinant of the leading block of size `k` of a band matrix with
/// its last column exchanged for the next column: the entry above the
/// diagonal times the determinant of the leading block one smaller.
proof fn lemma_skipping_determinant(m: Seq<Seq<int>>, k: nat)
    requires
        is_square(m),
        is_band(m),
        1 <= k < m.len(),
    ensures
        minor_determinant(m, k, skipping_columns(k)) == m[k - 1][k as int] * band_determinant(
            m,
            (k - 1) as nat,
        ),
    decreases k,
{
    let columns = skipping_columns(k);
    assert(m[k - 1].len() == m.len());
    lemma_band_determinant(m, (k - 1) as nat);
    assert(columns.remove(k - 1) =~= leading_columns((k - 1) as nat));
    assert((k - 1 + (k - 1)) % 2 == 0);
    let d = band_determinant(m, (k - 1) as nat);
    assert(cofactor_term(m, k, columns, k - 1) == m[k - 1][k as int] * d);
    if k == 1 {
        assert(expansion(m, k, columns, 0) == 0);
    } else {
        // All terms before the last two vanish.
        assert forall|j: int| 0 <= j < k - 2 implies m[k - 1][#[trigger] columns[j]] == 0 by {
            assert(m[k - 1][j] == 0);
        }
        lemma_expansion_of_zeros(m, k, columns, (k - 2) as nat);
        // The term before the last has a minor whose last column is zero.
        let rest = columns.remove(k - 2);
        assert(rest.len() == k - 1);
        assert(rest[k - 2] == k);
        assert forall|r: int| 0 <= r < k - 1 implies (#[trigger] m[r])[rest[k - 2]] == 0 by {
            assert(m[r].len() == m.len());
            assert(m[r][k as int] == 0);
        }
        lemma_zero_last_column(m, (k - 1) as nat, rest);
        let entry = m[k - 1][columns[k - 2]];
        let minor = minor_determinant(m, (k - 1) as nat, rest);
        assert(entry * minor == 0) by (nonlinear_arith)
            requires
                minor == 0,
        ;
        assert(cofactor_term(m, k, columns, k - 2) == 0);
        assert(expansion(m, k, columns, (k - 1) as nat) == expansion(
            m,
            k,
            columns,
            (k - 2) as nat,
        ) + cofactor_term(m, k, columns, k - 2));
    }
}

/// On a square band matrix the three-term recurrence gives the
/// determinant.
pub proof fn lemma_band_determinant_is_determinant(m: Seq<Seq<int>>)
    requires
        is_square(m),
        is_band(m),
    ensures
        band_determinant(m, m.len()) == determinant(m),
{
    lemma_band_determinant(m, m.len());
}

/// The determinants of all leading blocks up to size `k` fit 64 bits,
/// stated of the recurrence.
spec fn band_determinants_fit(m: Seq<Seq<int>>, k: nat) -> bool {
    forall|j: nat| j <= k ==> i64::MIN <= #[trigger] band_determinant(m, j) <= i64::MAX
}

/// The recurrence and the expansion agree on when the leading blocks fit.
proof fn lemma_fit_by_recurrence(m: Seq<Seq<int>>, k: nat)
    requires
        is_square(m),
        is_band(m),
        k <= m.len(),
    ensures
        band_determinants_fit(m, k) <==> leading_determinants_fit(m, k),
{
    assert forall|j: nat| j <= k implies #[trigger] band_determinant(m, j) == minor_determinant(
        m,
        j,
        leading_columns(j),
    ) by {
        lemma_band_determinant(m, j);
    }
    if band_determinants_fit(m, k) {
        assert forall|j: nat| j <= k implies i64::MIN <= #[trigger] minor_determinant(
            m,
            j,
            leading_columns(j),
        ) <= i64::MAX by {
            assert(i64::MIN <= band_determinant(m, j) <= i64::MAX);
        }
    }
    if leading_determinants_fit(m, k) {
        assert forall|j: nat| j <= k implies i64::MIN <= #[trigger] band_determinant(m, j)
            <= i64::MAX by {
            assert(i64::MIN <= minor_determinant(m, j, leading_columns(j)) <= i64::MAX);
        }
    }
}

/// The determinant of a band matrix, by the three-term recurrence, or
/// `None` where the determinant of one of its leading blocks does not fit
/// 64 bits.
pub fn band_matrix_determinant(m: &IntMatrix) -> (result: Option<i64>)
    requires
        m.wf(),
        is_band(m@),
        entries_within(m@, 2147483648),
    ensures
        result.is_some() <==> leading_determinants_fit(m@, m@.len()),
        result matches Some(det) ==> det == determinant(m@),
{
    proof {
        lemma_fit_by_recurrence(m@, m@.len());
        lemma_band_determinant(m@, m@.len());
    }
    let n = m.size();
    if n == 0 {
        assert(band_determinants_fit(m@, 0));
        return Some(1);
    }
    assert(m@[0].len() == n);
    let first = m.get(0, 0);
    let mut older: i64 = 1;
    let mut newer: i64 = first;
    let mut k: usize = 1;
    assert(band_determinants_fit(m@, 1)) by {
        assert forall|j: nat| j <= 1 implies i64::MIN <= #[trigger] band_determinant(m@, j)
            <= i64::MAX by {
            if j == 0 {
            } else {
                assert(j == 1);
            }
        }
    }
    while k < n
        invariant
            1 <= k <= n,
            n == m@.len(),
            m.wf(),
            entries_within(m@, 2147483648),
            band_determinants_fit(m@, n as nat) <==> leading_determinants_fit(m@, n as nat),
            band_determinant(m@, n as nat) == determinant(m@),
            older == band_determinant(m@, (k - 1) as nat),
            newer == band_determinant(m@, k as nat),
            band_determinants_fit(m@, k as nat),
        decreases n - k,
    {
        assert(m@[k as int].len() == n);
        assert(m@[k - 1].len() == n);
        let a: i128 = m.get(k, k) as i128;
        let b: i128 = m.get(k - 1, k) as i128;
        let c: i128 = m.get(k, k - 1) as i128;
        proof {
            assert(-2147483648 <= m@[k as int][k as int] <= 2147483648);
            assert(-2147483648 <= m@[k - 1][k as int] <= 2147483648);
            assert(-2147483648 <= m@[k as int][k - 1] <= 2147483648);
            lemma_product_within(b as int, c as int, 2147483648, 2147483648);
            lemma_product_within(a as int, newer as int, 2147483648, 9223372036854775808);
            lemma_product_within(
                b * c,
                older as int,
                4611686018427387904,
                9223372036854775808,
            );
        }
        let next: i128 = a * (newer as i128) - (b * c) * (older as i128);
        assert(next == band_determinant(m@, (k + 1) as nat));
        if next > 9223372036854775807 || next < -9223372036854775808 {
            assert(!band_determinants_fit(m@, n as nat)) by {
                assert(!(i64::MIN <= band_determinant(m@, (k + 1) as nat) <= i64::MAX));
            }
            return None;
        }
        assert(band_determinants_fit(m@, (k + 1) as nat)) by {
            assert forall|j: nat| j <= k + 1 implies i64::MIN <= #[trigger] band_determinant(
                m@,
                j,
            ) <= i64::MAX by {
                if j <= k {
                    assert(band_determinants_fit(m@, k as nat));
                }
            }
        }
        older = newer;
        newer = next as i64;
        k += 1;
    }
    Some(newer)
}

} // verus!
