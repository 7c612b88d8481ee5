//! The Seifert matrix of a braid, its determinant and its signature.

use vstd::prelude::*;
use crate::bounds::lemma_product_within;
use crate::determinant::is_band;
use crate::braid_group::{Braid, BraidCrossing, MAX_CROSSINGS};
use crate::dense::{can_hold_square, dense_entries, dense_get, dense_rows, dense_set, dense_zeros};
use crate::matrix::{entries_within, IntMatrix};

verus! {

/// The size of the Seifert matrix of a braid on `strands` strands: one
/// less than the strand count, and at least one.
pub open spec fn seifert_size(strands: nat) -> nat {
    if strands >= 2 {
        (strands - 1) as nat
    } else {
        1
    }
}

/// The smaller of `i` and the last index of a matrix of size `size`.
pub open spec fn clamped(i: int, size: nat) -> int {
    if i < size - 1 {
        i
    } else {
        size - 1
    }
}

/// What one crossing adds to the entry in row `r` and column `c`: its
/// sign at `(i, i + 1)` and the negated sign at `(i + 1, i)`, where `i`
/// is its strand and both indices are clamped to the matrix.
pub open spec fn contribution(size: nat, crossing: BraidCrossing, r: int, c: int) -> int {
    let i = clamped(crossing.strand as int, size);
    let j = clamped(crossing.strand + 1, size);
    let s = if crossing.is_over { 1int } else { -1int };
    (if r == i && c == j {
        s
    } else {
        0int
    }) + (if r == j && c == i {
        -s
    } else {
        0int
    })
}

/// The entry of the Seifert matrix in row `r` and column `c`: the sum of
/// what the crossings add to it.
pub open spec fn seifert_entry(size: nat, crossings: Seq<BraidCrossing>, r: int, c: int) -> int
    decreases crossings.len(),
{
    if crossings.len() == 0 {
        0
    } else {
        seifert_entry(size, crossings.drop_last(), r, c) + contribution(
            size,
            crossings.last(),
            r,
            c,
        )
    }
}

/// The Seifert matrix of a crossing sequence, of the given size.
pub open spec fn seifert_of(size: nat, crossings: Seq<BraidCrossing>) -> Seq<Seq<int>> {
    Seq::new(size, |r: int| Seq::new(size, |c: int| seifert_entry(size, crossings, r, c)))
}

/// No entry of the Seifert matrix exceeds the number of crossings in
/// magnitude.
pub proof fn lemma_seifert_entry_bound(size: nat, crossings: Seq<BraidCrossing>, r: int, c: int)
    ensures
        -crossings.len() <= seifert_entry(size, crossings, r, c) <= crossings.len(),
    decreases crossings.len(),
{
    if crossings.len() > 0 {
        lemma_seifert_entry_bound(size, crossings.drop_last(), r, c);
    }
}

/// The Seifert matrix is antisymmetric: the entry at `(r, c)` is the
/// negative of the entry at `(c, r)`.
pub proof fn lemma_seifert_antisymmetric(size: nat, crossings: Seq<BraidCrossing>, r: int, c: int)
    ensures
        seifert_entry(size, crossings, r, c) == -seifert_entry(size, crossings, c, r),
    decreases crossings.len(),
{
    if crossings.len() > 0 {
        lemma_seifert_antisymmetric(size, crossings.drop_last(), r, c);
    }
}

/// The Seifert matrix has entries only beside its diagonal.
pub proof fn lemma_seifert_band(size: nat, crossings: Seq<BraidCrossing>, r: int, c: int)
    requires
        r - c > 1 || c - r > 1 || r == c,
    ensures
        seifert_entry(size, crossings, r, c) == 0,
    decreases crossings.len(),
{
    if crossings.len() > 0 {
        lemma_seifert_band(size, crossings.drop_last(), r, c);
    }
}

/// The Seifert matrix is a band matrix.
pub proof fn lemma_seifert_is_band(size: nat, crossings: Seq<BraidCrossing>)
    ensures
        is_band(seifert_of(size, crossings)),
{
    let m = seifert_of(size, crossings);
    assert forall|r: int, c: int|
        0 <= r < m.len() && 0 <= c < m.len() && (r - c > 1 || c - r > 1) implies #[trigger] m[r][c]
        == 0 by {
        lemma_seifert_band(size, crossings, r, c);
    }
}

/// The Seifert matrix of a braid, of a size that an allocation can hold.
pub fn seifert_matrix(braid: &Braid) -> (m: IntMatrix)
    requires
        braid.wf(),
        can_hold_square(seifert_size(braid.strand_count()) as int),
    ensures
        m.wf(),
        m@ == seifert_of(seifert_size(braid.strand_count()), braid@),
{
    let strands = braid.strands();
    let size: usize = if strands >= 2 { strands - 1 } else { 1 };
    let crossings = braid.get_crossings();
    let mut matrix = dense_zeros(size);
    assert(dense_entries(matrix) =~~= seifert_of(size as nat, crossings@.take(0)));
    let mut k: usize = 0;
    while k < crossings.len()
        invariant
            k <= crossings@.len(),
            crossings@ == braid@,
            crossings@.len() <= MAX_CROSSINGS,
            size == seifert_size(braid.strand_count()),
            size >= 1,
            dense_entries(matrix) == seifert_of(size as nat, crossings@.take(k as int)),
        decreases crossings@.len() - k,
    {
        let crossing = crossings[k];
        let i: usize = if crossing.strand < size - 1 { crossing.strand } else { size - 1 };
        let j: usize = if crossing.strand < size - 1 { crossing.strand + 1 } else { size - 1 };
        let s: i64 = if crossing.is_over { 1 } else { -1 };
        let ghost before = crossings@.take(k as int);
        let ghost after = crossings@.take(k + 1);
        let ghost start = dense_entries(matrix);
        proof {
            assert(after.drop_last() =~= before);
            assert(after.last() == crossing);
            assert(i == clamped(crossing.strand as int, size as nat));
            assert(j == clamped(crossing.strand + 1, size as nat));
            lemma_seifert_entry_bound(size as nat, before, i as int, j as int);
            lemma_seifert_entry_bound(size as nat, before, j as int, i as int);
            assert(start[i as int].len() == size);
            assert(start[j as int].len() == size);
            assert(start[i as int][j as int] == seifert_entry(size as nat, before, i as int, j as int));
            assert(start[j as int][i as int] == seifert_entry(size as nat, before, j as int, i as int));
        }
        let upper = dense_get(&matrix, i, j);
        dense_set(&mut matrix, i, j, upper + s);
        let ghost middle = dense_entries(matrix);
        assert(middle[j as int].len() == size);
        assert(middle[j as int][i as int] == if i == j {
            start[j as int][i as int] + s
        } else {
            start[j as int][i as int]
        });
        let lower = dense_get(&matrix, j, i);
        dense_set(&mut matrix, j, i, lower - s);
        proof {
            let now = dense_entries(matrix);
            let goal = seifert_of(size as nat, after);
            assert(now.len() == goal.len());
            assert forall|r: int| 0 <= r < size implies #[trigger] now[r] =~= goal[r] by {
                assert(start[r].len() == size);
                assert forall|c: int| 0 <= c < size implies now[r][c] == goal[r][c] by {
                    assert(start[r][c] == seifert_entry(size as nat, before, r, c));
                    assert(goal[r][c] == seifert_entry(size as nat, before, r, c) + contribution(
                        size as nat,
                        crossing,
                        r,
                        c,
                    ));
                }
            }
            assert(now =~= goal);
        }
        k += 1;
    }
    assert(crossings@.take(k as int) =~= crossings@);
    dense_rows(&matrix, size)
}

/// Some entry of `row` is not zero.
pub open spec fn has_nonzero(row: Seq<int>) -> bool {
    exists|c: int| 0 <= c < row.len() && #[trigger] row[c] != 0
}

/// The number of rows among the first `upto` of `m` that hold an entry
/// other than zero.
pub open spec fn nonzero_rows(m: Seq<Seq<int>>, upto: nat) -> nat
    decreases upto,
{
    if upto == 0 {
        0
    } else {
        nonzero_rows(m, (upto - 1) as nat) + if has_nonzero(m[upto - 1]) {
            1nat
        } else {
            0nat
        }
    }
}

/// There are no more such rows than rows.
pub proof fn lemma_nonzero_rows_bound(m: Seq<Seq<int>>, upto: nat)
    ensures
        nonzero_rows(m, upto) <= upto,
    decreases upto,
{
    if upto > 0 {
        lemma_nonzero_rows_bound(m, (upto - 1) as nat);
    }
}

/// The number of rows of `m` that hold an entry other than zero: the
/// estimate of the rank of `m`.
pub fn estimated_rank(m: &IntMatrix) -> (rank: usize)
    requires
        m.wf(),
    ensures
        rank == nonzero_rows(m@, m@.len()),
{
    let n = m.size();
    let mut rank: usize = 0;
    let mut r: usize = 0;
    while r < n
        invariant
            r <= n,
            n == m@.len(),
            m.wf(),
            rank == nonzero_rows(m@, r as nat),
            rank <= r,
        decreases n - r,
    {
        assert(m@[r as int].len() == n);
        let mut found = false;
        let mut c: usize = 0;
        while c < n && !found
            invariant
                c <= n,
                r < n,
                n == m@.len(),
                m@[r as int].len() == n,
                m.wf(),
                found ==> has_nonzero(m@[r as int]),
                !found ==> forall|j: int| 0 <= j < c ==> #[trigger] m@[r as int][j] == 0,
            decreases n - c + if found { 0int } else { 1int },
        {
            if m.get(r, c) != 0 {
                found = true;
                assert(m@[r as int][c as int] != 0);
            }
            c += 1;
        }
        if found {
            rank += 1;
        }
        r += 1;
    }
    rank
}

/// The sign of an integer: `1`, `0` or `-1`.
pub open spec fn sign_of(x: int) -> int {
    if x > 0 {
        1
    } else if x < 0 {
        -1
    } else {
        0
    }
}

/// The sum of the signs of the first `upto` diagonal entries of the
/// symmetrized matrix `m + mᵗ`.
pub open spec fn diagonal_signs(m: Seq<Seq<int>>, upto: nat) -> int
    decreases upto,
{
    if upto == 0 {
        0
    } else {
        diagonal_signs(m, (upto - 1) as nat) + sign_of(2 * m[upto - 1][upto - 1])
    }
}

/// The signature of `m`: the number of positive eigenvalues of `m + mᵗ`
/// less the number of negative ones. It is exact up to size two; beyond
/// that it is estimated from the diagonal of `m + mᵗ` alone.
pub open spec fn signature_of(m: Seq<Seq<int>>) -> int {
    if m.len() == 0 {
        0
    } else if m.len() == 1 {
        sign_of(2 * m[0][0])
    } else if m.len() == 2 {
        let a = 2 * m[0][0];
        let b = m[0][1] + m[1][0];
        let d = 2 * m[1][1];
        let det = a * d - b * b;
        if det > 0 {
            2 * sign_of(a + d)
        } else if det < 0 {
            0
        } else {
            sign_of(a + d)
        }
    } else {
        diagonal_signs(m, m.len())
    }
}

/// The signature of a matrix.
pub fn matrix_signature(m: &IntMatrix) -> (signature: i128)
    requires
        m.wf(),
        entries_within(m@, 2147483648),
    ensures
        signature == signature_of(m@),
{
    let n = m.size();
    if n == 0 {
        return 0;
    }
    assert(m@[0].len() == n);
    if n == 1 {
        let a = m.get(0, 0);
        return if a > 0 { 1 } else if a < 0 { -1 } else { 0 };
    }
    if n == 2 {
        assert(m@[1].len() == n);
        let a: i128 = 2 * (m.get(0, 0) as i128);
        let b: i128 = m.get(0, 1) as i128 + m.get(1, 0) as i128;
        let d: i128 = 2 * (m.get(1, 1) as i128);
        proof {
            lemma_product_within(a as int, d as int, 4294967296, 4294967296);
            lemma_product_within(b as int, b as int, 4294967296, 4294967296);
        }
        let det: i128 = a * d - b * b;
        let trace: i128 = a + d;
        let s: i128 = if trace > 0 { 1 } else if trace < 0 { -1 } else { 0 };
        return if det > 0 { 2 * s } else if det < 0 { 0 } else { s };
    }
    let mut signature: i128 = 0;
    let mut r: usize = 0;
    while r < n
        invariant
            r <= n,
            n == m@.len(),
            m.wf(),
            signature == diagonal_signs(m@, r as nat),
            -(r as int) <= signature <= r,
        decreases n - r,
    {
        assert(m@[r as int].len() == n);
        let a = m.get(r, r);
        if a > 0 {
            signature += 1;
        } else if a < 0 {
            signature -= 1;
        }
        r += 1;
    }
    signature
}

/// The signature of the Seifert matrix of any crossing sequence is zero:
/// the matrix is antisymmetric, so its symmetrization vanishes.
pub proof fn lemma_seifert_signature(size: nat, crossings: Seq<BraidCrossing>)
    ensures
        signature_of(seifert_of(size, crossings)) == 0,
{
    let m = seifert_of(size, crossings);
    if size == 1 {
        lemma_seifert_band(size, crossings, 0, 0);
    } else if size == 2 {
        lemma_seifert_band(size, crossings, 0, 0);
        lemma_seifert_band(size, crossings, 1, 1);
        lemma_seifert_antisymmetric(size, crossings, 0, 1);
        assert(m[0][1] + m[1][0] == 0);
    } else if size > 2 {
        lemma_seifert_diagonal_signs(size, crossings, size);
    }
}

proof fn lemma_seifert_diagonal_signs(size: nat, crossings: Seq<BraidCrossing>, upto: nat)
    requires
        upto <= size,
    ensures
        diagonal_signs(seifert_of(size, crossings), upto) == 0,
    decreases upto,
{
    if upto > 0 {
        lemma_seifert_diagonal_signs(size, crossings, (upto - 1) as nat);
        lemma_seifert_band(size, crossings, upto - 1, upto - 1);
    }
}

} // verus!
