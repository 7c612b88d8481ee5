//! Square matrices of machine integers, viewed as matrices of
//! mathematical integers.

use vstd::prelude::*;

verus! {

/// The `n`-by-`n` identity matrix.
pub open spec fn identity_matrix(n: nat) -> Seq<Seq<int>> {
    Seq::new(n, |r: int| Seq::new(n, |c: int| if r == c { 1int } else { 0int }))
}

/// The `n`-by-`n` zero matrix.
pub open spec fn zero_matrix(n: nat) -> Seq<Seq<int>> {
    Seq::new(n, |r: int| Seq::new(n, |c: int| 0int))
}

/// Every row of `m` is as long as `m` has rows.
pub open spec fn is_square(m: Seq<Seq<int>>) -> bool {
    forall|r: int| 0 <= r < m.len() ==> (#[trigger] m[r]).len() == m.len()
}

/// Every entry of `m` lies in `[-bound, bound]`.
pub open spec fn entries_within(m: Seq<Seq<int>>, bound: int) -> bool {
    forall|r: int, c: int|
        0 <= r < m.len() && 0 <= c < m[r].len() ==> -bound <= #[trigger] m[r][c] <= bound
}

/// The sum of `row[k] * m[k][c]` over the first `upto` indices `k`.
pub open spec fn dot_column(row: Seq<int>, m: Seq<Seq<int>>, c: int, upto: nat) -> int
    decreases upto,
{
    if upto == 0 {
        0
    } else {
        dot_column(row, m, c, (upto - 1) as nat) + row[upto - 1] * m[upto - 1][c]
    }
}

/// The product of two square matrices of the same size.
pub open spec fn matrix_product(a: Seq<Seq<int>>, b: Seq<Seq<int>>) -> Seq<Seq<int>> {
    Seq::new(a.len(), |r: int| Seq::new(b.len(), |c: int| dot_column(a[r], b, c, b.len())))
}

/// Where `row` is zero but at index `p`, its product with a column is the
/// product of the two entries at `p`.
pub proof fn lemma_dot_single(row: Seq<int>, m: Seq<Seq<int>>, c: int, upto: nat, p: int)
    requires
        forall|k: int| 0 <= k < upto && k != p ==> #[trigger] row[k] == 0,
    ensures
        dot_column(row, m, c, upto) == if 0 <= p < upto {
            row[p] * m[p][c]
        } else {
            0
        },
    decreases upto,
{
    if upto > 0 {
        lemma_dot_single(row, m, c, (upto - 1) as nat, p);
        if upto - 1 != p {
            assert(row[upto - 1] == 0);
            assert(row[upto - 1] * m[upto - 1][c] == 0) by (nonlinear_arith)
                requires
                    row[upto - 1] == 0,
            ;
        }
    }
}

/// `row` is zero but at index `p`, where it holds `1` or `-1`.
pub open spec fn is_signed_unit(row: Seq<int>, p: int) -> bool {
    &&& 0 <= p < row.len()
    &&& row[p] == 1 || row[p] == -1
    &&& forall|k: int| 0 <= k < row.len() && k != p ==> #[trigger] row[k] == 0
}

/// `m` is a signed permutation matrix: row `r` is zero but in column
/// `columns[r]`, where it holds `1` or `-1`, and no two rows share their
/// column.
pub open spec fn is_signed_permutation(m: Seq<Seq<int>>, columns: Seq<int>) -> bool {
    &&& columns.len() == m.len()
    &&& is_square(m)
    &&& forall|r: int| 0 <= r < m.len() ==> is_signed_unit(#[trigger] m[r], columns[r])
    &&& forall|r: int, q: int| 0 <= r < q < m.len() ==> columns[r] != columns[q]
}

/// The integers that a row of machine integers holds.
pub open spec fn row_view(row: Seq<i64>) -> Seq<int> {
    Seq::new(row.len(), |c: int| row[c] as int)
}

/// A square matrix of integers, stored row by row.
#[derive(Debug)]
pub struct IntMatrix {
    rows: Vec<Vec<i64>>,
}

impl View for IntMatrix {
    type V = Seq<Seq<int>>;

    closed spec fn view(&self) -> Seq<Seq<int>> {
        Seq::new(self.rows@.len(), |r: int| row_view(self.rows@[r]@))
    }
}

impl IntMatrix {
    /// The matrix is square.
    pub open spec fn wf(&self) -> bool {
        is_square(self@)
    }

    /// Builds the matrix that has `diagonal` on its diagonal and zero
    /// elsewhere.
    pub fn scalar(n: usize, diagonal: i64) -> (m: IntMatrix)
        ensures
            m.wf(),
            m@.len() == n,
            forall|r: int, c: int|
                0 <= r < n && 0 <= c < n ==> #[trigger] m@[r][c] == if r == c {
                    diagonal as int
                } else {
                    0int
                },
    {
        let mut rows: Vec<Vec<i64>> = Vec::new();
        let mut r: usize = 0;
        while r < n
            invariant
                r <= n,
                rows@.len() == r,
                forall|i: int| 0 <= i < r ==> (#[trigger] rows@[i])@.len() == n,
                forall|i: int, c: int|
                    0 <= i < r && 0 <= c < n ==> #[trigger] rows@[i]@[c] == if i == c {
                        diagonal
                    } else {
                        0i64
                    },
            decreases n - r,
        {
            let mut row: Vec<i64> = Vec::new();
            let mut c: usize = 0;
            while c < n
                invariant
                    c <= n,
                    row@.len() == c,
                    forall|k: int| 0 <= k < c ==> #[trigger] row@[k] == if r == k {
                        diagonal
                    } else {
                        0i64
                    },
                decreases n - c,
            {
                row.push(if r == c { diagonal } else { 0 });
                c += 1;
            }
            rows.push(row);
            r += 1;
        }
        let m = IntMatrix { rows };
        assert(m@.len() == n);
        assert forall|i: int| 0 <= i < m@.len() implies (#[trigger] m@[i]).len() == m@.len() by {}
        m
    }

    /// The number of rows, which is the number of columns.
    pub fn size(&self) -> (n: usize)
        ensures
            n == self@.len(),
    {
        self.rows.len()
    }

    /// The entry in row `r` and column `c`.
    pub fn get(&self, r: usize, c: usize) -> (v: i64)
        requires
            self.wf(),
            r < self@.len(),
            c < self@.len(),
        ensures
            v == self@[r as int][c as int],
    {
        assert(self@[r as int].len() == self@.len());
        self.rows[r][c]
    }

    /// Replaces row `r` by `row`.
    pub fn set_row(&mut self, r: usize, row: Vec<i64>)
        requires
            old(self).wf(),
            r < old(self)@.len(),
            row@.len() == old(self)@.len(),
        ensures
            final(self).wf(),
            final(self)@ == old(self)@.update(r as int, row_view(row@)),
    {
        self.rows.set(r, row);
        assert(self@ =~= old(self)@.update(r as int, row_view(row@)));
        assert forall|i: int| 0 <= i < self@.len() implies (#[trigger] self@[i]).len()
            == self@.len() by {
            if i != r {
                assert(self@[i] == old(self)@[i]);
            }
        }
    }
}

/// `row`, with every entry negated where `negate` is set.
pub open spec fn signed(row: Seq<int>, negate: bool) -> Seq<int> {
    Seq::new(row.len(), |c: int| if negate { -row[c] } else { row[c] })
}

} // verus!
