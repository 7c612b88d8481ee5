//! Braids: sequences of signed crossings between neighbouring strands.

use vstd::prelude::*;
use vstd::string::StringExecFns;
use crate::dense::{
    can_hold_square, dense_entries, dense_identity, dense_product, dense_rows, dense_set,
    DenseMatrix,
};
use crate::error::ValidationError;
use crate::matrix::{
    entries_within, identity_matrix, is_signed_permutation, is_signed_unit, is_square,
    lemma_dot_single, matrix_product, signed, IntMatrix,
};
use crate::text::{decimal, push_decimal};

verus! {

/// The most crossings a braid holds, so that every signed count of them
/// fits a 32-bit integer.
pub const MAX_CROSSINGS: usize = 2147483647;

/// One generator of the braid group: strand `strand` crosses its right
/// neighbour, over it or under it.
#[derive(Debug, Clone, Copy, PartialEq, Eq, Structural)]
pub struct BraidCrossing {
    /// Strand index, counted from zero.
    pub strand: usize,
    /// `true` for an over-crossing, `false` for an under-crossing.
    pub is_over: bool,
}

/// A braid on a fixed number of strands.
#[derive(Debug)]
pub struct Braid {
    number_of_strands: usize,
    crossings: Vec<BraidCrossing>,
}

impl View for Braid {
    type V = Seq<BraidCrossing>;

    /// The crossings, first applied first.
    closed spec fn view(&self) -> Seq<BraidCrossing> {
        self.crossings@
    }
}

/// Every crossing of `crossings` has a right neighbour among `strands`
/// strands.
pub open spec fn crossings_in_range(strands: nat, crossings: Seq<BraidCrossing>) -> bool {
    forall|i: int| 0 <= i < crossings.len() ==> (#[trigger] crossings[i]).strand + 1 < strands
}

/// The text of one generator: the letter sigma, the one-based strand
/// number, and the inverse mark on an under-crossing.
pub open spec fn generator_text(crossing: BraidCrossing) -> Seq<char> {
    "σ"@ + decimal((crossing.strand + 1) as nat) + if crossing.is_over {
        Seq::<char>::empty()
    } else {
        "⁻¹"@
    }
}

/// The braid word: the generators in order, separated by single spaces.
pub open spec fn word_text(crossings: Seq<BraidCrossing>) -> Seq<char>
    decreases crossings.len(),
{
    if crossings.len() == 0 {
        Seq::<char>::empty()
    } else if crossings.len() == 1 {
        generator_text(crossings[0])
    } else {
        word_text(crossings.drop_last()) + " "@ + generator_text(crossings.last())
    }
}

/// The matrix of the generator of `crossing` on `n` strands: the identity
/// with the diagonal zeroed at the two crossing strands and `+1` (over) or
/// `-1` (under) in the two places that exchange them.
pub open spec fn generator_matrix(n: nat, crossing: BraidCrossing) -> Seq<Seq<int>> {
    let i = crossing.strand as int;
    let s = if crossing.is_over { 1int } else { -1int };
    Seq::new(
        n,
        |r: int|
            Seq::new(
                n,
                |c: int|
                    if (r == i && c == i + 1) || (r == i + 1 && c == i) {
                        s
                    } else if r == i || r == i + 1 {
                        0int
                    } else if r == c {
                        1int
                    } else {
                        0int
                    },
            ),
    )
}

/// The product of the generator of `crossing` with `m`, the generator on
/// the left: the two rows at the crossing strands change places, negated
/// for an under-crossing.
pub open spec fn generator_applied(m: Seq<Seq<int>>, crossing: BraidCrossing) -> Seq<Seq<int>> {
    let i = crossing.strand as int;
    m.update(i, signed(m[i + 1], !crossing.is_over)).update(
        i + 1,
        signed(m[i], !crossing.is_over),
    )
}

/// The matrix of a braid on `n` strands: the identity, multiplied on the
/// left by the generator of each crossing in turn, so that the last
/// crossing stands outermost.
pub open spec fn braid_matrix(n: nat, crossings: Seq<BraidCrossing>) -> Seq<Seq<int>>
    decreases crossings.len(),
{
    if crossings.len() == 0 {
        identity_matrix(n)
    } else {
        matrix_product(
            generator_matrix(n, crossings.last()),
            braid_matrix(n, crossings.drop_last()),
        )
    }
}

/// Exchanging and signing the two rows is multiplying by the generator
/// from the left.
pub proof fn lemma_generator_product(n: nat, m: Seq<Seq<int>>, crossing: BraidCrossing)
    requires
        m.len() == n,
        is_square(m),
        crossing.strand + 1 < n,
    ensures
        matrix_product(generator_matrix(n, crossing), m) == generator_applied(m, crossing),
{
    let g = generator_matrix(n, crossing);
    let product = matrix_product(g, m);
    let swapped = generator_applied(m, crossing);
    let i = crossing.strand as int;
    assert(m[i].len() == n);
    assert(m[i + 1].len() == n);
    assert(product.len() == swapped.len());
    assert forall|r: int| 0 <= r < n implies #[trigger] product[r] =~= swapped[r] by {
        assert(m[r].len() == n);
        assert forall|c: int| 0 <= c < n implies product[r][c] == swapped[r][c] by {
            let p = if r == i {
                i + 1
            } else if r == i + 1 {
                i
            } else {
                r
            };
            lemma_dot_single(g[r], m, c, n, p);
            assert(product[r][c] == g[r][p] * m[p][c]);
            if g[r][p] == 1 {
                assert(g[r][p] * m[p][c] == m[p][c]) by (nonlinear_arith)
                    requires
                        g[r][p] == 1,
                ;
            } else {
                assert(g[r][p] * m[p][c] == -m[p][c]) by (nonlinear_arith)
                    requires
                        g[r][p] == -1,
                ;
            }
        }
    }
    assert(product =~= swapped);
}

/// The matrix of a braid is square, of the size of the strand count, and
/// holds only `-1`, `0` and `1`. Each crossing exchanges two rows of the
/// matrix of the crossings before it, negated for an under-crossing.
pub proof fn lemma_braid_matrix_shape(n: nat, crossings: Seq<BraidCrossing>)
    requires
        crossings_in_range(n, crossings),
    ensures
        braid_matrix(n, crossings).len() == n,
        is_square(braid_matrix(n, crossings)),
        entries_within(braid_matrix(n, crossings), 1),
        crossings.len() > 0 ==> braid_matrix(n, crossings) == generator_applied(
            braid_matrix(n, crossings.drop_last()),
            crossings.last(),
        ),
    decreases crossings.len(),
{
    if crossings.len() > 0 {
        let before = braid_matrix(n, crossings.drop_last());
        let last = crossings.last();
        assert forall|i: int| 0 <= i < crossings.drop_last().len() implies (
        #[trigger] crossings.drop_last()[i]).strand + 1 < n by {
            assert(crossings.drop_last()[i] == crossings[i]);
        }
        lemma_braid_matrix_shape(n, crossings.drop_last());
        lemma_generator_product(n, before, last);
        let after = generator_applied(before, last);
        let i = last.strand as int;
        assert(before[i].len() == n);
        assert(before[i + 1].len() == n);
        assert forall|r: int| 0 <= r < after.len() implies (#[trigger] after[r]).len()
            == after.len() by {
            if r != i && r != i + 1 {
                assert(after[r] == before[r]);
            }
        }
        assert forall|r: int, c: int| 0 <= r < after.len() && 0 <= c < after[r].len() implies -1
            <= #[trigger] after[r][c] <= 1 by {
            if r == i + 1 {
                assert(-1 <= before[i][c] <= 1);
            } else if r == i {
                assert(-1 <= before[i + 1][c] <= 1);
            } else {
                assert(after[r] == before[r]);
                assert(-1 <= before[r][c] <= 1);
            }
        }
    }
}

/// The permutation of a braid: the column in which each row of its
/// matrix holds its entry. Each crossing exchanges two neighbours.
pub open spec fn braid_permutation(n: nat, crossings: Seq<BraidCrossing>) -> Seq<int>
    decreases crossings.len(),
{
    if crossings.len() == 0 {
        Seq::new(n, |r: int| r)
    } else {
        let before = braid_permutation(n, crossings.drop_last());
        let i = crossings.last().strand as int;
        before.update(i, before[i + 1]).update(i + 1, before[i])
    }
}

/// The matrix of a braid is a signed permutation matrix.
pub proof fn lemma_braid_matrix_signed_permutation(n: nat, crossings: Seq<BraidCrossing>)
    requires
        crossings_in_range(n, crossings),
    ensures
        is_signed_permutation(braid_matrix(n, crossings), braid_permutation(n, crossings)),
    decreases crossings.len(),
{
    let m = braid_matrix(n, crossings);
    let columns = braid_permutation(n, crossings);
    lemma_braid_matrix_shape(n, crossings);
    if crossings.len() == 0 {
        assert forall|r: int| 0 <= r < m.len() implies is_signed_unit(
            #[trigger] m[r],
            columns[r],
        ) by {}
    } else {
        let init = crossings.drop_last();
        assert forall|k: int| 0 <= k < init.len() implies (#[trigger] init[k]).strand + 1 < n by {
            assert(init[k] == crossings[k]);
        }
        lemma_braid_matrix_signed_permutation(n, init);
        lemma_braid_matrix_shape(n, init);
        assert(m == generator_applied(braid_matrix(n, init), crossings.last()));
        let before = braid_matrix(n, init);
        let old_columns = braid_permutation(n, init);
        let i = crossings.last().strand as int;
        let negate = !crossings.last().is_over;
        assert(is_signed_unit(before[i], old_columns[i]));
        assert(is_signed_unit(before[i + 1], old_columns[i + 1]));
        assert forall|r: int| 0 <= r < m.len() implies is_signed_unit(
            #[trigger] m[r],
            columns[r],
        ) by {
            if r == i {
                assert(m[r] == signed(before[i + 1], negate));
            } else if r == i + 1 {
                assert(m[r] == signed(before[i], negate));
            } else {
                assert(m[r] == before[r]);
                assert(is_signed_unit(before[r], old_columns[r]));
            }
        }
        assert forall|r: int, q: int| 0 <= r < q < m.len() implies columns[r] != columns[q] by {
            let source = |x: int|
                if x == i {
                    i + 1
                } else if x == i + 1 {
                    i
                } else {
                    x
                };
            assert(columns[r] == old_columns[source(r)]);
            assert(columns[q] == old_columns[source(q)]);
            if source(r) < source(q) {
                assert(old_columns[source(r)] != old_columns[source(q)]);
            } else {
                assert(old_columns[source(q)] != old_columns[source(r)]);
            }
        }
    }
}

impl Braid {
    /// The number of strands, as a natural number.
    pub closed spec fn strand_count(&self) -> nat {
        self.number_of_strands as nat
    }

    /// Every crossing lies between two strands of the braid, and the
    /// braid holds at most `MAX_CROSSINGS` of them.
    pub open spec fn wf(&self) -> bool {
        &&& self@.len() <= MAX_CROSSINGS
        &&& crossings_in_range(self.strand_count(), self@)
    }

    /// A braid on `number_of_strands` strands without crossings.
    pub fn new(number_of_strands: usize) -> (braid: Braid)
        ensures
            braid.wf(),
            braid.strand_count() == number_of_strands,
            braid@ == Seq::<BraidCrossing>::empty(),
    {
        Braid { number_of_strands, crossings: Vec::new() }
    }

    /// Appends the crossing of strand `strand` with its right neighbour.
    ///
    /// The crossing is refused as out of range exactly when the strand has
    /// no right neighbour, that is when `strand >= strands - 1`; a crossing
    /// in range is refused only by a braid that is full. A refused
    /// crossing leaves the braid as it was.
    pub fn add_crossing(&mut self, strand: usize, is_over: bool) -> (result: Result<
        (),
        ValidationError,
    >)
        requires
            old(self).wf(),
        ensures
            final(self).wf(),
            final(self).strand_count() == old(self).strand_count(),
            result matches Err(ValidationError::StrandOutOfRange { .. }) <==> strand >= old(
                self,
            ).strand_count() - 1,
            old(self)@.len() < MAX_CROSSINGS ==> (result.is_err() <==> strand >= old(
                self,
            ).strand_count() - 1),
            strand + 1 >= old(self).strand_count() ==> result == Err::<(), ValidationError>(
                ValidationError::StrandOutOfRange {
                    strand,
                    strands: old(self).strand_count() as usize,
                },
            ),
            strand + 1 < old(self).strand_count() && old(self)@.len() == MAX_CROSSINGS ==> result
                == Err::<(), ValidationError>(ValidationError::TooManyCrossings),
            strand + 1 < old(self).strand_count() && old(self)@.len() < MAX_CROSSINGS
                ==> result.is_ok(),
            result.is_ok() ==> final(self)@ == old(self)@.push(BraidCrossing { strand, is_over }),
            result.is_err() ==> final(self)@ == old(self)@,
    {
        if self.number_of_strands == 0 || strand >= self.number_of_strands - 1 {
            return Err(
                ValidationError::StrandOutOfRange { strand, strands: self.number_of_strands },
            );
        }
        if self.crossings.len() >= MAX_CROSSINGS {
            return Err(ValidationError::TooManyCrossings);
        }
        self.crossings.push(BraidCrossing { strand, is_over });
        Ok(())
    }

    /// The number of strands.
    pub fn strands(&self) -> (n: usize)
        ensures
            n == self.strand_count(),
    {
        self.number_of_strands
    }

    /// The crossings, first applied first.
    pub fn get_crossings(&self) -> (crossings: &[BraidCrossing])
        ensures
            crossings@ == self@,
    {
        self.crossings.as_slice()
    }

    /// The matrix of the generator of the crossing of strand `i` with its
    /// right neighbour.
    fn generator_matrix(&self, i: usize, is_over: bool) -> (g: DenseMatrix)
        requires
            i + 1 < self.strand_count(),
            can_hold_square(self.strand_count() as int),
        ensures
            dense_entries(g) == generator_matrix(
                self.strand_count(),
                BraidCrossing { strand: i, is_over },
            ),
    {
        let n = self.number_of_strands;
        let mut g = dense_identity(n);
        let s: i64 = if is_over { 1 } else { -1 };
        dense_set(&mut g, i, i, 0);
        dense_set(&mut g, i, i + 1, s);
        dense_set(&mut g, i + 1, i, s);
        dense_set(&mut g, i + 1, i + 1, 0);
        assert(dense_entries(g) =~~= generator_matrix(
            n as nat,
            BraidCrossing { strand: i, is_over },
        ));
        g
    }

    /// The matrix of the braid: a signed permutation matrix of the size of
    /// the strand count, which an allocation must be able to hold.
    pub fn to_matrix(&self) -> (m: IntMatrix)
        requires
            self.wf(),
            can_hold_square(self.strand_count() as int),
        ensures
            m.wf(),
            m@ == braid_matrix(self.strand_count(), self@),
    {
        let n = self.number_of_strands;
        let mut matrix = dense_identity(n);
        let mut k: usize = 0;
        while k < self.crossings.len()
            invariant
                k <= self.crossings@.len(),
                self.wf(),
                n == self.strand_count(),
                can_hold_square(n as int),
                dense_entries(matrix) == braid_matrix(n as nat, self@.take(k as int)),
            decreases self.crossings@.len() - k,
        {
            let crossing = self.crossings[k];
            proof {
                assert(self@[k as int].strand + 1 < n);
                assert forall|j: int| 0 <= j < self@.take(k as int).len() implies (
                #[trigger] self@.take(k as int)[j]).strand + 1 < n by {
                    assert(self@.take(k as int)[j] == self@[j]);
                }
                lemma_braid_matrix_shape(n as nat, self@.take(k as int));
                assert(self@.take(k + 1).drop_last() =~= self@.take(k as int));
                assert(self@.take(k + 1).last() == crossing);
            }
            let generator = self.generator_matrix(crossing.strand, crossing.is_over);
            matrix = dense_product(&generator, &matrix);
            k += 1;
        }
        proof {
            assert(self@.take(k as int) =~= self@);
            lemma_braid_matrix_shape(n as nat, self@);
        }
        dense_rows(&matrix, n)
    }

    /// The braid together with its crossing count. No closure geometry is
    /// computed.
    pub fn close_to_knot(&self) -> (knot: Knot)
        requires
            self.wf(),
        ensures
            knot.braid.wf(),
            knot.braid@ == self@,
            knot.braid.strand_count() == self.strand_count(),
            knot.crossing_number == self@.len(),
    {
        Knot { braid: self.clone(), crossing_number: self.crossings.len() }
    }

    /// The braid word in generator notation, such as "σ1 σ2⁻¹ σ1".
    pub fn braid_word(&self) -> (word: String)
        requires
            self.wf(),
        ensures
            word@ == word_text(self@),
    {
        let mut word = String::new();
        let mut k: usize = 0;
        while k < self.crossings.len()
            invariant
                k <= self.crossings@.len(),
                self.wf(),
                word@ == word_text(self@.take(k as int)),
            decreases self.crossings@.len() - k,
        {
            let crossing = self.crossings[k];
            let ghost prefix = word@;
            if k > 0 {
                word.append(" ");
            }
            word.append("σ");
            assert(self@[k as int].strand + 1 < self.strand_count());
            push_decimal(&mut word, crossing.strand + 1);
            if !crossing.is_over {
                word.append("⁻¹");
            }
            proof {
                let now = self@.take(k + 1);
                assert(now.drop_last() =~= self@.take(k as int));
                assert(now.last() == crossing);
                if k == 0 {
                    assert(now[0] == crossing);
                    assert(prefix =~= Seq::<char>::empty());
                    assert(word@ =~= generator_text(crossing));
                } else {
                    assert(word@ =~= prefix + " "@ + generator_text(crossing));
                }
            }
            k += 1;
        }
        assert(self@.take(k as int) =~= self@);
        word
    }
}

impl Clone for Braid {
    fn clone(&self) -> (copy: Braid)
        ensures
            copy@ == self@,
            copy.strand_count() == self.strand_count(),
    {
        let mut crossings: Vec<BraidCrossing> = Vec::new();
        let mut k: usize = 0;
        while k < self.crossings.len()
            invariant
                k <= self.crossings@.len(),
                crossings@ == self.crossings@.take(k as int),
            decreases self.crossings@.len() - k,
        {
            crossings.push(self.crossings[k]);
            assert(crossings@ =~= self.crossings@.take(k + 1));
            k += 1;
        }
        assert(self.crossings@.take(k as int) =~= self.crossings@);
        Braid { number_of_strands: self.number_of_strands, crossings }
    }
}

/// A knot given as the closure of a braid.
#[derive(Debug, Clone)]
pub struct Knot {
    /// The braid whose closure the knot is.
    pub braid: Braid,
    /// The number of crossings of that braid.
    pub crossing_number: usize,
}

impl Knot {
    /// The closure of `braid`.
    pub fn from_braid(braid: Braid) -> (knot: Knot)
        ensures
            knot.braid == braid,
            knot.crossing_number == braid@.len(),
    {
        Knot { crossing_number: braid.get_crossings().len(), braid }
    }

    /// The number of crossings recorded with the knot.
    pub fn crossing_number(&self) -> (n: usize)
        ensures
            n == self.crossing_number,
    {
        self.crossing_number
    }
}

} // verus!
