//! Invariants of the knot that closes a braid.

use vstd::prelude::*;
use crate::bounds::lemma_product_within;
use crate::braid_group::{Braid, BraidCrossing, Knot, MAX_CROSSINGS};
use crate::dense::{can_hold_square, square_fits};
use crate::error::ValidationError;
use crate::polynomial::{blend_of, fits, value_at, values_fit, Fractions, Polynomial};
use crate::determinant::{band_matrix_determinant, determinant, leading_determinants_fit};
use crate::seifert::{
    estimated_rank, lemma_nonzero_rows_bound, lemma_seifert_entry_bound, lemma_seifert_is_band,
    lemma_seifert_signature, matrix_signature, nonzero_rows, seifert_matrix, seifert_of,
    seifert_size, signature_of,
};

verus! {

/// The sign of a crossing: `+1` over, `-1` under.
pub open spec fn crossing_sign(crossing: BraidCrossing) -> int {
    if crossing.is_over {
        1
    } else {
        -1
    }
}

/// The writhe: the sum of the signs of the crossings.
pub open spec fn writhe_of(crossings: Seq<BraidCrossing>) -> int
    decreases crossings.len(),
{
    if crossings.len() == 0 {
        0
    } else {
        writhe_of(crossings.drop_last()) + crossing_sign(crossings.last())
    }
}

/// The number of crossings of `crossings` that are over-crossings
/// (`over` set) or under-crossings (`over` clear).
pub open spec fn count_crossings(crossings: Seq<BraidCrossing>, over: bool) -> nat
    decreases crossings.len(),
{
    if crossings.len() == 0 {
        0
    } else {
        count_crossings(crossings.drop_last(), over) + if crossings.last().is_over == over {
            1nat
        } else {
            0nat
        }
    }
}

/// The writhe is the number of over-crossings less the number of
/// under-crossings, for every sequence of crossings.
pub proof fn lemma_writhe_counts(crossings: Seq<BraidCrossing>)
    ensures
        writhe_of(crossings) == count_crossings(crossings, true) - count_crossings(
            crossings,
            false,
        ),
        count_crossings(crossings, true) + count_crossings(crossings, false) == crossings.len(),
    decreases crossings.len(),
{
    if crossings.len() > 0 {
        lemma_writhe_counts(crossings.drop_last());
    }
}

/// The writhe of a braid.
pub fn calculate_writhe(braid: &Braid) -> (writhe: i32)
    requires
        braid.wf(),
    ensures
        writhe == writhe_of(braid@),
{
    let crossings = braid.get_crossings();
    let mut writhe: i32 = 0;
    let mut k: usize = 0;
    while k < crossings.len()
        invariant
            k <= crossings@.len(),
            crossings@ == braid@,
            crossings@.len() <= MAX_CROSSINGS,
            writhe == writhe_of(crossings@.take(k as int)),
            -(k as int) <= writhe <= k,
        decreases crossings@.len() - k,
    {
        proof {
            assert(crossings@.take(k + 1).drop_last() =~= crossings@.take(k as int));
            assert(crossings@.take(k + 1).last() == crossings@[k as int]);
        }
        if crossings[k].is_over {
            writhe += 1;
        } else {
            writhe -= 1;
        }
        k += 1;
    }
    assert(crossings@.take(k as int) =~= crossings@);
    writhe
}

/// The crossing number of a braid: the number of its crossings.
pub fn calculate_crossing_number(braid: &Braid) -> (n: usize)
    ensures
        n == braid@.len(),
{
    braid.get_crossings().len()
}

/// The index shift of the Jones approximation: the writhe where it is
/// positive, zero otherwise.
pub open spec fn jones_shift(crossings: Seq<BraidCrossing>) -> nat {
    if writhe_of(crossings) > 0 {
        writhe_of(crossings) as nat
    } else {
        0
    }
}

/// The coefficients of the Jones approximation before rescaling, in
/// tenths: one whole at the index of the shift, and one tenth, with the
/// sign of the crossing, at the shift plus the position of each crossing.
/// One more coefficient, zero, follows the last crossing.
pub open spec fn jones_tenths(crossings: Seq<BraidCrossing>) -> Seq<int> {
    let shift = jones_shift(crossings);
    Seq::new(
        (crossings.len() + shift + 1) as nat,
        |k: int|
            (if k == shift {
                10int
            } else {
                0int
            }) + (if shift <= k < shift + crossings.len() {
                crossing_sign(crossings[k - shift])
            } else {
                0int
            }),
    )
}

/// The magnitude of an integer.
pub open spec fn magnitude(x: int) -> int {
    if x < 0 {
        -x
    } else {
        x
    }
}

/// The largest magnitude among `values`; zero where there is none.
pub open spec fn largest_magnitude(values: Seq<int>) -> int
    decreases values.len(),
{
    if values.len() == 0 {
        0
    } else {
        let before = largest_magnitude(values.drop_last());
        if magnitude(values.last()) > before {
            magnitude(values.last())
        } else {
            before
        }
    }
}

/// The Jones approximation of a crossing sequence: the constant one for
/// no crossings; otherwise the coefficients of `jones_tenths`, divided by
/// the largest magnitude among them.
pub open spec fn jones_of(crossings: Seq<BraidCrossing>) -> Fractions {
    if crossings.len() == 0 {
        Fractions { numerators: seq![1int], denominator: 1 }
    } else {
        let tenths = jones_tenths(crossings);
        let largest = largest_magnitude(tenths);
        Fractions { numerators: tenths, denominator: if largest > 0 { largest } else { 10 } }
    }
}

/// The largest magnitude is at least that of every value.
proof fn lemma_largest_bounds(values: Seq<int>, i: int)
    requires
        0 <= i < values.len(),
    ensures
        magnitude(values[i]) <= largest_magnitude(values),
    decreases values.len(),
{
    if i < values.len() - 1 {
        lemma_largest_bounds(values.drop_last(), i);
    }
}

/// The largest magnitude of values that all stay within `bound` stays
/// within `bound`.
proof fn lemma_largest_within(values: Seq<int>, bound: int)
    requires
        bound >= 0,
        forall|i: int| 0 <= i < values.len() ==> magnitude(#[trigger] values[i]) <= bound,
    ensures
        largest_magnitude(values) <= bound,
    decreases values.len(),
{
    if values.len() > 0 {
        assert forall|i: int| 0 <= i < values.drop_last().len() implies magnitude(
            #[trigger] values.drop_last()[i],
        ) <= bound by {
            assert(values.drop_last()[i] == values[i]);
        }
        lemma_largest_within(values.drop_last(), bound);
        assert(magnitude(values[values.len() - 1]) <= bound);
    }
}

/// The Jones approximation of a braid with crossings is rescaled by
/// eleven tenths where the first crossing is an over-crossing and by nine
/// tenths where it is an under-crossing: its denominator is 11 or 9.
pub proof fn lemma_jones_scale(crossings: Seq<BraidCrossing>)
    requires
        crossings.len() > 0,
    ensures
        jones_of(crossings).denominator == 10 + crossing_sign(crossings[0]),
        jones_of(crossings).numerators[jones_shift(crossings) as int] == jones_of(
            crossings,
        ).denominator,
{
    let tenths = jones_tenths(crossings);
    let shift = jones_shift(crossings) as int;
    let top = 10 + crossing_sign(crossings[0]);
    assert(tenths[shift] == top);
    lemma_largest_bounds(tenths, shift);
    assert forall|i: int| 0 <= i < tenths.len() implies magnitude(#[trigger] tenths[i]) <= top by {
        if i != shift {
            assert(-1 <= tenths[i] <= 1);
        }
    }
    lemma_largest_within(tenths, top);
}

/// The approximate Jones polynomial of a braid.
pub fn calculate_jones_polynomial(braid: &Braid) -> (jones: Polynomial)
    requires
        braid.wf(),
    ensures
        jones.wf(),
        jones@ == jones_of(braid@),
{
    let crossings = braid.get_crossings();
    let n = crossings.len();
    if n == 0 {
        let mut one: Vec<i32> = Vec::new();
        one.push(1);
        let jones = Polynomial::new(one);
        assert(jones@.numerators =~= seq![1int]);
        return jones;
    }
    let writhe = calculate_writhe(braid);
    proof {
        lemma_writhe_counts(braid@);
    }
    let shift: usize = if writhe > 0 { writhe as usize } else { 0 };
    let len: usize = n + shift + 1;
    let ghost tenths = jones_tenths(braid@);
    let mut numerators: Vec<i32> = Vec::new();
    let mut largest: i32 = 0;
    let mut k: usize = 0;
    while k < len
        invariant
            k <= len,
            len == n + shift + 1,
            n == braid@.len(),
            crossings@ == braid@,
            shift == jones_shift(braid@),
            tenths == jones_tenths(braid@),
            tenths.len() == len,
            numerators@.len() == k,
            forall|j: int| 0 <= j < k ==> #[trigger] numerators@[j] as int == tenths[j],
            largest == largest_magnitude(tenths.take(k as int)),
            0 <= largest <= 11,
        decreases len - k,
    {
        let base: i32 = if k == shift { 10 } else { 0 };
        let sign: i32 = if k >= shift && k - shift < n {
            if crossings[k - shift].is_over {
                1
            } else {
                -1
            }
        } else {
            0
        };
        let value: i32 = base + sign;
        assert(value == tenths[k as int]);
        let size: i32 = if value < 0 { -value } else { value };
        proof {
            assert(tenths.take(k + 1).drop_last() =~= tenths.take(k as int));
            assert(tenths.take(k + 1).last() == tenths[k as int]);
        }
        if size > largest {
            largest = size;
        }
        numerators.push(value);
        k += 1;
    }
    assert(tenths.take(k as int) =~= tenths);
    let denominator: i32 = if largest > 0 { largest } else { 10 };
    let jones = Polynomial::with_denominator(numerators, denominator).unwrap();
    assert(jones@.numerators =~= tenths);
    jones
}

/// The binomial coefficient: the number of ways to choose `k` of `n`.
pub open spec fn binomial(n: nat, k: nat) -> nat
    decreases n,
{
    if k == 0 {
        1
    } else if n == 0 {
        0
    } else {
        binomial((n - 1) as nat, (k - 1) as nat) + binomial((n - 1) as nat, k)
    }
}

/// No way to choose more than there are.
pub proof fn lemma_binomial_beyond(n: nat, k: nat)
    requires
        k > n,
    ensures
        binomial(n, k) == 0,
    decreases n,
{
    if n > 0 {
        lemma_binomial_beyond((n - 1) as nat, (k - 1) as nat);
        lemma_binomial_beyond((n - 1) as nat, k);
    }
}

/// One way to choose all.
pub proof fn lemma_binomial_all(n: nat)
    ensures
        binomial(n, n) == 1,
    decreases n,
{
    if n > 0 {
        lemma_binomial_all((n - 1) as nat);
        lemma_binomial_beyond((n - 1) as nat, n);
    }
}

/// Choosing `k` is choosing the `n - k` to leave.
pub proof fn lemma_binomial_symmetric(n: nat, k: nat)
    requires
        k <= n,
    ensures
        binomial(n, k) == binomial(n, (n - k) as nat),
    decreases n,
{
    if k == 0 {
        lemma_binomial_all(n);
    } else if k == n {
        lemma_binomial_all(n);
    } else {
        lemma_binomial_symmetric((n - 1) as nat, (k - 1) as nat);
        lemma_binomial_symmetric((n - 1) as nat, k);
    }
}

/// The step from one coefficient of a row to the next:
/// `(k + 1) * C(n, k + 1) == (n - k) * C(n, k)`.
pub proof fn lemma_binomial_step(n: nat, k: nat)
    requires
        k <= n,
    ensures
        (k + 1) * binomial(n, k + 1) == (n - k) * binomial(n, k),
    decreases n,
{
    let lhs = binomial(n, k + 1);
    let rhs = binomial(n, k);
    if k == n {
        lemma_binomial_beyond(n, k + 1);
        assert((k + 1) * lhs == (n - k) * rhs) by (nonlinear_arith)
            requires
                lhs == 0,
                n - k == 0,
        ;
    } else if k == 0 {
        lemma_binomial_step((n - 1) as nat, 0);
        let below = binomial((n - 1) as nat, 1);
        assert(binomial((n - 1) as nat, 0) == 1);
        assert(lhs == 1 + below);
        assert(rhs == 1);
        assert((k + 1) * lhs == (n - k) * rhs) by (nonlinear_arith)
            requires
                k == 0,
                lhs == 1 + below,
                rhs == 1,
                (0 + 1) * below == ((n - 1) - 0) * 1,
        ;
    } else {
        let m = (n - 1) as nat;
        lemma_binomial_step(m, k);
        lemma_binomial_step(m, (k - 1) as nat);
        let x = binomial(m, (k - 1) as nat);
        let y = binomial(m, k);
        let z = binomial(m, k + 1);
        assert(binomial(n, k + 1) == y + z);
        assert(binomial(n, k) == x + y);
        assert((k + 1) * z == (m - k) * y);
        assert(k * y == (m - (k - 1)) * x);
        assert((k + 1) * (y + z) == (n - k) * (x + y)) by (nonlinear_arith)
            requires
                (k + 1) * z == (m - k) * y,
                k * y == (m - (k - 1)) * x,
                m == n - 1,
        ;
    }
}

/// Up to the middle of a row the coefficients do not fall.
pub proof fn lemma_binomial_rises(n: nat, i: nat, k: nat)
    requires
        i <= k,
        2 * k <= n,
    ensures
        binomial(n, i) <= binomial(n, k),
    decreases k - i,
{
    if i < k {
        lemma_binomial_rises(n, i + 1, k);
        lemma_binomial_step(n, i);
        let a = binomial(n, i);
        let b = binomial(n, i + 1);
        assert(a <= b) by (nonlinear_arith)
            requires
                (i + 1) * b == (n - i) * a,
                n - i >= i + 1,
                a >= 0,
                b >= 0,
        ;
    }
}

/// The binomial coefficient `C(n, k)`, or `None` where it does not fit.
pub fn checked_binomial_coefficient(n: usize, k: usize) -> (result: Option<usize>)
    ensures
        result == if binomial(n as nat, k as nat) <= usize::MAX {
            Some(binomial(n as nat, k as nat) as usize)
        } else {
            None::<usize>
        },
{
    if k > n {
        proof {
            lemma_binomial_beyond(n as nat, k as nat);
        }
        return Some(0);
    }
    proof {
        lemma_binomial_symmetric(n as nat, k as nat);
    }
    let m: usize = if k <= n - k { k } else { n - k };
    let mut result: u128 = 1;
    let mut i: usize = 0;
    while i < m
        invariant
            i <= m,
            2 * m <= n,
            binomial(n as nat, m as nat) == binomial(n as nat, k as nat),
            result == binomial(n as nat, i as nat),
            result <= usize::MAX,
        decreases m - i,
    {
        proof {
            lemma_binomial_step(n as nat, i as nat);
            assert(result * (n - i) <= 18446744073709551615 * 18446744073709551615)
                by (nonlinear_arith)
                requires
                    0 <= result <= 18446744073709551615,
                    0 <= n - i <= 18446744073709551615,
            ;
        }
        let product: u128 = result * ((n - i) as u128);
        let next: u128 = product / ((i + 1) as u128);
        proof {
            let c = binomial(n as nat, (i + 1) as nat);
            assert(product == (i + 1) * c);
            assert(next == c) by (nonlinear_arith)
                requires
                    next == product / ((i + 1) as u128),
                    product == (i + 1) * c,
                    i + 1 > 0,
            ;
        }
        if next > usize::MAX as u128 {
            proof {
                lemma_binomial_rises(n as nat, (i + 1) as nat, m as nat);
            }
            return None;
        }
        result = next;
        i += 1;
    }
    Some(result as usize)
}

/// The binomial coefficient `C(n, k)`, for a coefficient that fits.
pub fn binomial_coefficient(n: usize, k: usize) -> (c: usize)
    requires
        binomial(n as nat, k as nat) <= usize::MAX,
    ensures
        c == binomial(n as nat, k as nat),
{
    match checked_binomial_coefficient(n, k) {
        Some(c) => c,
        None => 0,
    }
}

/// The coefficient of degree `i` of `det * (1 - t)^k`.
pub open spec fn expansion_coefficient(det: int, k: nat, i: nat) -> int {
    if i % 2 == 0 {
        det * binomial(k, i)
    } else {
        -(det * binomial(k, i))
    }
}

/// The coefficients of the Alexander approximation of a crossing
/// sequence on `strands` strands: the constant one for no crossings;
/// `v - v t` for a Seifert matrix of the single entry `v`; otherwise
/// `det * (1 - t)^k`, where `det` is the determinant of the Seifert
/// matrix and `k` the number of its rows that are not zero.
pub open spec fn alexander_numerators(strands: nat, crossings: Seq<BraidCrossing>) -> Seq<int> {
    if crossings.len() == 0 {
        seq![1int]
    } else {
        let size = seifert_size(strands);
        let v = seifert_of(size, crossings);
        if size == 1 {
            seq![v[0][0], -v[0][0]]
        } else {
            let k = nonzero_rows(v, size);
            Seq::new(
                (k + 1) as nat,
                |i: int| expansion_coefficient(determinant(v), k, i as nat),
            )
        }
    }
}

/// The Alexander approximation: integer coefficients.
pub open spec fn alexander_of(strands: nat, crossings: Seq<BraidCrossing>) -> Fractions {
    Fractions { numerators: alexander_numerators(strands, crossings), denominator: 1 }
}

/// The Alexander approximation can be computed and held: an allocation
/// can hold the Seifert matrix, the determinants of its leading blocks
/// fit 64 bits, and the coefficients fit a polynomial.
pub open spec fn alexander_fits(strands: nat, crossings: Seq<BraidCrossing>) -> bool {
    let size = seifert_size(strands);
    crossings.len() == 0 || (can_hold_square(size as int) && (size == 1 || (
    leading_determinants_fit(seifert_of(size, crossings), size) && fits(
        alexander_of(strands, crossings),
    ))))
}

/// The failure of computing the invariants of a crossing sequence that
/// does not fit: `MatrixTooLarge` where no allocation can hold the
/// Seifert matrix, `CoefficientOverflow` otherwise.
pub open spec fn overflow_of(strands: nat, crossings: Seq<BraidCrossing>) -> ValidationError {
    if crossings.len() > 0 && !can_hold_square(seifert_size(strands) as int) {
        ValidationError::MatrixTooLarge
    } else {
        ValidationError::CoefficientOverflow
    }
}

proof fn lemma_multiple_exceeds(det: int, c: int, limit: int)
    requires
        det != 0,
        c > limit,
        limit >= 0,
    ensures
        det * c > limit || det * c < -limit,
{
    if det > 0 {
        assert(det * c >= c) by (nonlinear_arith)
            requires
                det >= 1,
                c >= 0,
        ;
    } else {
        assert(det * c <= -c) by (nonlinear_arith)
            requires
                det <= -1,
                c >= 0,
        ;
    }
}

/// The approximate Alexander polynomial of a braid, or the failure that
/// says why it cannot be computed and held.
pub fn calculate_alexander_polynomial(braid: &Braid) -> (result: Result<
    Polynomial,
    ValidationError,
>)
    requires
        braid.wf(),
    ensures
        result.is_ok() <==> alexander_fits(braid.strand_count(), braid@),
        result matches Ok(p) ==> p.wf() && p@ == alexander_of(braid.strand_count(), braid@),
        result matches Err(e) ==> e == overflow_of(braid.strand_count(), braid@),
{
    let n = braid.get_crossings().len();
    let strands = braid.strands();
    let ghost goal = alexander_numerators(strands as nat, braid@);
    if n == 0 {
        let mut one: Vec<i32> = Vec::new();
        one.push(1);
        let p = Polynomial::new(one);
        assert(p@.numerators =~= goal);
        return Ok(p);
    }
    if !square_fits(if strands >= 2 { strands - 1 } else { 1 }) {
        return Err(ValidationError::MatrixTooLarge);
    }
    let m = seifert_matrix(braid);
    let size = m.size();
    let ghost v = m@;
    proof {
        assert forall|r: int, c: int| 0 <= r < v.len() && 0 <= c < v[r].len() implies -2147483648
            <= #[trigger] v[r][c] <= 2147483648 by {
            lemma_seifert_entry_bound(size as nat, braid@, r, c);
        }
    }
    if size == 1 {
        assert(v[0].len() == 1);
        let entry = m.get(0, 0);
        let mut pair: Vec<i32> = Vec::new();
        proof {
            lemma_seifert_entry_bound(size as nat, braid@, 0, 0);
        }
        pair.push(entry as i32);
        pair.push(-(entry as i32));
        let p = Polynomial::new(pair);
        assert(p@.numerators =~= goal);
        return Ok(p);
    }
    proof {
        lemma_seifert_is_band(size as nat, braid@);
    }
    let det: i64 = match band_matrix_determinant(&m) {
        Some(det) => det,
        None => {
            return Err(ValidationError::CoefficientOverflow);
        },
    };
    let k = estimated_rank(&m);
    proof {
        lemma_nonzero_rows_bound(v, size as nat);
    }
    let mut numerators: Vec<i32> = Vec::new();
    let mut i: usize = 0;
    while i < k + 1
        invariant
            i <= k + 1,
            k < usize::MAX,
            braid@.len() > 0,
            size == seifert_size(strands as nat),
            can_hold_square(size as int),
            size != 1,
            v == seifert_of(size as nat, braid@),
            leading_determinants_fit(v, size as nat),
            goal == alexander_of(strands as nat, braid@).numerators,
            strands == braid.strand_count(),
            k == nonzero_rows(v, size as nat),
            det == determinant(v),
            goal.len() == k + 1,
            forall|j: int| 0 <= j < goal.len() ==> #[trigger] goal[j] == expansion_coefficient(
                det as int,
                k as nat,
                j as nat,
            ),
            numerators@.len() == i,
            forall|j: int| 0 <= j < i ==> #[trigger] numerators@[j] as int == goal[j],
        decreases k + 1 - i,
    {
        let ghost exact = binomial(k as nat, i as nat);
        let value: i128 = if det == 0 {
            assert(det * exact == 0) by (nonlinear_arith)
                requires
                    det == 0,
            ;
            0
        } else {
            match checked_binomial_coefficient(k, i) {
                None => {
                    proof {
                        lemma_multiple_exceeds(det as int, exact as int, 2147483648);
                        assert(!(i32::MIN <= goal[i as int] <= i32::MAX));
                    }
                    return Err(ValidationError::CoefficientOverflow);
                },
                Some(c) => {
                    if c > 2147483648 {
                        proof {
                            lemma_multiple_exceeds(det as int, exact as int, 2147483648);
                            assert(!(i32::MIN <= goal[i as int] <= i32::MAX));
                        }
                        return Err(ValidationError::CoefficientOverflow);
                    }
                    proof {
                        lemma_product_within(det as int, c as int, 9223372036854775808, 2147483648);
                    }
                    let product: i128 = (det as i128) * (c as i128);
                    if i % 2 == 0 {
                        product
                    } else {
                        -product
                    }
                },
            }
        };
        assert(value == goal[i as int]);
        if value > 2147483647 || value < -2147483648 {
            return Err(ValidationError::CoefficientOverflow);
        }
        numerators.push(value as i32);
        i += 1;
    }
    let p = Polynomial::new(numerators);
    assert(p@.numerators =~= goal);
    Ok(p)
}

/// `|value| / denominator`, rounded to the nearest integer, halves up.
pub open spec fn rounded_magnitude(value: int, denominator: int) -> int {
    (2 * magnitude(value) + denominator) / (2 * denominator)
}

/// The determinant of a knot: the magnitude of its Alexander polynomial
/// at `-1`, rounded.
pub open spec fn determinant_of(alexander: Fractions) -> int {
    rounded_magnitude(value_at(alexander.numerators, -1), alexander.denominator)
}

/// The bound on the unknotting number: the larger of half the sum of the
/// magnitudes of signature and writhe and half the magnitude of the
/// signature, both rounded down, and at most the number of crossings.
pub open spec fn unknotting_bound(signature: int, writhe: int, crossings: int) -> int {
    let joint = (magnitude(signature) + magnitude(writhe)) / 2;
    let alone = magnitude(signature) / 2;
    let larger = if joint >= alone { joint } else { alone };
    if larger <= crossings {
        larger
    } else {
        crossings
    }
}

/// The estimate of the bridge number: the strand count, and at most the
/// number of crossings, counted as one where there is none.
pub open spec fn bridge_number_of(strands: int, crossings: int) -> int {
    let floor = if crossings >= 1 { crossings } else { 1 };
    if strands <= floor {
        strands
    } else {
        floor
    }
}

/// The Arf invariant: the parity of signature plus determinant.
pub open spec fn arf_of(signature: int, determinant: int) -> int {
    (signature + determinant) % 2
}

/// The estimate of the hyperbolic volume: twice the number of crossings
/// from four crossings on, undefined below.
pub open spec fn volume_of(crossings: int) -> Option<int> {
    if crossings >= 4 {
        Some(2 * crossings)
    } else {
        None
    }
}

/// The determinant of the knot whose Alexander polynomial is
/// `alexander`, or `None` where its value at `-1` cannot be computed.
pub fn knot_determinant(alexander: &Polynomial) -> (result: Option<u64>)
    requires
        alexander.wf(),
    ensures
        result.is_some() <==> values_fit(alexander@.numerators, -1),
        result matches Some(d) ==> d == determinant_of(alexander@),
{
    match alexander.evaluate(-1) {
        None => None,
        Some(value) => {
            let size: u128 = if value < 0 { (-(value as i128)) as u128 } else { value as u128 };
            let d: u128 = alexander.denominator() as u128;
            let rounded: u128 = (2 * size + d) / (2 * d);
            assert(rounded <= 9223372036854775809) by (nonlinear_arith)
                requires
                    rounded == (2 * size + d) / (2 * d),
                    size <= 9223372036854775808,
                    1 <= d,
            ;
            Some(rounded as u64)
        },
    }
}

/// The bound on the unknotting number.
pub fn unknotting_number_bound(signature: i32, writhe: i32, crossings: usize) -> (bound: usize)
    ensures
        bound == unknotting_bound(signature as int, writhe as int, crossings as int),
{
    let s: u64 = if signature < 0 { (-(signature as i64)) as u64 } else { signature as u64 };
    let w: u64 = if writhe < 0 { (-(writhe as i64)) as u64 } else { writhe as u64 };
    let joint: u64 = (s + w) / 2;
    let alone: u64 = s / 2;
    let larger: u64 = if joint >= alone { joint } else { alone };
    if larger <= crossings as u64 {
        larger as usize
    } else {
        crossings
    }
}

/// The estimate of the bridge number.
pub fn bridge_number(strands: usize, crossings: usize) -> (bridges: usize)
    ensures
        bridges == bridge_number_of(strands as int, crossings as int),
{
    let floor: usize = if crossings >= 1 { crossings } else { 1 };
    if strands <= floor {
        strands
    } else {
        floor
    }
}

/// The Arf invariant, zero or one.
pub fn arf_invariant(signature: i32, determinant: u64) -> (arf: u8)
    ensures
        arf == arf_of(signature as int, determinant as int),
{
    let sum: i128 = signature as i128 + determinant as i128;
    let parity: i128 = sum % 2;
    if parity == 0 {
        0
    } else {
        1
    }
}

/// The estimate of the hyperbolic volume.
pub fn hyperbolic_volume(crossings: usize) -> (volume: Option<u64>)
    requires
        crossings <= MAX_CROSSINGS,
    ensures
        volume matches Some(v) ==> volume_of(crossings as int) == Some(v as int),
        volume is None ==> volume_of(crossings as int) is None,
{
    if crossings >= 4 {
        Some(2 * (crossings as u64))
    } else {
        None
    }
}

/// The invariants derived from one braid.
#[derive(Debug, Clone)]
pub struct KnotInvariants {
    /// The approximate Jones polynomial.
    pub jones_polynomial: Polynomial,
    /// The approximate Alexander polynomial.
    pub alexander_polynomial: Polynomial,
    /// The number of crossings.
    pub crossing_number: usize,
    /// The sum of the crossing signs.
    pub writhe: i32,
    /// The signature of the Seifert matrix.
    pub signature: i32,
    /// The bound on the unknotting number.
    pub unknotting_number: Option<usize>,
    /// The estimate of the bridge number.
    pub bridge_number: Option<usize>,
    /// The braid index: the strand count.
    pub braid_index: Option<usize>,
    /// The determinant of the knot.
    pub determinant: Option<u64>,
    /// The Arf invariant, zero or one.
    pub arf_invariant: Option<u8>,
    /// The estimate of the hyperbolic volume.
    pub hyperbolic_volume: Option<u64>,
    /// The blend that stands for the HOMFLY polynomial.
    pub homfly_polynomial: Option<Polynomial>,
}

/// All invariants of a crossing sequence can be computed and held.
pub open spec fn invariants_fit(strands: nat, crossings: Seq<BraidCrossing>) -> bool {
    &&& alexander_fits(strands, crossings)
    &&& values_fit(alexander_numerators(strands, crossings), -1)
    &&& crossings.len() < 10 ==> fits(
        blend_of(jones_of(crossings), alexander_of(strands, crossings), 3, 2, 5),
    )
}

impl KnotInvariants {
    /// Both polynomials, and the blend where there is one, are well
    /// formed.
    pub open spec fn wf(&self) -> bool {
        &&& self.jones_polynomial.wf()
        &&& self.alexander_polynomial.wf()
        &&& self.homfly_polynomial matches Some(h) ==> h.wf()
    }

    /// These are the invariants of the crossing sequence `crossings` on
    /// `strands` strands.
    pub open spec fn describes(&self, strands: nat, crossings: Seq<BraidCrossing>) -> bool {
        let signature = signature_of(seifert_of(seifert_size(strands), crossings));
        let determinant = determinant_of(alexander_of(strands, crossings));
        &&& self.jones_polynomial@ == jones_of(crossings)
        &&& self.alexander_polynomial@ == alexander_of(strands, crossings)
        &&& self.crossing_number == crossings.len()
        &&& self.writhe == writhe_of(crossings)
        &&& self.signature == signature
        &&& self.unknotting_number matches Some(u) && u == unknotting_bound(
            signature,
            writhe_of(crossings),
            crossings.len() as int,
        )
        &&& self.bridge_number matches Some(b) && b == bridge_number_of(
            strands as int,
            crossings.len() as int,
        )
        &&& self.braid_index matches Some(i) && i == strands
        &&& self.determinant matches Some(d) && d == determinant
        &&& self.arf_invariant matches Some(a) && a == arf_of(signature, determinant)
        &&& match self.hyperbolic_volume {
            Some(v) => volume_of(crossings.len() as int) == Some(v as int),
            None => volume_of(crossings.len() as int) is None,
        }
        &&& match self.homfly_polynomial {
            Some(h) => crossings.len() < 10 && h@ == blend_of(
                jones_of(crossings),
                alexander_of(strands, crossings),
                3,
                2,
                5,
            ),
            None => crossings.len() >= 10,
        }
    }

    /// A record of the two polynomials, the crossing number and the
    /// writhe; the signature is zero and every other invariant undefined.
    pub fn new(
        jones_polynomial: Polynomial,
        alexander_polynomial: Polynomial,
        crossing_number: usize,
        writhe: i32,
    ) -> (invariants: KnotInvariants)
        ensures
            invariants.jones_polynomial == jones_polynomial,
            invariants.alexander_polynomial == alexander_polynomial,
            invariants.crossing_number == crossing_number,
            invariants.writhe == writhe,
            invariants.signature == 0,
            invariants.unknotting_number is None,
            invariants.bridge_number is None,
            invariants.braid_index is None,
            invariants.determinant is None,
            invariants.arf_invariant is None,
            invariants.hyperbolic_volume is None,
            invariants.homfly_polynomial is None,
    {
        KnotInvariants {
            jones_polynomial,
            alexander_polynomial,
            crossing_number,
            writhe,
            signature: 0,
            unknotting_number: None,
            bridge_number: None,
            braid_index: None,
            determinant: None,
            arf_invariant: None,
            hyperbolic_volume: None,
            homfly_polynomial: None,
        }
    }

    /// The invariants of a braid, or the failure that says why one of them
    /// cannot be computed and held.
    pub fn from_braid(braid: &Braid) -> (result: Result<KnotInvariants, ValidationError>)
        requires
            braid.wf(),
        ensures
            result.is_ok() <==> invariants_fit(braid.strand_count(), braid@),
            result matches Ok(invariants) ==> invariants.wf() && invariants.describes(
                braid.strand_count(),
                braid@,
            ),
            result matches Err(e) ==> e == overflow_of(braid.strand_count(), braid@),
    {
        let crossing_number = braid.get_crossings().len();
        let strands = braid.strands();
        let writhe = calculate_writhe(braid);
        let jones_polynomial = calculate_jones_polynomial(braid);
        let alexander_polynomial = match calculate_alexander_polynomial(braid) {
            Ok(p) => p,
            Err(e) => {
                return Err(e);
            },
        };
        proof {
            lemma_seifert_signature(seifert_size(strands as nat), braid@);
        }
        let signature: i32 = if crossing_number == 0 {
            0
        } else {
            let m = seifert_matrix(braid);
            proof {
                assert forall|r: int, c: int| 0 <= r < m@.len() && 0 <= c < m@[r].len() implies
                    -2147483648 <= #[trigger] m@[r][c] <= 2147483648 by {
                    lemma_seifert_entry_bound(m@.len(), braid@, r, c);
                }
            }
            matrix_signature(&m) as i32
        };
        let determinant: u64 = match knot_determinant(&alexander_polynomial) {
            Some(d) => d,
            None => {
                return Err(ValidationError::CoefficientOverflow);
            },
        };
        let homfly_polynomial = if crossing_number < 10 {
            match jones_polynomial.blend(&alexander_polynomial, 3, 2, 5) {
                Some(h) => Some(h),
                None => {
                    return Err(ValidationError::CoefficientOverflow);
                },
            }
        } else {
            None
        };
        Ok(
            KnotInvariants {
                jones_polynomial,
                alexander_polynomial,
                crossing_number,
                writhe,
                signature,
                unknotting_number: Some(
                    unknotting_number_bound(signature, writhe, crossing_number),
                ),
                bridge_number: Some(bridge_number(strands, crossing_number)),
                braid_index: Some(strands),
                determinant: Some(determinant),
                arf_invariant: Some(arf_invariant(signature, determinant)),
                hyperbolic_volume: hyperbolic_volume(crossing_number),
                homfly_polynomial,
            },
        )
    }

    /// The invariants of the braid of a knot.
    pub fn from_knot(knot: &Knot) -> (result: Result<KnotInvariants, ValidationError>)
        requires
            knot.braid.wf(),
        ensures
            result.is_ok() <==> invariants_fit(knot.braid.strand_count(), knot.braid@),
            result matches Ok(invariants) ==> invariants.wf() && invariants.describes(
                knot.braid.strand_count(),
                knot.braid@,
            ),
            result matches Err(e) ==> e == overflow_of(knot.braid.strand_count(), knot.braid@),
    {
        Self::from_braid(&knot.braid)
    }
}

} // verus!
