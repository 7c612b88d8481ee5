//! The operations offered to a host: each takes a braid as a strand count
//! and a list of crossings, checks it, and computes from it.

use vstd::prelude::*;
use crate::braid_group::{crossings_in_range, Braid, BraidCrossing, MAX_CROSSINGS};
use crate::compatibility::{is_terms_of, CompatibilityTerms};
use crate::error::ValidationError;
use crate::knot_invariants::{
    alexander_fits, alexander_of, calculate_crossing_number, calculate_writhe, invariants_fit,
    jones_of, overflow_of, writhe_of, KnotInvariants,
};
use crate::polynomial::Polynomial;

verus! {

/// What `generate_knot_from_braid` returns.
#[derive(Debug)]
pub struct KnotResult {
    /// The knot itself, as far as it is represented: its strand count.
    pub knot_data: Vec<usize>,
    /// The approximate Jones polynomial.
    pub jones_polynomial: Polynomial,
    /// The approximate Alexander polynomial.
    pub alexander_polynomial: Polynomial,
    /// The number of crossings.
    pub crossing_number: usize,
    /// The writhe.
    pub writhe: i32,
}

/// The crossing at index `k` is the first that has no right neighbour
/// among `strands` strands, and at most `MAX_CROSSINGS` come before it.
pub open spec fn is_first_out_of_range(strands: nat, crossings: Seq<BraidCrossing>, k: int) -> bool {
    &&& 0 <= k < crossings.len()
    &&& k <= MAX_CROSSINGS
    &&& crossings_in_range(strands, crossings.take(k))
    &&& crossings[k].strand + 1 >= strands
}

/// The failure of building a braid from `crossings`: that of the first
/// crossing that cannot be added.
pub open spec fn is_rejection(
    strands: nat,
    crossings: Seq<BraidCrossing>,
    error: ValidationError,
) -> bool {
    match error {
        ValidationError::StrandOutOfRange { strand, strands: reported } => reported == strands
            && exists|k: int| #[trigger]
            is_first_out_of_range(strands, crossings, k) && crossings[k].strand == strand,
        ValidationError::TooManyCrossings => crossings.len() > MAX_CROSSINGS
            && crossings_in_range(strands, crossings.take(MAX_CROSSINGS + 1)),
        _ => false,
    }
}

/// The braid on `number_of_strands` strands with the given crossings,
/// added in order; the failure of the first that cannot be added.
pub fn braid_from_crossings(number_of_strands: usize, crossings: &Vec<BraidCrossing>) -> (result:
    Result<Braid, ValidationError>)
    ensures
        result.is_ok() <==> crossings@.len() <= MAX_CROSSINGS && crossings_in_range(
            number_of_strands as nat,
            crossings@,
        ),
        result matches Ok(braid) ==> braid.wf() && braid@ == crossings@ && braid.strand_count()
            == number_of_strands,
        result matches Err(e) ==> is_rejection(number_of_strands as nat, crossings@, e),
{
    let mut braid = Braid::new(number_of_strands);
    let mut k: usize = 0;
    while k < crossings.len()
        invariant
            k <= crossings@.len(),
            k <= MAX_CROSSINGS,
            braid.wf(),
            braid.strand_count() == number_of_strands,
            braid@ == crossings@.take(k as int),
        decreases crossings@.len() - k,
    {
        let crossing = crossings[k];
        match braid.add_crossing(crossing.strand, crossing.is_over) {
            Err(e) => {
                proof {
                    assert(crossings_in_range(
                        number_of_strands as nat,
                        crossings@.take(k as int),
                    ));
                    if crossing.strand + 1 < number_of_strands {
                        assert(k == MAX_CROSSINGS);
                        assert(e == ValidationError::TooManyCrossings);
                        assert forall|j: int|
                            0 <= j < crossings@.take(k + 1).len() implies (
                        #[trigger] crossings@.take(k + 1)[j]).strand + 1 < number_of_strands by {
                            if j < k {
                                assert(crossings@.take(k as int)[j] == crossings@[j]);
                            }
                        }
                    } else {
                        assert(is_first_out_of_range(
                            number_of_strands as nat,
                            crossings@,
                            k as int,
                        ));
                        assert(e == (ValidationError::StrandOutOfRange {
                            strand: crossing.strand,
                            strands: number_of_strands,
                        }));
                    }
                }
                return Err(e);
            },
            Ok(()) => {
                assert(crossings@.take(k as int).push(crossing) =~= crossings@.take(k + 1));
            },
        }
        k += 1;
    }
    assert(crossings@.take(k as int) =~= crossings@);
    Ok(braid)
}

/// The invariants of the braid given by a strand count of at least two
/// and its crossings.
pub fn generate_knot_from_braid(number_of_strands: usize, crossings: &Vec<BraidCrossing>) -> (result:
    Result<KnotResult, ValidationError>)
    ensures
        result.is_ok() <==> number_of_strands >= 2 && crossings@.len() <= MAX_CROSSINGS
            && crossings_in_range(number_of_strands as nat, crossings@) && invariants_fit(
            number_of_strands as nat,
            crossings@,
        ),
        result matches Ok(knot) ==> {
            &&& knot.knot_data@ == seq![number_of_strands]
            &&& knot.jones_polynomial@ == jones_of(crossings@)
            &&& knot.alexander_polynomial@ == alexander_of(number_of_strands as nat, crossings@)
            &&& knot.crossing_number == crossings@.len()
            &&& knot.writhe == writhe_of(crossings@)
        },
        result matches Err(e) ==> if number_of_strands < 2 {
            e == (ValidationError::TooFewStrands { strands: number_of_strands })
        } else if crossings@.len() <= MAX_CROSSINGS && crossings_in_range(
            number_of_strands as nat,
            crossings@,
        ) {
            e == overflow_of(number_of_strands as nat, crossings@)
        } else {
            is_rejection(number_of_strands as nat, crossings@, e)
        },
{
    if number_of_strands < 2 {
        return Err(ValidationError::TooFewStrands { strands: number_of_strands });
    }
    let braid = match braid_from_crossings(number_of_strands, crossings) {
        Ok(braid) => braid,
        Err(e) => {
            return Err(e);
        },
    };
    let invariants = match KnotInvariants::from_braid(&braid) {
        Ok(invariants) => invariants,
        Err(e) => {
            return Err(e);
        },
    };
    let mut knot_data: Vec<usize> = Vec::new();
    knot_data.push(number_of_strands);
    assert(knot_data@ =~= seq![number_of_strands]);
    Ok(
        KnotResult {
            knot_data,
            jones_polynomial: invariants.jones_polynomial,
            alexander_polynomial: invariants.alexander_polynomial,
            crossing_number: invariants.crossing_number,
            writhe: invariants.writhe,
        },
    )
}

/// The approximate Jones polynomial of the braid given by a strand count
/// and its crossings.
pub fn calculate_jones_polynomial(
    number_of_strands: usize,
    crossings: &Vec<BraidCrossing>,
) -> (result: Result<Polynomial, ValidationError>)
    ensures
        result.is_ok() <==> crossings@.len() <= MAX_CROSSINGS && crossings_in_range(
            number_of_strands as nat,
            crossings@,
        ),
        result matches Ok(jones) ==> jones.wf() && jones@ == jones_of(crossings@),
        result matches Err(e) ==> is_rejection(number_of_strands as nat, crossings@, e),
{
    match braid_from_crossings(number_of_strands, crossings) {
        Ok(braid) => Ok(crate::knot_invariants::calculate_jones_polynomial(&braid)),
        Err(e) => Err(e),
    }
}

/// The approximate Alexander polynomial of the braid given by a strand
/// count and its crossings.
pub fn calculate_alexander_polynomial(
    number_of_strands: usize,
    crossings: &Vec<BraidCrossing>,
) -> (result: Result<Polynomial, ValidationError>)
    ensures
        result.is_ok() <==> crossings@.len() <= MAX_CROSSINGS && crossings_in_range(
            number_of_strands as nat,
            crossings@,
        ) && alexander_fits(number_of_strands as nat, crossings@),
        result matches Ok(alexander) ==> alexander.wf() && alexander@ == alexander_of(
            number_of_strands as nat,
            crossings@,
        ),
        result matches Err(e) ==> if crossings@.len() <= MAX_CROSSINGS && crossings_in_range(
            number_of_strands as nat,
            crossings@,
        ) {
            e == overflow_of(number_of_strands as nat, crossings@)
        } else {
            is_rejection(number_of_strands as nat, crossings@, e)
        },
{
    match braid_from_crossings(number_of_strands, crossings) {
        Ok(braid) => crate::knot_invariants::calculate_alexander_polynomial(&braid),
        Err(e) => Err(e),
    }
}

/// The writhe of the braid given by a strand count and its crossings.
pub fn calculate_writhe_from_braid(number_of_strands: usize, crossings: &Vec<BraidCrossing>) -> (result:
    Result<i32, ValidationError>)
    ensures
        result.is_ok() <==> crossings@.len() <= MAX_CROSSINGS && crossings_in_range(
            number_of_strands as nat,
            crossings@,
        ),
        result matches Ok(writhe) ==> writhe == writhe_of(crossings@),
        result matches Err(e) ==> is_rejection(number_of_strands as nat, crossings@, e),
{
    match braid_from_crossings(number_of_strands, crossings) {
        Ok(braid) => Ok(calculate_writhe(&braid)),
        Err(e) => Err(e),
    }
}

/// The crossing number of the braid given by a strand count and its
/// crossings.
pub fn calculate_crossing_number_from_braid(
    number_of_strands: usize,
    crossings: &Vec<BraidCrossing>,
) -> (result: Result<usize, ValidationError>)
    ensures
        result.is_ok() <==> crossings@.len() <= MAX_CROSSINGS && crossings_in_range(
            number_of_strands as nat,
            crossings@,
        ),
        result matches Ok(n) ==> n == crossings@.len(),
        result matches Err(e) ==> is_rejection(number_of_strands as nat, crossings@, e),
{
    match braid_from_crossings(number_of_strands, crossings) {
        Ok(braid) => Ok(calculate_crossing_number(&braid)),
        Err(e) => Err(e),
    }
}

/// The crossings can be made a braid on `strands` strands.
pub open spec fn is_braid(strands: nat, crossings: Seq<BraidCrossing>) -> bool {
    crossings.len() <= MAX_CROSSINGS && crossings_in_range(strands, crossings)
}

/// The terms of the compatibility score of the knots of two braids, each
/// given by a strand count and its crossings. The first braid is checked
/// before the second, and both before any invariant is computed.
pub fn calculate_topological_compatibility(
    strands_a: usize,
    crossings_a: &Vec<BraidCrossing>,
    strands_b: usize,
    crossings_b: &Vec<BraidCrossing>,
) -> (result: Result<CompatibilityTerms, ValidationError>)
    ensures
        result.is_ok() <==> is_braid(strands_a as nat, crossings_a@) && is_braid(
            strands_b as nat,
            crossings_b@,
        ) && invariants_fit(strands_a as nat, crossings_a@) && invariants_fit(
            strands_b as nat,
            crossings_b@,
        ),
        result matches Ok(terms) ==> exists|a: KnotInvariants, b: KnotInvariants|
            a.wf() && b.wf() && a.describes(strands_a as nat, crossings_a@) && b.describes(
                strands_b as nat,
                crossings_b@,
            ) && #[trigger] is_terms_of(terms, a, b),
        result matches Err(e) ==> if !is_braid(strands_a as nat, crossings_a@) {
            is_rejection(strands_a as nat, crossings_a@, e)
        } else if !is_braid(strands_b as nat, crossings_b@) {
            is_rejection(strands_b as nat, crossings_b@, e)
        } else if !invariants_fit(strands_a as nat, crossings_a@) {
            e == overflow_of(strands_a as nat, crossings_a@)
        } else {
            e == overflow_of(strands_b as nat, crossings_b@)
        },
{
    let braid_a = match braid_from_crossings(strands_a, crossings_a) {
        Ok(braid) => braid,
        Err(e) => {
            return Err(e);
        },
    };
    let braid_b = match braid_from_crossings(strands_b, crossings_b) {
        Ok(braid) => braid,
        Err(e) => {
            return Err(e);
        },
    };
    let invariants_a = match KnotInvariants::from_braid(&braid_a) {
        Ok(invariants) => invariants,
        Err(e) => {
            return Err(e);
        },
    };
    let invariants_b = match KnotInvariants::from_braid(&braid_b) {
        Ok(invariants) => invariants,
        Err(e) => {
            return Err(e);
        },
    };
    let terms = invariants_a.compatibility_terms(&invariants_b);
    assert(is_terms_of(terms, invariants_a, invariants_b));
    Ok(terms)
}

/// The number of crossings that a flat braid sequence of `values`
/// numbers encodes: the strand count comes first, then two numbers for
/// each crossing; a last number without a partner is left out.
pub fn encoded_crossing_count(values: usize) -> (result: Result<usize, ValidationError>)
    ensures
        result == if values == 0 {
            Err::<usize, ValidationError>(ValidationError::EmptyInput)
        } else {
            Ok::<usize, ValidationError>(((values - 1) / 2) as usize)
        },
{
    if values == 0 {
        Err(ValidationError::EmptyInput)
    } else {
        Ok((values - 1) / 2)
    }
}

/// The number of points in a flat sequence of `values` coordinates whose
/// energy is asked for: the sequence consists of triples, three at least.
pub fn energy_point_count(values: usize) -> (result: Result<usize, ValidationError>)
    ensures
        result == if values % 3 != 0 {
            Err::<usize, ValidationError>(ValidationError::PointsNotTriples { values })
        } else if values < 9 {
            Err::<usize, ValidationError>(ValidationError::TooFewPoints { values })
        } else {
            Ok::<usize, ValidationError>((values / 3) as usize)
        },
{
    if values % 3 != 0 {
        Err(ValidationError::PointsNotTriples { values })
    } else if values < 9 {
        Err(ValidationError::TooFewPoints { values })
    } else {
        Ok(values / 3)
    }
}

/// The number of points in a flat sequence of `values` coordinates whose
/// stability is asked for: the sequence consists of triples, one at
/// least.
pub fn stability_point_count(values: usize) -> (result: Result<usize, ValidationError>)
    ensures
        result == if values % 3 != 0 {
            Err::<usize, ValidationError>(ValidationError::PointsNotTriples { values })
        } else if values == 0 {
            Err::<usize, ValidationError>(ValidationError::EmptyInput)
        } else {
            Ok::<usize, ValidationError>((values / 3) as usize)
        },
{
    if values % 3 != 0 {
        Err(ValidationError::PointsNotTriples { values })
    } else if values == 0 {
        Err(ValidationError::EmptyInput)
    } else {
        Ok(values / 3)
    }
}

} // verus!
