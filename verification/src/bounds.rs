//! Bounds on products, for arithmetic on machine integers.

use vstd::prelude::*;

verus! {

/// The product of two bounded integers is bounded by the product of the
/// bounds.
pub proof fn lemma_product_within(a: int, b: int, la: int, lb: int)
    requires
        -la <= a <= la,
        -lb <= b <= lb,
    ensures
        -(la * lb) <= a * b <= la * lb,
{
    assert((la - a) * (lb - b) >= 0) by (nonlinear_arith)
        requires
            a <= la,
            b <= lb,
    ;
    assert((la + a) * (lb + b) >= 0) by (nonlinear_arith)
        requires
            a >= -la,
            b >= -lb,
    ;
    assert((la - a) * (lb + b) >= 0) by (nonlinear_arith)
        requires
            a <= la,
            b >= -lb,
    ;
    assert((la + a) * (lb - b) >= 0) by (nonlinear_arith)
        requires
            a >= -la,
            b <= lb,
    ;
    assert((la - a) * (lb - b) == la * lb - la * b - a * lb + a * b) by (nonlinear_arith);
    assert((la + a) * (lb + b) == la * lb + la * b + a * lb + a * b) by (nonlinear_arith);
    assert((la - a) * (lb + b) == la * lb + la * b - a * lb - a * b) by (nonlinear_arith);
    assert((la + a) * (lb - b) == la * lb - la * b + a * lb - a * b) by (nonlinear_arith);
}

} // verus!
