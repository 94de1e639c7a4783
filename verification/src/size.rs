//! Sizes that may not fit in 64 bits.
use vstd::prelude::*;

verus! {

/// Whether `n` items of `size` bytes each take at most `limit` bytes.
pub fn items_fit(n: usize, size: u128, limit: u64) -> (r: bool)
    ensures
        r == (n * size <= limit),
{
    if size == 0 {
        return true;
    }
    proof {
        lemma_product_fits(n as int, size as int, limit as int);
    }
    n as u128 <= limit as u128 / size
}

/// A product stays below a limit if one factor stays below the quotient.
proof fn lemma_product_fits(a: int, b: int, limit: int)
    by (nonlinear_arith)
    requires
        b > 0,
    ensures
        a * b <= limit <==> a <= limit / b,
{
}

} // verus!
