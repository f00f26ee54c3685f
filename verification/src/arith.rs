//! Facts about integer division that the proofs of this crate share.

use vstd::arithmetic::div_mod::{
    lemma_fundamental_div_mod, lemma_fundamental_div_mod_converse_div, lemma_mod_bound,
};
use vstd::prelude::*;

verus! {

/// A quotient is fixed by the multiples of the divisor that enclose the
/// dividend.
pub(crate) proof fn lemma_quotient_between(n: int, d: int, q: int)
    requires
        0 < d,
        q * d <= n < q * d + d,
    ensures
        n / d == q,
{
    lemma_fundamental_div_mod_converse_div(n, d, q, n - q * d);
}

/// The multiples of the divisor that enclose a dividend.
pub(crate) proof fn lemma_quotient_encloses(n: int, d: int)
    requires
        0 < d,
    ensures
        (n / d) * d <= n < (n / d) * d + d,
{
    lemma_fundamental_div_mod(n, d);
    lemma_mod_bound(n, d);
    assert((n / d) * d == d * (n / d)) by (nonlinear_arith);
}

} // verus!
