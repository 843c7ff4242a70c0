//! Arithmetic facts about packing small fields into wide integers.
//!
//! Every packed representation in this crate has the shape
//! `value = field + radix * rest` with `field < radix`, so one pair of
//! division/remainder facts unlocks all of the round-trip proofs.

use vstd::prelude::*;

use vstd::arithmetic::div_mod::{
    lemma_fundamental_div_mod_converse_div,
    lemma_fundamental_div_mod_converse_mod,
};

verus! {

/// Splitting `x + d * rest` by `d` recovers the field and the rest.
pub proof fn lemma_pack_unpack(x: int, rest: int, d: int)
    requires
        0 <= x < d,
        0 <= rest,
    ensures
        (x + d * rest) % d == x,
        (x + d * rest) / d == rest,
{
    assert(x + d * rest == rest * d + x) by (nonlinear_arith);
    lemma_fundamental_div_mod_converse_mod(x + d * rest, d, rest, x);
    lemma_fundamental_div_mod_converse_div(x + d * rest, d, rest, x);
}

} // verus!
