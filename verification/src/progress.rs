//! A measure of the work that a depth-first search has left, used to show
//! that the searches of this crate come to an end.

use vstd::prelude::*;

verus! {

/// Four to the power `e`: more than three times the sum of all lower powers.
pub open spec fn pow4(e: nat) -> nat
    decreases e,
{
    if e == 0 {
        1
    } else {
        4 * pow4((e - 1) as nat)
    }
}

/// A higher power is at least four times a lower one.
pub proof fn lemma_pow4_grows(a: nat, b: nat)
    requires
        a < b,
    ensures
        4 * pow4(a) <= pow4(b),
        1 <= pow4(a),
    decreases b,
{
    if a > 0 {
        lemma_pow4_grows((a - 1) as nat, a);
    }
    if a + 1 < b {
        lemma_pow4_grows(a, (b - 1) as nat);
    }
}

} // verus!
