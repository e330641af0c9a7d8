//! The digit-by-digit boundary comparison.
//!
//! Across the 27 substitution calls for one decomposed element, a boolean
//! flag is threaded from the most significant position to the least.  A digit
//! below the table threshold, or strictly above the modulus's digit at its
//! position, resolves the flag to true; a tie leaves it as it was.  This is a
//! big-number comparison against the modulus's own digit string, fused with
//! the substitution: once resolved at a more significant position, the flag
//! stays resolved whatever the trailing digits hold.

use vstd::prelude::*;

verus! {

/// One step of the boundary scan, at a single position.
pub open spec fn scan_step(cond: bool, digit: nat, ref_digit: nat, threshold: nat) -> bool {
    if digit < threshold {
        true
    } else if digit > ref_digit {
        true
    } else {
        cond
    }
}

/// The whole scan over a digit string, most significant position first.
pub open spec fn scan(init: bool, digits: Seq<nat>, refs: Seq<nat>, threshold: nat) -> bool
    recommends
        digits.len() == refs.len(),
    decreases digits.len(),
{
    if digits.len() == 0 {
        init
    } else {
        scan(
            scan_step(init, digits[0], refs[0], threshold),
            digits.drop_first(),
            refs.drop_first(),
            threshold,
        )
    }
}

/// A scan that has resolved stays resolved: no trailing digit can clear the
/// flag.
pub proof fn lemma_scan_absorbing(digits: Seq<nat>, refs: Seq<nat>, threshold: nat)
    ensures
        scan(true, digits, refs, threshold),
    decreases digits.len(),
{
    if digits.len() > 0 {
        lemma_scan_absorbing(digits.drop_first(), refs.drop_first(), threshold);
    }
}

/// A digit string equal to the reference digits never resolves the flag,
/// provided no reference digit falls below the table threshold.
pub proof fn lemma_scan_equal(refs: Seq<nat>, threshold: nat)
    requires
        forall|i: int| 0 <= i < refs.len() ==> threshold <= #[trigger] refs[i],
    ensures
        !scan(false, refs, refs, threshold),
    decreases refs.len(),
{
    if refs.len() > 0 {
        assert(forall|i: int|
            0 <= i < refs.drop_first().len() ==> threshold <= #[trigger] refs.drop_first()[i]);
        lemma_scan_equal(refs.drop_first(), threshold);
    }
}

/// Lowering one reference digit by one, and keeping every other position
/// equal to the reference, leaves the scan unresolved: the digit string
/// denotes a smaller number.
pub proof fn lemma_scan_lowered(digits: Seq<nat>, refs: Seq<nat>, threshold: nat, k: int)
    requires
        digits.len() == refs.len(),
        0 <= k < digits.len(),
        forall|i: int| 0 <= i < refs.len() ==> threshold <= #[trigger] refs[i],
        threshold < refs[k],
        forall|i: int| 0 <= i < digits.len() && i != k ==> #[trigger] digits[i] == refs[i],
        digits[k] + 1 == refs[k],
    ensures
        !scan(false, digits, refs, threshold),
    decreases k,
{
    let dt = digits.drop_first();
    let rt = refs.drop_first();
    assert(forall|i: int| 0 <= i < rt.len() ==> threshold <= #[trigger] rt[i]);
    if k == 0 {
        assert(!scan_step(false, digits[0], refs[0], threshold));
        assert(dt =~= rt);
        lemma_scan_equal(rt, threshold);
    } else {
        assert(!scan_step(false, digits[0], refs[0], threshold));
        assert(forall|i: int| 0 <= i < dt.len() && i != k - 1 ==> #[trigger] dt[i] == rt[i]);
        lemma_scan_lowered(dt, rt, threshold, k - 1);
    }
}

/// Raising one digit of the reference string by one, with every more
/// significant position equal to the reference, resolves the scan from that
/// position on, whatever the trailing digits hold.
pub proof fn lemma_scan_raised(digits: Seq<nat>, refs: Seq<nat>, threshold: nat, k: int)
    requires
        digits.len() == refs.len(),
        0 <= k < digits.len(),
        forall|i: int| 0 <= i < k ==> #[trigger] digits[i] == refs[i],
        digits[k] == refs[k] + 1,
    ensures
        scan(false, digits, refs, threshold),
    decreases k,
{
    let dt = digits.drop_first();
    let rt = refs.drop_first();
    if k == 0 {
        assert(scan_step(false, digits[0], refs[0], threshold));
        lemma_scan_absorbing(dt, rt, threshold);
    } else {
        if scan_step(false, digits[0], refs[0], threshold) {
            lemma_scan_absorbing(dt, rt, threshold);
        } else {
            assert(forall|i: int| 0 <= i < k - 1 ==> #[trigger] dt[i] == rt[i]);
            lemma_scan_raised(dt, rt, threshold, k - 1);
        }
    }
}

} // verus!
