//! Single-symbol parity: one check symbol makes the GF(3) sum of a codeword zero.
use vstd::prelude::*;

use core::ops::Neg;

use crate::ternary::Ternary;

verus! {

/// The sum of the GF(3) elements of the symbols of a word, as an integer.
pub open spec fn gf3_sum(s: Seq<Ternary>) -> int
    decreases s.len(),
{
    if s.len() == 0 {
        0
    } else {
        gf3_sum(s.drop_last()) + s.last().gf3()
    }
}

/// The parity symbol of a word: the GF(3) sum of its symbols.
pub open spec fn parity_of(s: Seq<Ternary>) -> Ternary {
    Ternary::from_gf3(gf3_sum(s))
}

/// A word whose symbols sum to zero in GF(3).
pub open spec fn sums_to_zero(s: Seq<Ternary>) -> bool {
    gf3_sum(s) % 3 == 0
}

/// Compute ternary parity (sum mod 3) of a slice.
pub fn ternary_parity(data: &[Ternary]) -> (res: Ternary)
    ensures
        res == parity_of(data@),
        res.gf3() == gf3_sum(data@) % 3,
{
    let mut sum = Ternary::Zero;
    let mut i: usize = 0;
    while i < data.len()
        invariant
            i <= data@.len(),
            sum.gf3() == gf3_sum(data@.take(i as int)) % 3,
        decreases data@.len() - i,
    {
        assert(data@.take(i + 1).drop_last() =~= data@.take(i as int));
        sum = Ternary::add_mod3(sum, data[i]);
        i = i + 1;
    }
    assert(data@.take(data@.len() as int) =~= data@);
    sum
}

/// Compute parity check: data + parity should sum to zero mod 3.
pub fn parity_check(data: &[Ternary], parity: Ternary) -> (res: bool)
    ensures
        res == sums_to_zero(data@.push(parity)),
{
    assert(data@.push(parity).drop_last() =~= data@);
    Ternary::add_mod3(ternary_parity(data), parity) == Ternary::Zero
}

/// Encode data with a single parity symbol.
pub fn parity_encode(data: &[Ternary]) -> (res: Vec<Ternary>)
    ensures
        res@ == data@.push(parity_of(data@).negated()),
{
    let parity = ternary_parity(data).neg();
    let mut result = vstd::slice::slice_to_vec(data);
    result.push(parity);
    result
}

/// Verify a parity-encoded codeword. Returns true if valid.
pub fn parity_verify(codeword: &[Ternary]) -> (res: bool)
    ensures
        res == sums_to_zero(codeword@),
{
    if codeword.is_empty() {
        return true;
    }
    let (data, parity) = codeword.split_at(codeword.len() - 1);
    assert(data@.push(parity@[0]) =~= codeword@);
    parity_check(data, parity[0])
}

/// Changing the symbol at one position changes the sum by the difference of the two symbols.
pub proof fn lemma_gf3_sum_update(s: Seq<Ternary>, i: int, t: Ternary)
    requires
        0 <= i < s.len(),
    ensures
        gf3_sum(s.update(i, t)) == gf3_sum(s) - s[i].gf3() + t.gf3(),
    decreases s.len(),
{
    if i < s.len() - 1 {
        assert(s.update(i, t).drop_last() =~= s.drop_last().update(i, t));
        lemma_gf3_sum_update(s.drop_last(), i, t);
    } else {
        assert(s.update(i, t).drop_last() =~= s.drop_last());
    }
}

/// A word followed by the negation of its parity sums to zero: every output of
/// `parity_encode` passes `parity_verify`, and `parity_check` accepts the
/// negated parity of the data.
pub proof fn lemma_parity_encode_verifies(data: Seq<Ternary>)
    ensures
        sums_to_zero(data.push(parity_of(data).negated())),
{
    assert(data.push(parity_of(data).negated()).drop_last() =~= data);
}

/// A single changed symbol is always detected: a codeword that sums to zero
/// stops summing to zero when the symbol at one position is replaced by another.
pub proof fn lemma_single_error_detected(c: Seq<Ternary>, i: int, t: Ternary)
    requires
        sums_to_zero(c),
        0 <= i < c.len(),
        t != c[i],
    ensures
        !sums_to_zero(c.update(i, t)),
{
    lemma_gf3_sum_update(c, i, t);
}

} // verus!
