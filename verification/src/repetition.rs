//! The ternary repetition code, decoded by majority vote.
use vstd::prelude::*;
use vstd::arithmetic::div_mod::{lemma_fundamental_div_mod_converse, lemma_mod_multiples_basic};
use vstd::arithmetic::mul::lemma_mul_inequality;

use crate::distance::hamming_dist;
use crate::error::DecodeError;
use crate::ternary::Ternary;

verus! {

/// The number of occurrences of `t` in `s`.
pub open spec fn count_of(s: Seq<Ternary>, t: Ternary) -> nat
    decreases s.len(),
{
    if s.len() == 0 {
        0
    } else {
        count_of(s.drop_last(), t) + if s.last() == t {
            1nat
        } else {
            0nat
        }
    }
}

/// The symbol that occurs strictly more often than each of the two others,
/// or Zero where no symbol does (a tie).
pub open spec fn majority(s: Seq<Ternary>) -> Ternary {
    let neg = count_of(s, Ternary::Neg);
    let zero = count_of(s, Ternary::Zero);
    let pos = count_of(s, Ternary::Pos);
    if pos > neg && pos > zero {
        Ternary::Pos
    } else if neg > pos && neg > zero {
        Ternary::Neg
    } else {
        Ternary::Zero
    }
}

/// The word of `f` copies of `t`.
pub open spec fn copies(f: nat, t: Ternary) -> Seq<Ternary> {
    Seq::new(f, |x: int| t)
}

/// Each symbol of `data` repeated `f` times in place.
pub open spec fn repeat_each(data: Seq<Ternary>, f: nat) -> Seq<Ternary> {
    Seq::new(data.len() * f, |x: int| data[x / (f as int)])
}

/// The group of `f` symbols at index `i` of a received word.
pub open spec fn group(received: Seq<Ternary>, f: nat, i: int) -> Seq<Ternary> {
    received.subrange(i * f, i * f + f)
}

/// The majority of each group of `f` consecutive symbols of `received`.
pub open spec fn decoded_groups(f: nat, received: Seq<Ternary>) -> Seq<Ternary> {
    Seq::new(received.len() / f, |i: int| majority(group(received, f, i)))
}

/// Majority vote on a slice of ternary values.
pub fn majority_vote(values: &[Ternary]) -> (res: Ternary)
    ensures
        res == majority(values@),
        forall|t: Ternary|
            #![trigger count_of(values@, t)]
            (forall|u: Ternary| u != t ==> #[trigger] count_of(values@, u) < count_of(values@, t))
                ==> res == t,
        (forall|t: Ternary|
            #![trigger count_of(values@, t)]
            exists|u: Ternary| u != t && #[trigger] count_of(values@, u) >= count_of(values@, t))
            ==> res == Ternary::Zero,
{
    let mut neg: usize = 0;
    let mut zero: usize = 0;
    let mut pos: usize = 0;
    let mut i: usize = 0;
    while i < values.len()
        invariant
            i <= values@.len(),
            neg + zero + pos == i,
            neg == count_of(values@.take(i as int), Ternary::Neg),
            zero == count_of(values@.take(i as int), Ternary::Zero),
            pos == count_of(values@.take(i as int), Ternary::Pos),
        decreases values@.len() - i,
    {
        assert(values@.take(i + 1).drop_last() =~= values@.take(i as int));
        match values[i] {
            Ternary::Neg => neg = neg + 1,
            Ternary::Zero => zero = zero + 1,
            Ternary::Pos => pos = pos + 1,
        }
        i = i + 1;
    }
    assert(values@.take(values@.len() as int) =~= values@);
    proof {
        lemma_majority_laws(values@);
    }
    if pos > neg && pos > zero {
        Ternary::Pos
    } else if neg > pos && neg > zero {
        Ternary::Neg
    } else {
        Ternary::Zero
    }
}

/// Ternary repetition code: repeats each symbol `n` times.
/// Can correct up to ⌊(n-1)/2⌋ errors per symbol.
#[derive(Clone, Copy, Debug)]
pub struct RepetitionCode {
    repeat: usize,
}

impl RepetitionCode {
    #[verifier::type_invariant]
    spec fn inv(self) -> bool {
        self.repeat >= 3
    }

    /// The repetition factor.
    pub closed spec fn factor(self) -> nat {
        self.repeat as nat
    }

    pub fn new(repeat: usize) -> (res: Self)
        requires
            repeat >= 3,
        ensures
            res.factor() == repeat,
    {
        RepetitionCode { repeat }
    }

    pub fn repeat_factor(&self) -> (res: usize)
        ensures
            res == self.factor(),
            res >= 3,
    {
        proof {
            use_type_invariant(self);
        }
        self.repeat
    }

    /// Maximum correctable errors per symbol.
    pub fn error_capacity(&self) -> (res: usize)
        ensures
            res == (self.factor() - 1) / 2,
    {
        proof {
            use_type_invariant(self);
        }
        (self.repeat - 1) / 2
    }

    /// Encode data by repeating each symbol.
    pub fn encode(&self, data: &[Ternary]) -> (res: Vec<Ternary>)
        requires
            data@.len() * self.factor() <= usize::MAX,
        ensures
            res@ == repeat_each(data@, self.factor()),
    {
        proof {
            use_type_invariant(self);
        }
        let f = self.repeat;
        let mut result: Vec<Ternary> = Vec::with_capacity(data.len() * f);
        let mut i: usize = 0;
        while i < data.len()
            invariant
                f == self.factor(),
                f >= 3,
                data@.len() * f <= usize::MAX,
                i <= data@.len(),
                result@.len() == i * f,
                forall|x: int| 0 <= x < result@.len() ==> result@[x] == data@[x / (f as int)],
            decreases data@.len() - i,
        {
            let val = data[i];
            proof {
                lemma_mul_inequality(i + 1 as int, data@.len() as int, f as int);
                assert((i + 1) * f == i * f + f) by (nonlinear_arith);
            }
            let mut j: usize = 0;
            while j < f
                invariant
                    f == self.factor(),
                    f >= 3,
                    i < data@.len(),
                    val == data@[i as int],
                    (i + 1) * f <= usize::MAX,
                    (i + 1) * f == i * f + f,
                    j <= f,
                    result@.len() == i * f + j,
                    forall|x: int|
                        0 <= x < result@.len() ==> result@[x] == data@[x / (f as int)],
                decreases f - j,
            {
                proof {
                    lemma_fundamental_div_mod_converse(
                        (i * f + j) as int,
                        f as int,
                        i as int,
                        j as int,
                    );
                }
                result.push(val);
                j = j + 1;
            }
            i = i + 1;
        }
        assert(result@ =~= repeat_each(data@, self.factor()));
        result
    }

    /// Decode by majority vote on each group.
    pub fn decode(&self, received: &[Ternary]) -> (res: Result<Vec<Ternary>, DecodeError>)
        ensures
            res is Err <==> received@.len() % self.factor() != 0,
            res matches Err(e) ==> e == DecodeError::InvalidLength,
            res matches Ok(v) ==> v@ == decoded_groups(self.factor(), received@),
            res matches Ok(v) ==> v@.len() * self.factor() == received@.len(),
            res matches Ok(v) ==> forall|i: int, t: Ternary|
                #![trigger count_of(group(received@, self.factor(), i), t)]
                0 <= i < v@.len() && (forall|u: Ternary|
                    u != t ==> #[trigger] count_of(group(received@, self.factor(), i), u) < count_of(
                        group(received@, self.factor(), i),
                        t,
                    )) ==> v@[i] == t,
    {
        proof {
            use_type_invariant(self);
        }
        let f = self.repeat;
        if received.len() % f != 0 {
            return Err(DecodeError::InvalidLength);
        }
        let ghost q: int = (received@.len() as int) / (f as int);
        proof {
            vstd::arithmetic::div_mod::lemma_fundamental_div_mod(received@.len() as int, f as int);
            assert(q * f == f * q) by (nonlinear_arith);
        }
        let mut result: Vec<Ternary> = Vec::new();
        let mut start: usize = 0;
        while start < received.len()
            invariant
                f == self.factor(),
                f >= 3,
                received@.len() == q * f,
                q == (received@.len() as int) / (f as int),
                start == result@.len() * f,
                result@.len() <= q,
                forall|i: int|
                    0 <= i < result@.len() ==> result@[i] == majority(group(received@, f as nat, i)),
            decreases received@.len() - start,
        {
            proof {
                if result@.len() + 1 > q {
                    lemma_mul_inequality(q, result@.len() as int, f as int);
                }
                lemma_mul_inequality(result@.len() + 1 as int, q, f as int);
                assert((result@.len() + 1) * f == result@.len() * f + f) by (nonlinear_arith);
            }
            let chunk = vstd::slice::slice_subrange(received, start, start + f);
            let vote = majority_vote(chunk);
            result.push(vote);
            start = start + f;
        }
        proof {
            if result@.len() < q {
                lemma_mul_inequality(result@.len() + 1 as int, q, f as int);
                assert((result@.len() + 1) * f == result@.len() * f + f) by (nonlinear_arith);
            }
        }
        assert(result@ =~= decoded_groups(self.factor(), received@));
        proof {
            assert forall|i: int, t: Ternary|
                #![trigger count_of(group(received@, f as nat, i), t)]
                0 <= i < result@.len() && (forall|u: Ternary|
                    u != t ==> #[trigger] count_of(group(received@, f as nat, i), u) < count_of(
                        group(received@, f as nat, i),
                        t,
                    )) implies result@[i] == t by {
                lemma_majority_plurality(group(received@, f as nat, i), t);
            }
        }
        Ok(result)
    }
}

/// Every symbol of a word is one of the three, so the three counts add up to its length.
pub proof fn lemma_counts_sum(s: Seq<Ternary>)
    ensures
        count_of(s, Ternary::Neg) + count_of(s, Ternary::Zero) + count_of(s, Ternary::Pos) == s.len(),
    decreases s.len(),
{
    if s.len() > 0 {
        lemma_counts_sum(s.drop_last());
    }
}

/// Plurality wins: a symbol that occurs strictly more often than each of the
/// two others is the majority, whether or not it holds more than half of the
/// word.
pub proof fn lemma_majority_plurality(s: Seq<Ternary>, t: Ternary)
    requires
        forall|u: Ternary| u != t ==> #[trigger] count_of(s, u) < count_of(s, t),
    ensures
        majority(s) == t,
{
    assert(t != Ternary::Neg ==> count_of(s, Ternary::Neg) < count_of(s, t));
    assert(t != Ternary::Zero ==> count_of(s, Ternary::Zero) < count_of(s, t));
    assert(t != Ternary::Pos ==> count_of(s, Ternary::Pos) < count_of(s, t));
}

/// A tie gives Zero: where no symbol occurs strictly more often than each of
/// the two others, the majority is Zero.
pub proof fn lemma_majority_tie(s: Seq<Ternary>)
    requires
        forall|t: Ternary|
            #![trigger count_of(s, t)]
            exists|u: Ternary| u != t && #[trigger] count_of(s, u) >= count_of(s, t),
    ensures
        majority(s) == Ternary::Zero,
{
    let n = count_of(s, Ternary::Neg);
    let z = count_of(s, Ternary::Zero);
    let p = count_of(s, Ternary::Pos);
    let up = choose|u: Ternary| u != Ternary::Pos && #[trigger] count_of(s, u) >= count_of(s, Ternary::Pos);
    let un = choose|u: Ternary| u != Ternary::Neg && #[trigger] count_of(s, u) >= count_of(s, Ternary::Neg);
    assert(!(p > n && p > z));
    assert(!(n > p && n > z));
}

/// The plurality and tie laws together, for one word.
pub proof fn lemma_majority_laws(s: Seq<Ternary>)
    ensures
        forall|t: Ternary|
            #![trigger count_of(s, t)]
            (forall|u: Ternary| u != t ==> #[trigger] count_of(s, u) < count_of(s, t))
                ==> majority(s) == t,
        (forall|t: Ternary|
            #![trigger count_of(s, t)]
            exists|u: Ternary| u != t && #[trigger] count_of(s, u) >= count_of(s, t))
            ==> majority(s) == Ternary::Zero,
{
    assert forall|t: Ternary|
        #![trigger count_of(s, t)]
        (forall|u: Ternary| u != t ==> #[trigger] count_of(s, u) < count_of(s, t))
            implies majority(s) == t by {
        lemma_majority_plurality(s, t);
    }
    if forall|t: Ternary|
        #![trigger count_of(s, t)]
        exists|u: Ternary| u != t && #[trigger] count_of(s, u) >= count_of(s, t) {
        lemma_majority_tie(s);
    }
}

/// Occurrences of each symbol in a word of copies.
proof fn lemma_count_copies(f: nat, t: Ternary, u: Ternary)
    ensures
        count_of(copies(f, t), u) == if u == t {
            f
        } else {
            0
        },
    decreases f,
{
    if f > 0 {
        assert(copies(f, t).drop_last() =~= copies((f - 1) as nat, t));
        lemma_count_copies((f - 1) as nat, t, u);
    }
}

/// The majority of a non-empty word of copies is the copied symbol.
pub proof fn lemma_majority_copies(f: nat, t: Ternary)
    requires
        f >= 1,
    ensures
        majority(copies(f, t)) == t,
{
    lemma_count_copies(f, t, Ternary::Neg);
    lemma_count_copies(f, t, Ternary::Zero);
    lemma_count_copies(f, t, Ternary::Pos);
}

/// Group `i` of an encoded word is `f` copies of the `i`-th data symbol.
proof fn lemma_group_of_repeat(data: Seq<Ternary>, f: nat, i: int)
    requires
        f >= 1,
        0 <= i < data.len(),
    ensures
        i * f + f <= data.len() * f,
        group(repeat_each(data, f), f, i) =~= copies(f, data[i]),
{
    lemma_mul_inequality(i + 1, data.len() as int, f as int);
    assert((i + 1) * f == i * f + f) by (nonlinear_arith);
    assert forall|y: int| 0 <= y < f implies #[trigger] group(repeat_each(data, f), f, i)[y]
        == data[i] by {
        lemma_fundamental_div_mod_converse(i * f + y, f as int, i, y);
    }
}

/// Decoding an encoded word gives the data back: for every factor `f >= 1`,
/// the encoding has a length divisible by `f`, and the majorities of its
/// groups are the data.
pub proof fn lemma_repetition_roundtrip(data: Seq<Ternary>, f: nat)
    requires
        f >= 1,
    ensures
        repeat_each(data, f).len() % f == 0,
        decoded_groups(f, repeat_each(data, f)) == data,
{
    let enc = repeat_each(data, f);
    lemma_mod_multiples_basic(data.len() as int, f as int);
    lemma_fundamental_div_mod_converse(enc.len() as int, f as int, data.len() as int, 0);
    assert forall|i: int| 0 <= i < data.len() implies #[trigger] decoded_groups(f, enc)[i]
        == data[i] by {
        lemma_group_of_repeat(data, f, i);
        lemma_majority_copies(f, data[i]);
    }
    assert(decoded_groups(f, enc) =~= data);
}

/// In a word, the copies of `t` and the positions that differ from `t` make up
/// the whole word, and any other symbol occurs only at positions that differ from `t`.
proof fn lemma_count_and_distance(s: Seq<Ternary>, t: Ternary, u: Ternary)
    ensures
        count_of(s, t) + hamming_dist(s, copies(s.len(), t)) == s.len(),
        u != t ==> count_of(s, u) <= hamming_dist(s, copies(s.len(), t)),
    decreases s.len(),
{
    if s.len() > 0 {
        assert(copies(s.len(), t).take(s.len() - 1) =~= copies((s.len() - 1) as nat, t));
        lemma_count_and_distance(s.drop_last(), t, u);
    }
}

/// A group with at most ⌊(f-1)/2⌋ symbols that differ from `t` has majority `t`.
pub proof fn lemma_majority_tolerates_errors(s: Seq<Ternary>, t: Ternary)
    requires
        s.len() >= 1,
        hamming_dist(s, copies(s.len(), t)) <= (s.len() - 1) / 2,
    ensures
        majority(s) == t,
{
    lemma_count_and_distance(s, t, Ternary::Neg);
    lemma_count_and_distance(s, t, Ternary::Zero);
    lemma_count_and_distance(s, t, Ternary::Pos);
}

/// The repetition code corrects up to ⌊(f-1)/2⌋ errors in each group: a received
/// word of the encoded length whose every group differs from the encoding in at
/// most that many positions decodes to the data.
pub proof fn lemma_repetition_corrects(data: Seq<Ternary>, f: nat, received: Seq<Ternary>)
    requires
        f >= 1,
        received.len() == data.len() * f,
        forall|i: int|
            0 <= i < data.len() ==> hamming_dist(
                #[trigger] group(received, f, i),
                group(repeat_each(data, f), f, i),
            ) <= (f - 1) / 2,
    ensures
        received.len() % f == 0,
        decoded_groups(f, received) == data,
{
    lemma_mod_multiples_basic(data.len() as int, f as int);
    lemma_fundamental_div_mod_converse(received.len() as int, f as int, data.len() as int, 0);
    assert forall|i: int| 0 <= i < data.len() implies #[trigger] decoded_groups(f, received)[i]
        == data[i] by {
        lemma_group_of_repeat(data, f, i);
        assert(group(received, f, i).len() == f);
        lemma_majority_tolerates_errors(group(received, f, i), data[i]);
    }
    assert(decoded_groups(f, received) =~= data);
}

} // verus!
