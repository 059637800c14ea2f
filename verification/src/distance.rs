//! Code distance: Hamming and Lee distances, weight, minimum distance of a
//! codebook, and the error capacities that a minimum distance gives.
use vstd::prelude::*;

use crate::ternary::Ternary;

verus! {

/// The number of positions at which `a` and `b` differ, counted over the
/// first `a.len()` positions (the words are meant to have equal length).
pub open spec fn hamming_dist(a: Seq<Ternary>, b: Seq<Ternary>) -> nat
    decreases a.len(),
{
    if a.len() == 0 {
        0
    } else {
        hamming_dist(a.drop_last(), b.take(a.len() - 1)) + if a.last() != b[a.len() - 1] {
            1nat
        } else {
            0nat
        }
    }
}

/// The number of non-zero symbols of a word.
pub open spec fn weight_of(c: Seq<Ternary>) -> nat
    decreases c.len(),
{
    if c.len() == 0 {
        0
    } else {
        weight_of(c.drop_last()) + if c.last() != Ternary::Zero {
            1nat
        } else {
            0nat
        }
    }
}

/// The Lee distance of two symbols: the circular distance of their signed
/// values on a cycle of length 3.
pub open spec fn lee(a: Ternary, b: Ternary) -> nat {
    let d = if a.value() >= b.value() {
        a.value() - b.value()
    } else {
        b.value() - a.value()
    };
    if d <= 1 {
        d as nat
    } else {
        (3 - d) as nat
    }
}

/// The sum of the Lee distances of the symbols at the first `a.len()` positions.
pub open spec fn lee_dist(a: Seq<Ternary>, b: Seq<Ternary>) -> nat
    decreases a.len(),
{
    if a.len() == 0 {
        0
    } else {
        lee_dist(a.drop_last(), b.take(a.len() - 1)) + lee(a.last(), b[a.len() - 1])
    }
}

/// Two codewords of a codebook that are compared: distinct indices of words of equal length.
pub open spec fn comparable_pair(codebook: Seq<Vec<Ternary>>, i: int, j: int) -> bool {
    &&& 0 <= i < j < codebook.len()
    &&& codebook[i]@.len() == codebook[j]@.len()
}

/// The Hamming distance of the codewords at indices `i` and `j`.
pub open spec fn pair_dist(codebook: Seq<Vec<Ternary>>, i: int, j: int) -> nat {
    hamming_dist(codebook[i]@, codebook[j]@)
}

/// Compute the ternary Hamming distance between two codewords.
/// Counts positions where values differ.
pub fn hamming_distance(a: &[Ternary], b: &[Ternary]) -> (res: Option<usize>)
    ensures
        res is Some <==> a@.len() == b@.len(),
        res matches Some(d) ==> d == hamming_dist(a@, b@),
{
    if a.len() != b.len() {
        return None;
    }
    let mut count: usize = 0;
    let mut i: usize = 0;
    while i < a.len()
        invariant
            a@.len() == b@.len(),
            i <= a@.len(),
            count <= i,
            count == hamming_dist(a@.take(i as int), b@.take(i as int)),
        decreases a@.len() - i,
    {
        assert(a@.take(i + 1).drop_last() =~= a@.take(i as int));
        assert(b@.take(i + 1).take(i as int) =~= b@.take(i as int));
        if a[i] != b[i] {
            count = count + 1;
        }
        i = i + 1;
    }
    assert(a@.take(a@.len() as int) =~= a@);
    assert(b@.take(b@.len() as int) =~= b@);
    Some(count)
}

/// Compute the minimum distance of a codebook.
/// Returns None if the codebook has fewer than 2 codewords.
///
/// Only pairs of codewords of equal length are compared; a distance that
/// equals `usize::MAX` counts as no distance.
pub fn minimum_distance(codebook: &[Vec<Ternary>]) -> (res: Option<usize>)
    ensures
        res is None <==> (codebook@.len() < 2 || forall|i: int, j: int|
            #[trigger] comparable_pair(codebook@, i, j) ==> pair_dist(codebook@, i, j)
                >= usize::MAX),
        res matches Some(d) ==> {
            &&& exists|i: int, j: int| #[trigger]
                comparable_pair(codebook@, i, j) && pair_dist(codebook@, i, j) == d
            &&& forall|i: int, j: int| #[trigger]
                comparable_pair(codebook@, i, j) ==> d <= pair_dist(codebook@, i, j)
        },
{
    if codebook.len() < 2 {
        return None;
    }
    let mut min_dist: usize = usize::MAX;
    let ghost mut wi: int = 0;
    let ghost mut wj: int = 0;
    let mut i: usize = 0;
    while i < codebook.len()
        invariant
            i <= codebook@.len(),
            forall|p: int, q: int| #[trigger]
                comparable_pair(codebook@, p, q) && p < i ==> min_dist <= pair_dist(
                    codebook@,
                    p,
                    q,
                ),
            min_dist < usize::MAX ==> comparable_pair(codebook@, wi, wj) && pair_dist(
                codebook@,
                wi,
                wj,
            ) == min_dist,
        decreases codebook@.len() - i,
    {
        let mut j: usize = i + 1;
        while j < codebook.len()
            invariant
                i < codebook@.len(),
                i + 1 <= j <= codebook@.len(),
                forall|p: int, q: int| #[trigger]
                    comparable_pair(codebook@, p, q) && (p < i || (p == i && q < j))
                        ==> min_dist <= pair_dist(codebook@, p, q),
                min_dist < usize::MAX ==> comparable_pair(codebook@, wi, wj) && pair_dist(
                    codebook@,
                    wi,
                    wj,
                ) == min_dist,
            decreases codebook@.len() - j,
        {
            if let Some(d) = hamming_distance(&codebook[i], &codebook[j]) {
                if d < min_dist {
                    min_dist = d;
                    proof {
                        wi = i as int;
                        wj = j as int;
                    }
                }
            }
            j = j + 1;
        }
        i = i + 1;
    }
    if min_dist == usize::MAX {
        None
    } else {
        Some(min_dist)
    }
}

/// Number of errors a code with minimum distance d can correct.
pub fn error_correction_capacity(min_distance: usize) -> (res: usize)
    requires
        min_distance >= 1,
    ensures
        res == (min_distance - 1) / 2,
{
    (min_distance - 1) / 2
}

/// Number of errors a code with minimum distance d can detect.
pub fn error_detection_capacity(min_distance: usize) -> (res: usize)
    requires
        min_distance >= 1,
    ensures
        res == min_distance - 1,
{
    min_distance - 1
}

/// Compute the ternary Lee distance between two values.
/// Lee distance: |a - b| mapped to ternary: d(-1,0)=1, d(-1,1)=1, d(0,1)=1
pub fn lee_distance(a: Ternary, b: Ternary) -> (res: usize)
    ensures
        res == lee(a, b),
{
    let va: i32 = (a.to_i8() + 1) as i32;
    let vb: i32 = (b.to_i8() + 1) as i32;
    let diff: u32 = if va >= vb {
        (va - vb) as u32
    } else {
        (vb - va) as u32
    };
    if diff <= 1 {
        diff as usize
    } else {
        (3 - diff) as usize
    }
}

/// Lee distance between two codewords.
pub fn lee_distance_codeword(a: &[Ternary], b: &[Ternary]) -> (res: Option<usize>)
    ensures
        res is Some <==> a@.len() == b@.len(),
        res matches Some(d) ==> d == lee_dist(a@, b@),
{
    if a.len() != b.len() {
        return None;
    }
    let mut total: usize = 0;
    let mut i: usize = 0;
    while i < a.len()
        invariant
            a@.len() == b@.len(),
            i <= a@.len(),
            total <= i,
            total == lee_dist(a@.take(i as int), b@.take(i as int)),
        decreases a@.len() - i,
    {
        assert(a@.take(i + 1).drop_last() =~= a@.take(i as int));
        assert(b@.take(i + 1).take(i as int) =~= b@.take(i as int));
        total = total + lee_distance(a[i], b[i]);
        i = i + 1;
    }
    assert(a@.take(a@.len() as int) =~= a@);
    assert(b@.take(b@.len() as int) =~= b@);
    Some(total)
}

/// Weight of a ternary codeword (number of non-zero symbols).
pub fn weight(codeword: &[Ternary]) -> (res: usize)
    ensures
        res == weight_of(codeword@),
{
    let mut count: usize = 0;
    let mut i: usize = 0;
    while i < codeword.len()
        invariant
            i <= codeword@.len(),
            count <= i,
            count == weight_of(codeword@.take(i as int)),
        decreases codeword@.len() - i,
    {
        assert(codeword@.take(i + 1).drop_last() =~= codeword@.take(i as int));
        if codeword[i] != Ternary::Zero {
            count = count + 1;
        }
        i = i + 1;
    }
    assert(codeword@.take(codeword@.len() as int) =~= codeword@);
    count
}

/// The word of `len` zero symbols.
pub open spec fn zeros(len: nat) -> Seq<Ternary> {
    Seq::new(len, |i: int| Ternary::Zero)
}

/// The symbol-wise GF(3) difference of two words of equal length.
pub open spec fn difference(a: Seq<Ternary>, b: Seq<Ternary>) -> Seq<Ternary> {
    Seq::new(a.len(), |i: int| Ternary::diff3(a[i], b[i]))
}

/// The Hamming distance is symmetric, is zero from a word to itself, and is
/// zero only between equal words.
pub proof fn lemma_hamming_dist_metric(a: Seq<Ternary>, b: Seq<Ternary>)
    requires
        a.len() == b.len(),
    ensures
        hamming_dist(a, b) == hamming_dist(b, a),
        hamming_dist(a, a) == 0,
        hamming_dist(a, b) == 0 <==> a == b,
        hamming_dist(a, b) <= a.len(),
    decreases a.len(),
{
    if a.len() > 0 {
        assert(a.take(a.len() - 1) =~= a.drop_last());
        assert(b.take(b.len() - 1) =~= b.drop_last());
        lemma_hamming_dist_metric(a.drop_last(), b.drop_last());
        if a.drop_last() == b.drop_last() && a.last() == b.last() {
            assert forall|i: int| 0 <= i < a.len() implies a[i] == b[i] by {
                if i < a.len() - 1 {
                    assert(a[i] == a.drop_last()[i]);
                    assert(b[i] == b.drop_last()[i]);
                }
            }
            assert(a =~= b);
        }
        if a == b {
            assert(a.drop_last() == b.drop_last());
        }
    } else {
        assert(a =~= b);
    }
}

/// The Hamming distance satisfies the triangle inequality.
pub proof fn lemma_hamming_dist_triangle(a: Seq<Ternary>, b: Seq<Ternary>, c: Seq<Ternary>)
    requires
        a.len() == b.len(),
        b.len() == c.len(),
    ensures
        hamming_dist(a, c) <= hamming_dist(a, b) + hamming_dist(b, c),
    decreases a.len(),
{
    if a.len() > 0 {
        assert(a.take(a.len() - 1) =~= a.drop_last());
        assert(b.take(b.len() - 1) =~= b.drop_last());
        assert(c.take(c.len() - 1) =~= c.drop_last());
        lemma_hamming_dist_triangle(a.drop_last(), b.drop_last(), c.drop_last());
    }
}

/// The Hamming distance of two words is the weight of their difference.
pub proof fn lemma_hamming_dist_is_weight_of_difference(a: Seq<Ternary>, b: Seq<Ternary>)
    requires
        a.len() == b.len(),
    ensures
        hamming_dist(a, b) == weight_of(difference(a, b)),
    decreases a.len(),
{
    if a.len() > 0 {
        assert(difference(a, b).drop_last() =~= difference(a.drop_last(), b.take(b.len() - 1)));
        lemma_hamming_dist_is_weight_of_difference(a.drop_last(), b.take(b.len() - 1));
    }
}

/// The weight of a word is its Hamming distance from the zero word.
pub proof fn lemma_weight_is_distance_from_zero(c: Seq<Ternary>)
    ensures
        weight_of(c) == hamming_dist(c, zeros(c.len())),
    decreases c.len(),
{
    if c.len() > 0 {
        assert(zeros(c.len()).take(c.len() - 1) =~= zeros((c.len() - 1) as nat));
        lemma_weight_is_distance_from_zero(c.drop_last());
    }
}

/// The Lee distance of two symbols is symmetric, at most 1, and zero exactly
/// when the symbols are equal.
pub proof fn lemma_lee_symbols(a: Ternary, b: Ternary)
    ensures
        lee(a, b) == lee(b, a),
        lee(a, b) <= 1,
        lee(a, b) == 0 <==> a == b,
{
}

/// Over three symbols the Lee distance of two words equals their Hamming distance.
pub proof fn lemma_lee_dist_is_hamming_dist(a: Seq<Ternary>, b: Seq<Ternary>)
    ensures
        lee_dist(a, b) == hamming_dist(a, b),
    decreases a.len(),
{
    if a.len() > 0 {
        lemma_lee_dist_is_hamming_dist(a.drop_last(), b.take(a.len() - 1));
    }
}

/// A code of minimum distance d detects d - 1 errors and corrects ⌊(d - 1)/2⌋,
/// and twice the correction capacity stays below the minimum distance.
pub proof fn lemma_capacities(d: nat)
    requires
        d >= 1,
    ensures
        2 * ((d - 1) / 2) + 1 <= d,
        (d - 1) / 2 <= d - 1,
{
}

} // verus!
