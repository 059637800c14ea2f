//! The ternary Hamming code with `r` check symbols: a perfect code of block
//! length n = (3^r - 1) / 2 with k = n - r data symbols and minimum distance 3,
//! so that it corrects one error per codeword.
//!
//! A word is a codeword when every row of the check matrix (see
//! `check_matrix`) gives a zero weighted sum: the syndrome
//! `received · H^T` is zero. A codeword is its data followed by its `r`
//! check symbols.
use vstd::prelude::*;
use vstd::arithmetic::div_mod::{lemma_div_denominator, lemma_fundamental_div_mod_converse};

use core::ops::Neg;

use crate::check_matrix::{
    block_length, check_matrix, data_column, data_length, data_values, digit, digit_vector,
    lemma_check_matrix, lemma_data_count, lemma_pow3_adds, lemma_pow3_increases,
    lemma_pow3_lower_bound, lemma_pow3_positive, normalized, pow3, several_nonzero, unit_vector,
    valid_vector,
};
use crate::distance::{hamming_dist, lemma_hamming_dist_metric, zeros};
use crate::error::DecodeError;
use crate::ternary::Ternary;

verus! {

/// The weighted sum `sum_{j < m} h[j][c] * word[j]` of row `c` of the
/// matrix with columns `h`, over the first `m` symbols of `word`, as an integer.
pub open spec fn check_sum(word: Seq<Ternary>, h: Seq<Seq<nat>>, c: int, m: nat) -> int
    decreases m,
{
    if m == 0 {
        0
    } else {
        check_sum(word, h, c, (m - 1) as nat) + h[m - 1][c] * word[m - 1].gf3()
    }
}

/// Symbol `c` of the syndrome of a word of the code with `r` check symbols.
pub open spec fn syndrome_symbol(r: nat, word: Seq<Ternary>, c: int) -> Ternary {
    Ternary::from_gf3(check_sum(word, check_matrix(r), c, block_length(r)))
}

/// A word of the block length whose syndrome is zero.
pub open spec fn is_codeword(r: nat, word: Seq<Ternary>) -> bool {
    &&& word.len() == block_length(r)
    &&& forall|c: int|
        0 <= c < r ==> #[trigger] check_sum(word, check_matrix(r), c, block_length(r)) % 3 == 0
}

/// Check symbol `c` of the codeword of `data`: minus the weighted sum of the
/// data in row `c`, so that the row sums to zero.
pub open spec fn parity_symbol(r: nat, data: Seq<Ternary>, c: int) -> Ternary {
    Ternary::from_gf3(check_sum(data, check_matrix(r), c, data.len())).negated()
}

/// The codeword of `data`: the data followed by the `r` check symbols.
pub open spec fn encoded(data: Seq<Ternary>, r: nat) -> Seq<Ternary> {
    data + Seq::new(r, |c: int| parity_symbol(r, data, c))
}

/// Single-symbol correction number `t`: position `t / 2` gets Neg added when
/// `t` is even and Pos added when it is odd.
pub open spec fn corrected(word: Seq<Ternary>, t: int) -> Seq<Ternary> {
    let e = if t % 2 == 0 {
        Ternary::Neg
    } else {
        Ternary::Pos
    };
    word.update(t / 2, Ternary::sum3(word[t / 2], e))
}

/// `t` is the first correction, in the order tried by decoding, that turns
/// `word` into a codeword.
pub open spec fn first_correction(r: nat, word: Seq<Ternary>, t: int) -> bool {
    &&& 0 <= t < 2 * block_length(r)
    &&& is_codeword(r, corrected(word, t))
    &&& forall|s: int| 0 <= s < t ==> !#[trigger] is_codeword(r, corrected(word, s))
}

/// The exec matrix `cols` holds the columns `h`.
pub open spec fn holds_columns(cols: Seq<Vec<u8>>, h: Seq<Seq<nat>>, r: nat) -> bool {
    &&& cols.len() == h.len()
    &&& forall|j: int|
        0 <= j < cols.len() ==> {
            &&& (#[trigger] cols[j])@.len() == r
            &&& forall|c: int| 0 <= c < r ==> cols[j]@[c] as nat == h[j][c]
        }
}

/// `a` and `b` hold the same symbols except perhaps at positions `p` and `q`.
pub open spec fn agree_except(a: Seq<Ternary>, b: Seq<Ternary>, p: int, q: int) -> bool {
    &&& a.len() == b.len()
    &&& forall|j: int| 0 <= j < a.len() && j != p && j != q ==> #[trigger] a[j] == b[j]
}

/// Ternary Hamming code with r check symbols.
/// Block length n = (3^r - 1) / 2, data symbols k = n - r.
/// Can correct up to 1 error per codeword.
#[derive(Clone, Copy, Debug)]
pub struct TernaryHamming {
    r: usize,
    n: usize,
    k: usize,
}

impl TernaryHamming {
    #[verifier::type_invariant]
    spec fn inv(self) -> bool {
        &&& self.r >= 2
        &&& pow3(self.r as nat) <= usize::MAX
        &&& self.n == block_length(self.r as nat)
        &&& self.k + self.r == self.n
    }

    /// The number of check symbols.
    pub closed spec fn spec_r(self) -> nat {
        self.r as nat
    }

    /// The block length.
    pub closed spec fn spec_n(self) -> nat {
        self.n as nat
    }

    /// The number of data symbols.
    pub closed spec fn spec_k(self) -> nat {
        self.k as nat
    }

    /// Create a Hamming code with r check symbols.
    pub fn new(r: usize) -> (res: Self)
        requires
            r >= 2,
            pow3(r as nat) <= usize::MAX,
        ensures
            res.spec_r() == r,
            res.spec_n() == block_length(r as nat),
            res.spec_k() == block_length(r as nat) - r,
            res.spec_k() == data_length(r as nat),
    {
        let mut p: usize = 1;
        let mut i: usize = 0;
        while i < r
            invariant
                i <= r,
                pow3(r as nat) <= usize::MAX,
                p == pow3(i as nat),
            decreases r - i,
        {
            proof {
                lemma_pow3_increases((i + 1) as nat, r as nat);
            }
            p = p * 3;
            i = i + 1;
        }
        proof {
            lemma_pow3_lower_bound(r as nat);
            lemma_data_count(r as nat);
        }
        let n = (p - 1) / 2;
        assert(n >= r);
        let k = n - r;
        assert(n == block_length(r as nat));
        TernaryHamming { r, n, k }
    }

    pub fn n(&self) -> (res: usize)
        ensures
            res == self.spec_n(),
            res == block_length(self.spec_r()),
    {
        proof {
            use_type_invariant(self);
        }
        self.n
    }

    pub fn k(&self) -> (res: usize)
        ensures
            res == self.spec_k(),
            res + self.spec_r() == self.spec_n(),
            res == data_length(self.spec_r()),
    {
        proof {
            use_type_invariant(self);
            lemma_data_count(self.spec_r());
        }
        self.k
    }

    pub fn r(&self) -> (res: usize)
        ensures
            res == self.spec_r(),
            res >= 2,
    {
        proof {
            use_type_invariant(self);
        }
        self.r
    }

    fn to_base3(val: usize, len: usize) -> (digits: Vec<u8>)
        ensures
            digits@.len() == len,
            forall|i: int| 0 <= i < len ==> digits@[i] == digit(val as nat, len as nat, i as nat),
    {
        let mut digits: Vec<u8> = Vec::new();
        let mut z: usize = 0;
        while z < len
            invariant
                z <= len,
                digits@.len() == z,
                forall|j: int| 0 <= j < z ==> digits@[j] == 0,
            decreases len - z,
        {
            digits.push(0u8);
            z = z + 1;
        }
        let mut v: usize = val;
        let mut i: usize = len;
        assert(pow3(0) == 1);
        assert((len - i) as nat == 0);
        assert(pow3((len - i) as nat) == 1);
        assert((val as int) / 1 == val);
        while v > 0 && i > 0
            invariant
                i <= len,
                digits@.len() == len,
                v == (val as int) / (pow3((len - i) as nat) as int),
                forall|j: int| i <= j < len ==> digits@[j] == digit(val as nat, len as nat, j as nat),
                forall|j: int| 0 <= j < i ==> digits@[j] == 0,
            decreases i,
        {
            i = i - 1;
            proof {
                lemma_pow3_positive((len - i - 1) as nat);
                lemma_div_denominator(val as int, pow3((len - i - 1) as nat) as int, 3);
                assert(pow3((len - i) as nat) == 3 * pow3((len - i - 1) as nat));
            }
            digits.set(i, (v % 3) as u8);
            v = v / 3;
        }
        proof {
            if i > 0 {
                assert forall|j: int| 0 <= j < i implies digits@[j] == digit(
                    val as nat,
                    len as nat,
                    j as nat,
                ) by {
                    let e1 = (len - i) as nat;
                    let e2 = (i - 1 - j) as nat;
                    lemma_pow3_adds(e1, e2);
                    lemma_pow3_positive(e1);
                    lemma_pow3_positive(e2);
                    lemma_div_denominator(val as int, pow3(e1) as int, pow3(e2) as int);
                    assert((len - 1 - j) as nat == e1 + e2);
                }
            }
        }
        digits
    }

    fn is_representative(digits: &[u8]) -> (res: bool)
        ensures
            res == exists|i: int|
                #![trigger digits@[i]]
                0 <= i < digits@.len() && digits@[i] == 1 && forall|j: int|
                    0 <= j < i ==> digits@[j] != 1 && digits@[j] != 2,
    {
        let mut i: usize = 0;
        while i < digits.len()
            invariant
                i <= digits@.len(),
                forall|j: int| 0 <= j < i ==> digits@[j] != 1 && digits@[j] != 2,
            decreases digits@.len() - i,
        {
            let d = digits[i];
            if d == 1 {
                return true;
            }
            if d == 2 {
                return false;
            }
            i = i + 1;
        }
        false
    }


    /// Whether at least two of the digits are non-zero.
    fn has_two_nonzero(digits: &[u8]) -> (res: bool)
        ensures
            res == exists|i: int, j: int|
                #![trigger digits@[i], digits@[j]]
                0 <= i < j < digits@.len() && digits@[i] != 0 && digits@[j] != 0,
    {
        let mut seen: bool = false;
        let mut first: usize = 0;
        let mut i: usize = 0;
        while i < digits.len()
            invariant
                i <= digits@.len(),
                seen ==> first < i && digits@[first as int] != 0,
                !seen ==> forall|j: int| 0 <= j < i ==> digits@[j] == 0,
                seen ==> forall|j: int| 0 <= j < i && j != first ==> digits@[j] == 0,
            decreases digits@.len() - i,
        {
            if digits[i] != 0 {
                if seen {
                    assert(digits@[first as int] != 0 && digits@[i as int] != 0);
                    return true;
                }
                seen = true;
                first = i;
            }
            i = i + 1;
        }
        false
    }

    /// The columns of the check matrix, each of `r` digits.
    fn parity_matrix(&self) -> (cols: Vec<Vec<u8>>)
        ensures
            holds_columns(cols@, check_matrix(self.spec_r()), self.spec_r()),
            cols@.len() == self.spec_n(),
    {
        proof {
            use_type_invariant(self);
            lemma_pow3_positive(self.spec_r());
            lemma_data_count(self.spec_r());
        }
        let r = self.r;
        let ghost rr = r as nat;
        let total = 2 * self.n;
        assert(total == pow3(rr) - 1);
        let mut cols: Vec<Vec<u8>> = Vec::new();
        let mut val: usize = 1;
        assert(data_values(0, rr) =~= Seq::<nat>::empty());
        while val <= total
            invariant
                r == rr,
                total == pow3(rr) - 1,
                pow3(rr) <= usize::MAX,
                1 <= val <= total + 1,
                cols@.len() == data_values((val - 1) as nat, rr).len(),
                forall|j: int|
                    0 <= j < cols@.len() ==> {
                        &&& (#[trigger] cols@[j])@.len() == r
                        &&& forall|c: int|
                            0 <= c < r ==> cols@[j]@[c] as nat == digit_vector(
                                data_values((val - 1) as nat, rr)[j],
                                rr,
                            )[c]
                    },
            decreases total + 1 - val,
        {
            let digits = Self::to_base3(val, r);
            let rep = Self::is_representative(&digits);
            let two = Self::has_two_nonzero(&digits);
            proof {
                lemma_data_column_digits(val as nat, rr, digits@);
            }
            let ghost prev = data_values((val - 1) as nat, rr);
            if rep && two {
                assert(data_values(val as nat, rr) == prev.push(val as nat));
                cols.push(digits);
            } else {
                assert(data_values(val as nat, rr) == prev);
            }
            val = val + 1;
        }
        let ghost k = cols@.len();
        let mut c: usize = 0;
        while c < r
            invariant
                r == rr,
                c <= r,
                k == data_values((pow3(rr) - 1) as nat, rr).len(),
                cols@.len() == k + c,
                forall|j: int|
                    0 <= j < cols@.len() ==> {
                        &&& (#[trigger] cols@[j])@.len() == r
                        &&& forall|q: int|
                            0 <= q < r ==> cols@[j]@[q] as nat == check_matrix(rr)[j][q]
                    },
            decreases r - c,
        {
            let mut unit: Vec<u8> = Vec::new();
            let mut i: usize = 0;
            while i < r
                invariant
                    r == rr,
                    c < r,
                    i <= r,
                    unit@.len() == i,
                    forall|q: int| 0 <= q < i ==> unit@[q] as nat == unit_vector(rr, c as int)[q],
                decreases r - i,
            {
                if i == c {
                    unit.push(1u8);
                } else {
                    unit.push(0u8);
                }
                i = i + 1;
            }
            assert(check_matrix(rr)[k + c] == unit_vector(rr, c as int));
            cols.push(unit);
            c = c + 1;
        }
        cols
    }

    /// Compute syndrome for a received codeword.
    fn syndrome(&self, received: &[Ternary]) -> (syn: Vec<Ternary>)
        requires
            received@.len() == self.spec_n(),
        ensures
            syn@.len() == self.spec_r(),
            forall|c: int|
                0 <= c < self.spec_r() ==> #[trigger] syn@[c] == syndrome_symbol(
                    self.spec_r(),
                    received@,
                    c,
                ),
    {
        proof {
            use_type_invariant(self);
            lemma_check_matrix(self.spec_r());
        }
        let cols = self.parity_matrix();
        let ghost h = check_matrix(self.spec_r());
        let mut syndrome: Vec<Ternary> = Vec::with_capacity(self.r);
        let mut check_idx: usize = 0;
        while check_idx < self.r
            invariant
                check_idx <= self.spec_r(),
                h == check_matrix(self.spec_r()),
                h.len() == self.spec_n(),
                self.spec_n() == block_length(self.spec_r()),
                received@.len() == self.spec_n(),
                holds_columns(cols@, h, self.spec_r()),
                forall|j: int|
                    0 <= j < h.len() ==> valid_vector(#[trigger] h[j]) && h[j].len()
                        == self.spec_r(),
                syndrome@.len() == check_idx,
                forall|c: int|
                    0 <= c < check_idx ==> #[trigger] syndrome@[c] == syndrome_symbol(
                        self.spec_r(),
                        received@,
                        c,
                    ),
            decreases self.spec_r() - check_idx,
        {
            let mut sum = Ternary::Zero;
            let mut j: usize = 0;
            while j < self.n
                invariant
                    j <= self.spec_n(),
                    check_idx < self.spec_r(),
                    h.len() == self.spec_n(),
                    received@.len() == self.spec_n(),
                    holds_columns(cols@, h, self.spec_r()),
                    forall|q: int|
                        0 <= q < h.len() ==> valid_vector(#[trigger] h[q]) && h[q].len()
                            == self.spec_r(),
                    sum.gf3() == check_sum(received@, h, check_idx as int, j as nat) % 3,
                decreases self.spec_n() - j,
            {
                let ghost before = check_sum(received@, h, check_idx as int, j as nat);
                let weight = cols[j][check_idx];
                let val = received[j];
                assert(valid_vector(h[j as int]));
                assert(weight as nat == h[j as int][check_idx as int]);
                assert(h[j as int][check_idx as int] < 3);
                if weight == 1 {
                    sum = Ternary::add_mod3(sum, val);
                } else if weight == 2 {
                    sum = Ternary::add_mod3(sum, val);
                    sum = Ternary::add_mod3(sum, val);
                }
                proof {
                    lemma_weighted_step(
                        before,
                        check_sum(received@, h, check_idx as int, (j + 1) as nat),
                        weight as int,
                        val.gf3(),
                        sum.gf3(),
                    );
                }
                j = j + 1;
            }
            assert(sum == Ternary::from_gf3(
                check_sum(received@, h, check_idx as int, self.spec_n()),
            ));
            syndrome.push(sum);
            check_idx = check_idx + 1;
        }
        syndrome
    }

    /// Whether every symbol of a syndrome is zero.
    fn all_zero(syndrome: &Vec<Ternary>) -> (res: bool)
        ensures
            res == forall|i: int| 0 <= i < syndrome@.len() ==> syndrome@[i] == Ternary::Zero,
    {
        let mut i: usize = 0;
        while i < syndrome.len()
            invariant
                i <= syndrome@.len(),
                forall|j: int| 0 <= j < i ==> syndrome@[j] == Ternary::Zero,
            decreases syndrome@.len() - i,
        {
            if syndrome[i] != Ternary::Zero {
                return false;
            }
            i = i + 1;
        }
        true
    }

    /// Encode data into a codeword.
    /// For simplicity, we use systematic encoding: [data | parity].
    pub fn encode(&self, data: &[Ternary]) -> (codeword: Vec<Ternary>)
        requires
            data@.len() == self.spec_k(),
        ensures
            codeword@ == encoded(data@, self.spec_r()),
            codeword@.len() == self.spec_n(),
            codeword@.take(self.spec_k() as int) == data@,
            is_codeword(self.spec_r(), codeword@),
            forall|c: int|
                0 <= c < self.spec_r() ==> #[trigger] syndrome_symbol(self.spec_r(), codeword@, c)
                    == Ternary::Zero,
    {
        proof {
            use_type_invariant(self);
            lemma_check_matrix(self.spec_r());
            lemma_data_count(self.spec_r());
        }
        let cols = self.parity_matrix();
        let ghost h = check_matrix(self.spec_r());
        let mut codeword = vstd::slice::slice_to_vec(data);
        let mut check_idx: usize = 0;
        while check_idx < self.r
            invariant
                check_idx <= self.spec_r(),
                h == check_matrix(self.spec_r()),
                h.len() == self.spec_n(),
                data@.len() == self.spec_k(),
                self.spec_k() + self.spec_r() == self.spec_n(),
                holds_columns(cols@, h, self.spec_r()),
                forall|j: int|
                    0 <= j < h.len() ==> valid_vector(#[trigger] h[j]) && h[j].len()
                        == self.spec_r(),
                codeword@ == data@ + Seq::new(
                    check_idx as nat,
                    |c: int| parity_symbol(self.spec_r(), data@, c),
                ),
            decreases self.spec_r() - check_idx,
        {
            let mut parity = Ternary::Zero;
            let mut i: usize = 0;
            while i < data.len()
                invariant
                    i <= data@.len(),
                    check_idx < self.spec_r(),
                    h.len() == self.spec_n(),
                    data@.len() == self.spec_k(),
                    self.spec_k() + self.spec_r() == self.spec_n(),
                    holds_columns(cols@, h, self.spec_r()),
                    forall|q: int|
                        0 <= q < h.len() ==> valid_vector(#[trigger] h[q]) && h[q].len()
                            == self.spec_r(),
                    parity.gf3() == check_sum(data@, h, check_idx as int, i as nat) % 3,
                decreases data@.len() - i,
            {
                let ghost before = check_sum(data@, h, check_idx as int, i as nat);
                let val = data[i];
                let weight = cols[i][check_idx];
                assert(valid_vector(h[i as int]));
                assert(weight as nat == h[i as int][check_idx as int]);
                assert(h[i as int][check_idx as int] < 3);
                if weight == 0 {
                    // skip
                } else if weight == 1 {
                    parity = Ternary::add_mod3(parity, val);
                } else {
                    // weight == 2
                    parity = Ternary::add_mod3(parity, val);
                    parity = Ternary::add_mod3(parity, val);
                }
                proof {
                    lemma_weighted_step(
                        before,
                        check_sum(data@, h, check_idx as int, (i + 1) as nat),
                        weight as int,
                        val.gf3(),
                        parity.gf3(),
                    );
                }
                i = i + 1;
            }
            codeword.push(parity.neg());
            assert(codeword@ =~= data@ + Seq::new(
                (check_idx + 1) as nat,
                |c: int| parity_symbol(self.spec_r(), data@, c),
            ));
            check_idx = check_idx + 1;
        }
        assert(codeword@ =~= encoded(data@, self.spec_r()));
        proof {
            lemma_encoded_is_codeword(self.spec_r(), data@);
            lemma_encoded_starts_with_data(data@, self.spec_r());
        }
        codeword
    }

    /// Decode a received codeword, correcting up to 1 error.
    /// Returns the decoded data symbols.
    ///
    /// A received word with a zero syndrome gives its first `k` symbols.
    /// Otherwise the single-symbol corrections are tried in order (position
    /// by position, adding Neg before Pos), and the first one that gives a
    /// zero syndrome gives the first `k` symbols of the corrected word. As the
    /// code is perfect, one always does.
    pub fn decode(&self, received: &[Ternary]) -> (res: Result<Vec<Ternary>, DecodeError>)
        ensures
            res is Err <==> received@.len() != self.spec_n(),
            res matches Err(e) ==> e == DecodeError::InvalidLength,
            res matches Ok(v) ==> {
                &&& v@.len() == self.spec_k()
                &&& hamming_dist(received@, encoded(v@, self.spec_r())) <= 1
                &&& if is_codeword(self.spec_r(), received@) {
                    v@ == received@.take(self.spec_k() as int)
                } else {
                    exists|t: int|
                        #[trigger] first_correction(self.spec_r(), received@, t) && v@ == corrected(
                            received@,
                            t,
                        ).take(self.spec_k() as int)
                }
            },
            forall|d: Seq<Ternary>|
                received@.len() == self.spec_n() && d.len() == self.spec_k() && #[trigger] hamming_dist(
                    received@,
                    encoded(d, self.spec_r()),
                ) <= 1 ==> (res matches Ok(v) && v@ == d),
    {
        proof {
            use_type_invariant(self);
            lemma_data_count(self.spec_r());
        }
        let ghost r = self.spec_r();
        let ghost n = self.spec_n();
        let ghost k = self.spec_k();
        if received.len() != self.n {
            return Err(DecodeError::InvalidLength);
        }
        let syndrome = self.syndrome(received);
        proof {
            lemma_zero_syndrome(r, received@, syndrome@);
        }
        if Self::all_zero(&syndrome) {
            let head = vstd::slice::slice_subrange(received, 0, self.k);
            let out = vstd::slice::slice_to_vec(head);
            proof {
                lemma_hamming_dist_metric(received@, received@);
                lemma_decoded_codeword(r, received@, received@);
            }
            return Ok(out);
        }
        let candidates: [Ternary; 2] = [Ternary::Neg, Ternary::Pos];
        let mut pos: usize = 0;
        while pos < self.n
            invariant
                r == self.spec_r(),
                n == self.spec_n(),
                k == self.spec_k(),
                k + r == n,
                n == block_length(r),
                k == data_length(r),
                received@.len() == n,
                n <= usize::MAX,
                candidates@ == seq![Ternary::Neg, Ternary::Pos],
                !is_codeword(r, received@),
                pos <= n,
                forall|s: int|
                    0 <= s < 2 * pos ==> !#[trigger] is_codeword(r, corrected(received@, s)),
            decreases n - pos,
        {
            let mut e: usize = 0;
            while e < 2
                invariant
                    r == self.spec_r(),
                    n == self.spec_n(),
                    k == self.spec_k(),
                    k + r == n,
                    n == block_length(r),
                    k == data_length(r),
                    received@.len() == n,
                    n <= usize::MAX,
                    candidates@ == seq![Ternary::Neg, Ternary::Pos],
                    !is_codeword(r, received@),
                    pos < n,
                    e <= 2,
                    forall|s: int|
                        0 <= s < 2 * pos + e ==> !#[trigger] is_codeword(
                            r,
                            corrected(received@, s),
                        ),
                decreases 2 - e,
            {
                let error_val = candidates[e];
                let mut fixed = vstd::slice::slice_to_vec(received);
                let sym = Ternary::add_mod3(fixed[pos], error_val);
                fixed.set(pos, sym);
                let ghost t: int = 2 * pos + e;
                proof {
                    lemma_fundamental_div_mod_converse(t, 2, pos as int, e as int);
                    assert(fixed@ =~= corrected(received@, t));
                }
                let new_syndrome = self.syndrome(&fixed);
                proof {
                    lemma_zero_syndrome(r, fixed@, new_syndrome@);
                }
                if Self::all_zero(&new_syndrome) {
                    let head = vstd::slice::slice_subrange(fixed.as_slice(), 0, self.k);
                    let out = vstd::slice::slice_to_vec(head);
                    assert(first_correction(r, received@, t));
                    proof {
                        lemma_hd_update(received@, pos as int, sym);
                        lemma_decoded_codeword(r, received@, fixed@);
                    }
                    return Ok(out);
                }
                e = e + 1;
            }
            pos = pos + 1;
        }
        proof {
            lemma_single_correction_exists(r, received@);
        }
        Err(DecodeError::Uncorrectable)
    }
}

/// Multiplying by a digit of GF(3).
proof fn lemma_times_small(h: int, x: int)
    requires
        0 <= h < 3,
    ensures
        h * x == if h == 0 {
            0
        } else if h == 1 {
            x
        } else {
            2 * x
        },
{
    if h == 0 {
        assert(h * x == 0) by (nonlinear_arith)
            requires
                h == 0,
        ;
    } else if h == 1 {
        assert(h * x == x) by (nonlinear_arith)
            requires
                h == 1,
        ;
    } else {
        assert(h * x == 2 * x) by (nonlinear_arith)
            requires
                h == 2,
        ;
    }
}

/// One step of a weighted sum modulo 3, for a weight of 0, 1 or 2 applied as
/// that many additions.
proof fn lemma_weighted_step(before: int, after: int, w: int, g: int, p: int)
    requires
        after == before + w * g,
        0 <= w < 3,
        0 <= g < 3,
        w == 0 ==> p == before % 3,
        w == 1 ==> p == (before % 3 + g) % 3,
        w == 2 ==> p == ((before % 3 + g) % 3 + g) % 3,
    ensures
        p == after % 3,
{
    lemma_times_small(w, g);
}

/// A syndrome is all zero exactly when the word is a codeword.
proof fn lemma_zero_syndrome(r: nat, word: Seq<Ternary>, syn: Seq<Ternary>)
    requires
        word.len() == block_length(r),
        syn.len() == r,
        forall|c: int| 0 <= c < r ==> #[trigger] syn[c] == syndrome_symbol(r, word, c),
    ensures
        (forall|i: int| 0 <= i < syn.len() ==> syn[i] == Ternary::Zero) == is_codeword(r, word),
{
    if forall|i: int| 0 <= i < syn.len() ==> syn[i] == Ternary::Zero {
        assert forall|c: int| 0 <= c < r implies #[trigger] check_sum(
            word,
            check_matrix(r),
            c,
            block_length(r),
        ) % 3 == 0 by {
            assert(syn[c] == Ternary::Zero);
        }
    } else {
        let i = choose|i: int| 0 <= i < syn.len() && syn[i] != Ternary::Zero;
        assert(syn[i] == syndrome_symbol(r, word, i));
        assert(check_sum(word, check_matrix(r), i, block_length(r)) % 3 != 0);
    }
}

/// Two words that agree outside positions `p` and `q` have row sums that
/// differ only by the contributions of those two positions.
proof fn lemma_check_sum_diff(
    a: Seq<Ternary>,
    b: Seq<Ternary>,
    h: Seq<Seq<nat>>,
    c: int,
    m: nat,
    p: int,
    q: int,
)
    requires
        forall|j: int| 0 <= j < m && j != p && j != q ==> #[trigger] a[j] == b[j],
    ensures
        check_sum(b, h, c, m) - check_sum(a, h, c, m) == (if 0 <= p < m {
            h[p][c] * (b[p].gf3() - a[p].gf3())
        } else {
            0
        }) + (if 0 <= q < m && q != p {
            h[q][c] * (b[q].gf3() - a[q].gf3())
        } else {
            0
        }),
    decreases m,
{
    if m > 0 {
        let j = m - 1;
        lemma_check_sum_diff(a, b, h, c, (m - 1) as nat, p, q);
        let w = h[j][c];
        let gb = b[j].gf3();
        let ga = a[j].gf3();
        assert(w * gb - w * ga == w * (gb - ga)) by (nonlinear_arith);
        if j != p && j != q {
            assert(a[j] == b[j]);
        }
    }
}

/// Symbols whose GF(3) elements are congruent are equal.
proof fn lemma_same_symbol(a: Ternary, b: Ternary)
    requires
        (b.gf3() - a.gf3()) % 3 == 0,
    ensures
        a == b,
{
}

/// Two codewords that agree outside two positions are equal: the code has
/// minimum distance 3.
pub proof fn lemma_codewords_agree(r: nat, a: Seq<Ternary>, b: Seq<Ternary>, p: int, q: int)
    requires
        is_codeword(r, a),
        is_codeword(r, b),
        agree_except(a, b, p, q),
        0 <= p < a.len(),
        0 <= q < a.len(),
    ensures
        a == b,
{
    let h = check_matrix(r);
    let n = block_length(r);
    lemma_check_matrix(r);
    let alpha = b[p].gf3() - a[p].gf3();
    let beta = b[q].gf3() - a[q].gf3();
    assert forall|c: int| 0 <= c < r implies (#[trigger] h[p][c] * alpha + (if q != p {
        h[q][c] * beta
    } else {
        0
    })) % 3 == 0 by {
        lemma_check_sum_diff(a, b, h, c, n, p, q);
        assert(check_sum(a, h, c, n) % 3 == 0);
        assert(check_sum(b, h, c, n) % 3 == 0);
    }
    let lp = choose|i: int|
        #![trigger h[p][i]]
        0 <= i < h[p].len() && h[p][i] == 1 && forall|j: int| 0 <= j < i ==> h[p][j] == 0;
    let lq = choose|i: int|
        #![trigger h[q][i]]
        0 <= i < h[q].len() && h[q][i] == 1 && forall|j: int| 0 <= j < i ==> h[q][j] == 0;
    assert(valid_vector(h[p]) && valid_vector(h[q]));
    if p == q {
        lemma_times_small(h[p][lp] as int, alpha);
        assert(alpha == 0);
    } else {
        lemma_times_small(h[p][lq] as int, alpha);
        lemma_times_small(h[q][lq] as int, beta);
        lemma_times_small(h[p][lp] as int, alpha);
        lemma_times_small(h[q][lp] as int, beta);
        if alpha != 0 && beta != 0 {
            if lp < lq {
                assert(h[q][lp] == 0);
            } else if lq < lp {
                assert(h[p][lq] == 0);
            } else {
                assert forall|c: int| 0 <= c < r implies h[p][c] == h[q][c] by {
                    assert(h[p][c] < 3 && h[q][c] < 3);
                    lemma_times_small(h[p][c] as int, alpha);
                    lemma_times_small(h[q][c] as int, beta);
                }
                assert(h[p] =~= h[q]);
                if p < q {
                    assert(h[p] != h[q]);
                } else {
                    assert(h[q] != h[p]);
                }
            }
        }
        assert(alpha == 0 && beta == 0);
    }
    lemma_same_symbol(a[p], b[p]);
    lemma_same_symbol(a[q], b[q]);
    assert(a =~= b);
}

/// Words within Hamming distance 1 (2) of each other agree outside one (two) positions.
pub proof fn lemma_diff_positions(a: Seq<Ternary>, b: Seq<Ternary>)
    requires
        a.len() == b.len(),
        a.len() > 0,
    ensures
        hamming_dist(a, b) <= 1 ==> exists|q: int|
            0 <= q < a.len() && #[trigger] agree_except(a, b, q, q),
        hamming_dist(a, b) <= 2 ==> exists|p: int, q: int|
            0 <= p < a.len() && 0 <= q < a.len() && #[trigger] agree_except(a, b, p, q),
    decreases a.len(),
{
    let last = a.len() - 1;
    let a1 = a.drop_last();
    let b1 = b.take(last);
    assert(agree_except(a, b, last, last) ==> agree_except(a, b, last, last));
    if a.len() == 1 {
        assert(agree_except(a, b, 0, 0));
    } else {
        lemma_diff_positions(a1, b1);
        if a[last] == b[last] {
            if hamming_dist(a, b) <= 1 {
                let q = choose|q: int| 0 <= q < a1.len() && #[trigger] agree_except(a1, b1, q, q);
                assert forall|j: int| 0 <= j < a.len() && j != q implies #[trigger] a[j] == b[j] by {
                    if j < last {
                        assert(a1[j] == b1[j]);
                    }
                }
                assert(agree_except(a, b, q, q));
            }
            if hamming_dist(a, b) <= 2 {
                let (p, q) = choose|p: int, q: int|
                    0 <= p < a1.len() && 0 <= q < a1.len() && #[trigger] agree_except(
                        a1,
                        b1,
                        p,
                        q,
                    );
                assert forall|j: int| 0 <= j < a.len() && j != p && j != q implies #[trigger] a[j]
                    == b[j] by {
                    if j < last {
                        assert(a1[j] == b1[j]);
                    }
                }
                assert(agree_except(a, b, p, q));
            }
        } else {
            if hamming_dist(a, b) <= 1 {
                lemma_hamming_dist_metric(a1, b1);
                assert(a1 == b1);
                assert forall|j: int| 0 <= j < a.len() && j != last implies #[trigger] a[j]
                    == b[j] by {
                    assert(a1[j] == b1[j]);
                }
                assert(agree_except(a, b, last, last));
            }
            if hamming_dist(a, b) <= 2 {
                let q = choose|q: int| 0 <= q < a1.len() && #[trigger] agree_except(a1, b1, q, q);
                assert forall|j: int| 0 <= j < a.len() && j != q && j != last implies #[trigger] a[j]
                    == b[j] by {
                    assert(a1[j] == b1[j]);
                }
                assert(agree_except(a, b, q, last));
            }
        }
    }
}

/// Changing one symbol moves a word by Hamming distance at most 1.
proof fn lemma_hd_update(w: Seq<Ternary>, p: int, x: Ternary)
    requires
        0 <= p < w.len(),
    ensures
        hamming_dist(w, w.update(p, x)) <= 1,
    decreases w.len(),
{
    let u = w.update(p, x);
    let last = w.len() - 1;
    if p == last {
        assert(u.take(last) =~= w.drop_last());
        lemma_hamming_dist_metric(w.drop_last(), w.drop_last());
    } else {
        assert(u.take(last) =~= w.drop_last().update(p, x));
        lemma_hd_update(w.drop_last(), p, x);
    }
}

/// Over the unit columns at the end of the matrix, row `c` picks out the
/// symbol at position `k + c`.
proof fn lemma_unit_tail(w: Seq<Ternary>, h: Seq<Seq<nat>>, k: nat, r: nat, c: int, m: nat)
    requires
        k <= m <= k + r,
        0 <= c < r,
        forall|i: int| 0 <= i < r ==> #[trigger] h[k + i] == unit_vector(r, i),
    ensures
        check_sum(w, h, c, m) == check_sum(w, h, c, k) + if k + c < m {
            w[k + c].gf3()
        } else {
            0
        },
    decreases m,
{
    if m > k {
        let j = m - 1;
        lemma_unit_tail(w, h, k, r, c, (m - 1) as nat);
        assert(h[k + (j - k)] == unit_vector(r, j - k));
        lemma_times_small(h[j][c] as int, w[j].gf3());
    }
}

/// The negation of the reduced sum cancels the sum.
proof fn lemma_negated_cancels(a: int)
    ensures
        (a + Ternary::from_gf3(a).negated().gf3()) % 3 == 0,
        forall|t: Ternary| (a + t.gf3()) % 3 == 0 ==> t == Ternary::from_gf3(a).negated(),
{
}

/// Every encoding of data of the right length is a codeword: its syndrome is
/// zero in every symbol.
pub proof fn lemma_encoded_is_codeword(r: nat, data: Seq<Ternary>)
    requires
        data.len() == data_length(r),
    ensures
        is_codeword(r, encoded(data, r)),
        forall|c: int| 0 <= c < r ==> #[trigger] syndrome_symbol(r, encoded(data, r), c) == Ternary::Zero,
{
    let h = check_matrix(r);
    let k = data_length(r);
    let n = block_length(r);
    let enc = encoded(data, r);
    lemma_check_matrix(r);
    assert forall|c: int| 0 <= c < r implies #[trigger] check_sum(enc, h, c, n) % 3 == 0 by {
        lemma_unit_tail(enc, h, k, r, c, n);
        lemma_check_sum_diff(data, enc, h, c, k, -1, -1);
        assert(enc[k + c] == parity_symbol(r, data, c));
        lemma_negated_cancels(check_sum(data, h, c, k));
    }
    assert forall|c: int| 0 <= c < r implies #[trigger] syndrome_symbol(r, enc, c)
        == Ternary::Zero by {
        assert(check_sum(enc, h, c, n) % 3 == 0);
    }
}

/// Every codeword is the encoding of its first `k` symbols.
pub proof fn lemma_codeword_is_encoding(r: nat, w: Seq<Ternary>)
    requires
        is_codeword(r, w),
    ensures
        w == encoded(w.take(data_length(r) as int), r),
{
    let h = check_matrix(r);
    let k = data_length(r);
    let n = block_length(r);
    let d = w.take(k as int);
    lemma_check_matrix(r);
    assert forall|c: int| 0 <= c < r implies w[k + c] == #[trigger] parity_symbol(r, d, c) by {
        assert(check_sum(w, h, c, n) % 3 == 0);
        lemma_unit_tail(w, h, k, r, c, n);
        lemma_check_sum_diff(d, w, h, c, k, -1, -1);
        lemma_negated_cancels(check_sum(d, h, c, k));
    }
    assert(w =~= encoded(d, r));
}

/// Encoding is systematic: the codeword of `data` starts with `data` and has
/// `r` more symbols.
pub proof fn lemma_encoded_starts_with_data(data: Seq<Ternary>, r: nat)
    ensures
        encoded(data, r).len() == data.len() + r,
        encoded(data, r).take(data.len() as int) == data,
{
    assert(encoded(data, r).take(data.len() as int) =~= data);
}

/// The code has minimum distance 3: the encodings of two different data words
/// differ in at least three positions.
pub proof fn lemma_hamming_min_distance(r: nat, d1: Seq<Ternary>, d2: Seq<Ternary>)
    requires
        d1.len() == data_length(r),
        d2.len() == data_length(r),
        d1 != d2,
    ensures
        hamming_dist(encoded(d1, r), encoded(d2, r)) >= 3,
{
    let e1 = encoded(d1, r);
    let e2 = encoded(d2, r);
    lemma_encoded_is_codeword(r, d1);
    lemma_encoded_is_codeword(r, d2);
    lemma_encoded_starts_with_data(d1, r);
    lemma_encoded_starts_with_data(d2, r);
    if hamming_dist(e1, e2) <= 2 {
        if d1.len() == 0 {
            assert(d1 =~= d2);
        }
        lemma_diff_positions(e1, e2);
        let (p, q) = choose|p: int, q: int|
            0 <= p < e1.len() && 0 <= q < e1.len() && #[trigger] agree_except(e1, e2, p, q);
        lemma_codewords_agree(r, e1, e2, p, q);
    }
}

/// The first non-zero entry of a sequence with a non-zero entry.
proof fn lemma_first_nonzero(s: Seq<int>, i: int)
    requires
        0 <= i < s.len(),
        s[i] != 0,
    ensures
        exists|f: int| 0 <= f <= i && s[f] != 0 && forall|j: int| 0 <= j < f ==> #[trigger] s[j] == 0,
    decreases i,
{
    if exists|j: int| 0 <= j < i && s[j] != 0 {
        let j = choose|j: int| 0 <= j < i && s[j] != 0;
        lemma_first_nonzero(s, j);
    } else {
        assert(forall|j: int| 0 <= j < i ==> #[trigger] s[j] == 0);
    }
}

/// The arithmetic of one correction: adding `ge` at a column that is `lam`
/// times the syndrome, with `lam * ge` congruent to -1, clears a row whose
/// sum is `x`.
proof fn lemma_correction_arith(x: int, lam: int, gw: int, ge: int)
    requires
        1 <= lam <= 2,
        0 <= gw < 3,
        ge == if lam == 1 {
            2int
        } else {
            1int
        },
    ensures
        (x + ((lam * (x % 3)) % 3) * ((gw + ge) % 3 - gw)) % 3 == 0,
{
    let s = x % 3;
    lemma_times_small(lam, s);
    assert(0 <= s < 3);
    let nn = (lam * s) % 3;
    let delta = (gw + ge) % 3 - gw;
    assert(0 <= nn < 3);
    lemma_times_small(nn, delta);
}

/// The code is perfect: every word of the block length that is not a
/// codeword becomes one by a single correction.
pub proof fn lemma_single_correction_exists(r: nat, w: Seq<Ternary>)
    requires
        w.len() == block_length(r),
        !is_codeword(r, w),
    ensures
        exists|t: int| 0 <= t < 2 * block_length(r) && #[trigger] is_codeword(r, corrected(w, t)),
{
    let h = check_matrix(r);
    let n = block_length(r);
    lemma_check_matrix(r);
    let syn = Seq::new(r, |c: int| check_sum(w, h, c, n) % 3);
    let c1 = choose|c: int| 0 <= c < r && !(#[trigger] check_sum(w, h, c, n) % 3 == 0);
    assert(syn[c1] != 0);
    lemma_first_nonzero(syn, c1);
    let c0 = choose|f: int|
        0 <= f <= c1 && syn[f] != 0 && forall|j: int| 0 <= j < f ==> #[trigger] syn[j] == 0;
    let lam = syn[c0];
    let col = Seq::new(r, |c: int| ((lam * syn[c]) % 3) as nat);
    assert(1 <= lam <= 2);
    assert forall|c: int| 0 <= c < r implies 0 <= #[trigger] ((lam * syn[c]) % 3) < 3 by {}
    lemma_times_small(syn[c0], lam);
    assert(col[c0] == 1);
    assert forall|j: int| 0 <= j < c0 implies col[j] == 0 by {
        assert(syn[j] == 0);
        lemma_times_small(0, lam);
    }
    assert(valid_vector(col));
    assert(normalized(col));
    let j = choose|j: int| 0 <= j < h.len() && #[trigger] h[j] == col;
    let e = if lam == 1 {
        0int
    } else {
        1int
    };
    let t = 2 * j + e;
    lemma_fundamental_div_mod_converse(t, 2, j, e);
    let fixed = corrected(w, t);
    assert forall|c: int| 0 <= c < r implies #[trigger] check_sum(fixed, h, c, n) % 3 == 0 by {
        lemma_check_sum_diff(w, fixed, h, c, n, j, j);
        lemma_correction_arith(check_sum(w, h, c, n), lam, w[j].gf3(), if lam == 1 {
            2int
        } else {
            1int
        });
        assert(h[j][c] == (lam * syn[c]) % 3);
    }
    assert(is_codeword(r, fixed));
}

/// What decoding returns from a codeword `cw` within distance 1 of the
/// received word: data whose encoding is within distance 1, and the only such data.
proof fn lemma_decoded_codeword(r: nat, received: Seq<Ternary>, cw: Seq<Ternary>)
    requires
        received.len() == block_length(r),
        is_codeword(r, cw),
        hamming_dist(received, cw) <= 1,
    ensures
        cw.take(data_length(r) as int).len() == data_length(r),
        hamming_dist(received, encoded(cw.take(data_length(r) as int), r)) <= 1,
        forall|d: Seq<Ternary>|
            d.len() == data_length(r) && #[trigger] hamming_dist(received, encoded(d, r)) <= 1
                ==> cw.take(data_length(r) as int) == d,
{
    let k = data_length(r);
    lemma_check_matrix(r);
    lemma_codeword_is_encoding(r, cw);
    assert forall|d: Seq<Ternary>|
        d.len() == k && #[trigger] hamming_dist(received, encoded(d, r)) <= 1 implies cw.take(
        k as int,
    ) == d by {
        let enc = encoded(d, r);
        lemma_encoded_is_codeword(r, d);
        lemma_encoded_starts_with_data(d, r);
        if received.len() == 0 {
            assert(cw.take(k as int) =~= d);
        } else {
            lemma_diff_positions(received, enc);
            lemma_diff_positions(received, cw);
            let q = choose|q: int|
                0 <= q < received.len() && #[trigger] agree_except(received, enc, q, q);
            let p = choose|p: int|
                0 <= p < received.len() && #[trigger] agree_except(received, cw, p, p);
            assert forall|j: int| 0 <= j < cw.len() && j != p && j != q implies #[trigger] cw[j]
                == enc[j] by {
                assert(received[j] == enc[j]);
                assert(received[j] == cw[j]);
            }
            assert(agree_except(cw, enc, p, q));
            lemma_codewords_agree(r, cw, enc, p, q);
        }
    }
}

/// The zero word is a codeword, and encoding zero data gives the zero word.
pub proof fn lemma_zero_word(r: nat)
    ensures
        is_codeword(r, zeros(block_length(r))),
        encoded(zeros(data_length(r)), r) == zeros(block_length(r)),
{
    lemma_check_matrix(r);
    let k = data_length(r);
    let z = zeros(k);
    assert forall|c: int| 0 <= c < r implies #[trigger] parity_symbol(r, z, c) == Ternary::Zero by {
        lemma_check_sum_zero(z, check_matrix(r), c, k);
    }
    assert(encoded(z, r) =~= zeros(block_length(r)));
    lemma_encoded_is_codeword(r, z);
}

/// Every row sum of a word of zeros is zero.
proof fn lemma_check_sum_zero(z: Seq<Ternary>, h: Seq<Seq<nat>>, c: int, m: nat)
    requires
        m <= z.len(),
        forall|i: int| 0 <= i < z.len() ==> #[trigger] z[i] == Ternary::Zero,
    ensures
        check_sum(z, h, c, m) == 0,
    decreases m,
{
    if m > 0 {
        lemma_check_sum_zero(z, h, c, (m - 1) as nat);
        let w = h[m - 1][c];
        assert(w * 0 == 0) by (nonlinear_arith);
    }
}

/// The digits of a value form a data column exactly when the exec tests for a
/// representative and for two non-zero digits both succeed.
proof fn lemma_data_column_digits(v: nat, r: nat, ds: Seq<u8>)
    requires
        ds.len() == r,
        forall|i: int| 0 <= i < r ==> ds[i] == digit(v, r, i as nat),
    ensures
        ((exists|i: int|
            #![trigger ds[i]]
            0 <= i < ds.len() && ds[i] == 1 && forall|j: int|
                0 <= j < i ==> ds[j] != 1 && ds[j] != 2) && (exists|i: int, j: int|
            #![trigger ds[i], ds[j]]
            0 <= i < j < ds.len() && ds[i] != 0 && ds[j] != 0)) == data_column(v, r),
{
    let x = digit_vector(v, r);
    assert forall|i: int| 0 <= i < r implies ds[i] as nat == #[trigger] x[i] && x[i] < 3 by {}
    if exists|i: int|
        #![trigger ds[i]]
        0 <= i < ds.len() && ds[i] == 1 && forall|j: int| 0 <= j < i ==> ds[j] != 1 && ds[j] != 2 {
        let i = choose|i: int|
            #![trigger ds[i]]
            0 <= i < ds.len() && ds[i] == 1 && forall|j: int|
                0 <= j < i ==> ds[j] != 1 && ds[j] != 2;
        assert(x[i] == 1);
        assert forall|j: int| 0 <= j < i implies x[j] == 0 by {
            assert(ds[j] as nat == x[j]);
        }
        assert(normalized(x));
    }
    if normalized(x) {
        let i = choose|i: int|
            #![trigger x[i]]
            0 <= i < x.len() && x[i] == 1 && forall|j: int| 0 <= j < i ==> x[j] == 0;
        assert(ds[i] == 1);
        assert forall|j: int| 0 <= j < i implies ds[j] != 1 && ds[j] != 2 by {
            assert(ds[j] as nat == x[j]);
        }
    }
    if exists|i: int, j: int|
        #![trigger ds[i], ds[j]]
        0 <= i < j < ds.len() && ds[i] != 0 && ds[j] != 0 {
        let (i, j) = choose|i: int, j: int|
            #![trigger ds[i], ds[j]]
            0 <= i < j < ds.len() && ds[i] != 0 && ds[j] != 0;
        assert(x[i] != 0 && x[j] != 0);
    }
    if several_nonzero(x) {
        let (i, j) = choose|i: int, j: int|
            #![trigger x[i], x[j]]
            0 <= i < j < x.len() && x[i] != 0 && x[j] != 0;
        assert(ds[i] != 0 && ds[j] != 0);
    }
}

} // verus!
