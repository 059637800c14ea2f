//! The parity check matrix of the ternary Hamming code with `r` check symbols.
//!
//! A column is a vector of `r` digits in GF(3), most significant first. The
//! columns of the matrix are all the non-zero vectors whose first non-zero
//! digit is a 1, one for each line through the origin of GF(3)^r. Those with
//! at least two non-zero digits come first, in increasing order of the value
//! they spell in base 3; the `r` unit vectors come last, so that a codeword is
//! its data followed by its check symbols.
use vstd::prelude::*;
use vstd::arithmetic::div_mod::{
    lemma_div_denominator, lemma_fundamental_div_mod, lemma_fundamental_div_mod_converse,
    lemma_mod_multiples_vanish, lemma_small_mod,
};

verus! {

/// 3 to the power `e`.
pub open spec fn pow3(e: nat) -> nat
    decreases e,
{
    if e == 0 {
        1
    } else {
        3 * pow3((e - 1) as nat)
    }
}

/// The block length of the code with `r` check symbols: (3^r - 1) / 2.
pub open spec fn block_length(r: nat) -> nat {
    ((pow3(r) - 1) / 2) as nat
}

/// Digit `i` of the `r`-digit base-3 representation of `v`, most significant
/// first; digits above the `r` lowest are dropped.
pub open spec fn digit(v: nat, r: nat, i: nat) -> nat {
    (((v as int) / (pow3((r - 1 - i) as nat) as int)) % 3) as nat
}

/// The `r` base-3 digits of `v`, most significant first.
pub open spec fn digit_vector(v: nat, r: nat) -> Seq<nat> {
    Seq::new(r, |i: int| digit(v, r, i as nat))
}

/// The `r` digits of `v` are the entries of `x`.
pub open spec fn spells(v: nat, r: nat, x: Seq<nat>) -> bool {
    forall|i: nat| i < r ==> #[trigger] digit(v, r, i) == x[i as int]
}

/// Every entry is a digit of GF(3).
pub open spec fn valid_vector(x: Seq<nat>) -> bool {
    forall|i: int| 0 <= i < x.len() ==> #[trigger] x[i] < 3
}

/// Every entry is zero.
pub open spec fn zero_vector(x: Seq<nat>) -> bool {
    forall|i: int| 0 <= i < x.len() ==> #[trigger] x[i] == 0
}

/// The first non-zero entry exists and is a 1.
pub open spec fn normalized(x: Seq<nat>) -> bool {
    exists|i: int|
        #![trigger x[i]]
        0 <= i < x.len() && x[i] == 1 && forall|j: int| 0 <= j < i ==> x[j] == 0
}

/// At least two entries are non-zero.
pub open spec fn several_nonzero(x: Seq<nat>) -> bool {
    exists|i: int, j: int|
        #![trigger x[i], x[j]]
        0 <= i < j < x.len() && x[i] != 0 && x[j] != 0
}

/// The value `v` heads one of the columns that carry data.
pub open spec fn data_column(v: nat, r: nat) -> bool {
    normalized(digit_vector(v, r)) && several_nonzero(digit_vector(v, r))
}

/// The values in `1..=m` that head data columns, in increasing order.
pub open spec fn data_values(m: nat, r: nat) -> Seq<nat>
    decreases m,
{
    if m == 0 {
        Seq::empty()
    } else if data_column(m, r) {
        data_values((m - 1) as nat, r).push(m)
    } else {
        data_values((m - 1) as nat, r)
    }
}

/// The unit vector of length `r` with its 1 at index `c`.
pub open spec fn unit_vector(r: nat, c: int) -> Seq<nat> {
    Seq::new(r, |i: int| if i == c { 1nat } else { 0nat })
}

/// The columns of the check matrix: the data columns, then the unit vectors.
pub open spec fn check_matrix(r: nat) -> Seq<Seq<nat>> {
    let values = data_values((pow3(r) - 1) as nat, r);
    Seq::new(values.len(), |j: int| digit_vector(values[j], r)) + Seq::new(
        r,
        |c: int| unit_vector(r, c),
    )
}

/// The number of data symbols of the code with `r` check symbols.
pub open spec fn data_length(r: nat) -> nat {
    data_values((pow3(r) - 1) as nat, r).len()
}

/// The check matrix has the block length as its number of columns, each of
/// them a normalized vector of `r` digits; no column occurs twice; every
/// normalized vector of `r` digits is a column; and the last `r` columns are
/// the unit vectors in order.
pub proof fn lemma_check_matrix(r: nat)
    ensures
        check_matrix(r).len() == block_length(r),
        data_length(r) + r == block_length(r),
        forall|j: int|
            0 <= j < check_matrix(r).len() ==> {
                &&& (#[trigger] check_matrix(r)[j]).len() == r
                &&& valid_vector(check_matrix(r)[j])
                &&& normalized(check_matrix(r)[j])
            },
        forall|i: int, j: int|
            0 <= i < j < check_matrix(r).len() ==> #[trigger] check_matrix(r)[i]
                != #[trigger] check_matrix(r)[j],
        forall|x: Seq<nat>|
            x.len() == r && valid_vector(x) && normalized(x) ==> exists|j: int|
                0 <= j < check_matrix(r).len() && #[trigger] check_matrix(r)[j] == x,
        forall|c: int|
            0 <= c < r ==> #[trigger] check_matrix(r)[data_length(r) + c] == unit_vector(r, c),
{
    let m = (pow3(r) - 1) as nat;
    let values = data_values(m, r);
    let h = check_matrix(r);
    let k = values.len();
    lemma_pow3_positive(r);
    lemma_data_count(r);
    lemma_data_values_facts(m, r);
    assert forall|j: int| 0 <= j < h.len() implies {
        &&& (#[trigger] h[j]).len() == r
        &&& valid_vector(h[j])
        &&& normalized(h[j])
    } by {
        if j >= k {
            let c = j - k;
            assert(h[j] == unit_vector(r, c));
            assert(h[j][c] == 1);
        }
    }
    assert forall|i: int, j: int| 0 <= i < j < h.len() implies #[trigger] h[i] != #[trigger] h[j] by {
        if j < k {
            assert(values[i] < values[j]);
            if h[i] == h[j] {
                assert forall|q: nat| q < r implies digit(values[i], r, q) == digit(
                    values[j],
                    r,
                    q,
                ) by {
                    assert(h[i][q as int] == h[j][q as int]);
                }
                lemma_digits_injective(values[i], values[j], r);
            }
        } else if i < k {
            lemma_unit_single(r, j - k);
            assert(h[j] == unit_vector(r, j - k));
            assert(several_nonzero(h[i]));
        } else {
            assert(h[i] == unit_vector(r, i - k));
            assert(h[j] == unit_vector(r, j - k));
            assert(h[i][i - k] != h[j][i - k]);
        }
    }
    assert forall|x: Seq<nat>| x.len() == r && valid_vector(x) && normalized(x) implies exists|
        j: int,
    |
        0 <= j < h.len() && #[trigger] h[j] == x by {
        let lead = choose|i: int|
            #![trigger x[i]]
            0 <= i < x.len() && x[i] == 1 && forall|j: int| 0 <= j < i ==> x[j] == 0;
        if several_nonzero(x) {
            lemma_digits_onto(x, r);
            let v = choose|v: nat| v < pow3(r) && #[trigger] spells(v, r, x);
            assert(digit_vector(v, r) =~= x);
            lemma_zero_digits(v, r);
            if v == 0 {
                assert(digit_vector(v, r)[lead] == 0);
            }
            lemma_data_values_contains(m, r, v);
            let j = choose|j: int| 0 <= j < values.len() && #[trigger] values[j] == v;
            assert(h[j] == x);
        } else {
            assert forall|i: int| 0 <= i < r implies x[i] == unit_vector(r, lead)[i] by {
                if i > lead && x[i] != 0 {
                    assert(x[lead] != 0);
                }
            }
            assert(x =~= unit_vector(r, lead));
            assert(h[k + lead] == x);
        }
    }
}

/// A unit vector is normalized and has a single non-zero entry.
proof fn lemma_unit_single(r: nat, c: int)
    requires
        0 <= c < r,
    ensures
        normalized(unit_vector(r, c)),
        !several_nonzero(unit_vector(r, c)),
{
    let u = unit_vector(r, c);
    assert(u[c] == 1);
}

/// Powers of three are positive and odd.
pub proof fn lemma_pow3_positive(e: nat)
    ensures
        pow3(e) >= 1,
        pow3(e) % 2 == 1,
    decreases e,
{
    if e > 0 {
        lemma_pow3_positive((e - 1) as nat);
    }
}

/// Powers of three grow with the exponent.
pub proof fn lemma_pow3_increases(a: nat, b: nat)
    requires
        a <= b,
    ensures
        pow3(a) <= pow3(b),
    decreases b,
{
    if a < b {
        lemma_pow3_increases(a, (b - 1) as nat);
    }
}

/// 3^(a+b) = 3^a * 3^b.
pub proof fn lemma_pow3_adds(a: nat, b: nat)
    ensures
        pow3(a + b) == pow3(a) * pow3(b),
    decreases b,
{
    if b > 0 {
        let b1 = (b - 1) as nat;
        lemma_pow3_adds(a, b1);
        assert(a + b == (a + b1) + 1);
        assert(pow3(a + b) == 3 * pow3(a + b1));
        assert(pow3(b) == 3 * pow3(b1));
        let x = pow3(a);
        let y = pow3(b1);
        assert(x * (3 * y) == 3 * (x * y)) by (nonlinear_arith);
    } else {
        assert(pow3(0) == 1);
        assert(a + b == a);
    }
}

/// 3^r is at least 2r + 1.
pub proof fn lemma_pow3_lower_bound(r: nat)
    ensures
        pow3(r) >= 2 * r + 1,
    decreases r,
{
    if r > 0 {
        lemma_pow3_lower_bound((r - 1) as nat);
    }
}

/// The digits of a value below 3^r are its leading digit `v / 3^(r-1)` followed
/// by the `r - 1` digits of the remainder.
proof fn lemma_digit_split(v: nat, r: nat, i: nat)
    requires
        r >= 1,
        v < pow3(r),
    ensures
        digit(v, r, 0) == v / pow3((r - 1) as nat),
        v / pow3((r - 1) as nat) < 3,
        i < r - 1 ==> digit(v, r, i + 1) == digit(v % pow3((r - 1) as nat), (r - 1) as nat, i),
{
    let p = pow3((r - 1) as nat);
    lemma_pow3_positive((r - 1) as nat);
    assert(pow3(r) == 3 * p);
    lemma_fundamental_div_mod(v as int, p as int);
    let q = (v as int) / (p as int);
    assert(q < 3) by (nonlinear_arith)
        requires
            v == p * q + (v as int) % (p as int),
            (v as int) % (p as int) >= 0,
            v < 3 * p,
            p >= 1,
    ;
    assert(q >= 0) by (nonlinear_arith)
        requires
            v >= 0,
            p >= 1,
            q == (v as int) / (p as int),
    ;
    lemma_small_mod(q as nat, 3);
    assert(((r - 1 - 0) as nat) == (r - 1) as nat);
    if i < r - 1 {
        let e = (r - 2 - i) as nat;
        let d = pow3(e);
        let s = (v as int) % (p as int);
        lemma_pow3_positive(e);
        lemma_pow3_adds(i + 1, e);
        assert((i + 1 + e) as nat == (r - 1) as nat);
        let t = pow3(i + 1);
        assert(p == t * d);
        lemma_fundamental_div_mod(s, d as int);
        let sd = s / (d as int);
        let sm = s % (d as int);
        assert(v == d * (q * t + sd) + sm) by (nonlinear_arith)
            requires
                v == p * q + s,
                p == t * d,
                s == d * sd + sm,
        ;
        assert(0 <= sm < d) by {
            vstd::arithmetic::div_mod::lemma_mod_pos_bound(s, d as int);
        }
        lemma_fundamental_div_mod_converse(v as int, d as int, q * t + sd, sm);
        assert(t == 3 * pow3(i));
        assert(q * t + sd == 3 * (q * pow3(i)) + sd) by (nonlinear_arith)
            requires
                t == 3 * pow3(i),
        ;
        lemma_mod_multiples_vanish(q * pow3(i), sd, 3);
        assert((r - 1 - (i + 1)) as nat == e);
        assert(((r - 1) as nat - 1 - i) as nat == e);
    }
}

/// Values below 3^r with the same `r` digits are equal.
pub proof fn lemma_digits_injective(a: nat, b: nat, r: nat)
    requires
        a < pow3(r),
        b < pow3(r),
        forall|i: nat| i < r ==> #[trigger] digit(a, r, i) == digit(b, r, i),
    ensures
        a == b,
    decreases r,
{
    if r == 0 {
        assert(pow3(0) == 1);
    } else {
        let p = pow3((r - 1) as nat);
        lemma_pow3_positive((r - 1) as nat);
        lemma_digit_split(a, r, 0);
        lemma_digit_split(b, r, 0);
        assert(digit(a, r, 0) == digit(b, r, 0));
        assert forall|i: nat| i < (r - 1) as nat implies #[trigger] digit(
            a % p,
            (r - 1) as nat,
            i,
        ) == digit(b % p, (r - 1) as nat, i) by {
            lemma_digit_split(a, r, i);
            lemma_digit_split(b, r, i);
            assert(digit(a, r, i + 1) == digit(b, r, i + 1));
        }
        vstd::arithmetic::div_mod::lemma_mod_pos_bound(a as int, p as int);
        vstd::arithmetic::div_mod::lemma_mod_pos_bound(b as int, p as int);
        lemma_digits_injective(a % p, b % p, (r - 1) as nat);
        lemma_fundamental_div_mod(a as int, p as int);
        lemma_fundamental_div_mod(b as int, p as int);
    }
}

/// Every vector of `r` digits spells some value below 3^r.
pub proof fn lemma_digits_onto(x: Seq<nat>, r: nat)
    requires
        x.len() == r,
        valid_vector(x),
    ensures
        exists|v: nat| v < pow3(r) && #[trigger] spells(v, r, x),
    decreases r,
{
    if r == 0 {
        assert(pow3(0) == 1);
        assert(spells(0, r, x));
    } else {
        let p = pow3((r - 1) as nat);
        lemma_pow3_positive((r - 1) as nat);
        let tail = x.drop_first();
        assert(valid_vector(tail)) by {
            assert forall|i: int| 0 <= i < tail.len() implies #[trigger] tail[i] < 3 by {
                assert(tail[i] == x[i + 1]);
            }
        }
        lemma_digits_onto(tail, (r - 1) as nat);
        let u = choose|u: nat| u < p && #[trigger] spells(u, (r - 1) as nat, tail);
        assert(x[0] < 3);
        let v = (x[0] * p + u) as nat;
        assert(v < 3 * p) by (nonlinear_arith)
            requires
                v == x[0] * p + u,
                x[0] < 3,
                u < p,
        ;
        assert(pow3(r) == 3 * p);
        lemma_fundamental_div_mod_converse(v as int, p as int, x[0] as int, u as int);
        assert forall|i: nat| i < r implies #[trigger] digit(v, r, i) == x[i as int] by {
            lemma_digit_split(v, r, 0);
            if i > 0 {
                lemma_digit_split(v, r, (i - 1) as nat);
                assert(digit(u, (r - 1) as nat, (i - 1) as nat) == tail[i - 1]);
            }
        }
        assert(spells(v, r, x));
    }
}

/// A value below 3^r with all digits zero is zero, and zero has all digits zero.
proof fn lemma_zero_digits(v: nat, r: nat)
    requires
        v < pow3(r),
    ensures
        zero_vector(digit_vector(v, r)) <==> v == 0,
{
    assert forall|i: nat| i < r implies #[trigger] digit(0, r, i) == 0 by {
        lemma_pow3_positive((r - 1 - i) as nat);
    }
    if zero_vector(digit_vector(v, r)) {
        assert forall|i: nat| i < r implies #[trigger] digit(v, r, i) == digit(0, r, i) by {
            assert(digit_vector(v, r)[i as int] == 0);
        }
        lemma_pow3_positive(r);
        lemma_digits_injective(v, 0, r);
    }
    if v == 0 {
        assert forall|i: int| 0 <= i < r implies #[trigger] digit_vector(v, r)[i] == 0 by {
            assert(digit(0, r, i as nat) == 0);
        }
    }
}

/// For a value below 3^r, its digit vector is the leading digit followed by
/// the digit vector of the remainder.
proof fn lemma_digit_vector_split(v: nat, r: nat)
    requires
        r >= 1,
        v < pow3(r),
    ensures
        digit_vector(v, r) =~= seq![v / pow3((r - 1) as nat)] + digit_vector(
            v % pow3((r - 1) as nat),
            (r - 1) as nat,
        ),
        v / pow3((r - 1) as nat) < 3,
{
    lemma_digit_split(v, r, 0);
    assert forall|i: int| 1 <= i < r implies #[trigger] digit_vector(v, r)[i] == digit_vector(
        v % pow3((r - 1) as nat),
        (r - 1) as nat,
    )[i - 1] by {
        lemma_digit_split(v, r, (i - 1) as nat);
    }
}

/// How the vector predicates read a leading digit.
proof fn lemma_prefixed(d: nat, x: Seq<nat>)
    requires
        d < 3,
    ensures
        normalized(seq![d] + x) <==> (d == 1 || (d == 0 && normalized(x))),
        several_nonzero(seq![d] + x) <==> ((d != 0 && !zero_vector(x)) || several_nonzero(x)),
{
    let y = seq![d] + x;
    assert(y[0] == d);
    assert forall|i: int| 0 <= i < x.len() implies #[trigger] y[i + 1] == x[i] by {}
    if normalized(y) {
        let i = choose|i: int|
            #![trigger y[i]]
            0 <= i < y.len() && y[i] == 1 && forall|j: int| 0 <= j < i ==> y[j] == 0;
        if d != 1 {
            assert(i > 0);
            assert(d == 0);
            assert(x[i - 1] == 1);
            assert forall|j: int| 0 <= j < i - 1 implies x[j] == 0 by {
                assert(y[j + 1] == 0);
            }
        }
    }
    if d == 1 {
        assert(y[0] == 1);
    } else if d == 0 && normalized(x) {
        let i = choose|i: int|
            #![trigger x[i]]
            0 <= i < x.len() && x[i] == 1 && forall|j: int| 0 <= j < i ==> x[j] == 0;
        assert(y[i + 1] == 1);
        assert forall|j: int| 0 <= j < i + 1 implies y[j] == 0 by {
            if j > 0 {
                assert(y[j] == x[j - 1]);
            }
        }
    }
    if several_nonzero(y) {
        let (i, j) = choose|i: int, j: int|
            #![trigger y[i], y[j]]
            0 <= i < j < y.len() && y[i] != 0 && y[j] != 0;
        if i == 0 {
            assert(x[j - 1] != 0);
        } else {
            assert(x[i - 1] != 0 && x[j - 1] != 0);
        }
    }
    if d != 0 && !zero_vector(x) {
        let j = choose|j: int| 0 <= j < x.len() && x[j] != 0;
        assert(y[j + 1] != 0);
    }
    if several_nonzero(x) {
        let (i, j) = choose|i: int, j: int|
            #![trigger x[i], x[j]]
            0 <= i < j < x.len() && x[i] != 0 && x[j] != 0;
        assert(y[i + 1] != 0 && y[j + 1] != 0);
    }
}

/// The values listed by `data_values` are the data columns in `1..=m`, in
/// strictly increasing order.
proof fn lemma_data_values_facts(m: nat, r: nat)
    ensures
        forall|j: int|
            0 <= j < data_values(m, r).len() ==> {
                &&& 1 <= #[trigger] data_values(m, r)[j] <= m
                &&& data_column(data_values(m, r)[j], r)
            },
        forall|i: int, j: int|
            0 <= i < j < data_values(m, r).len() ==> #[trigger] data_values(m, r)[i]
                < #[trigger] data_values(m, r)[j],
    decreases m,
{
    if m > 0 {
        let prev = data_values((m - 1) as nat, r);
        let cur = data_values(m, r);
        lemma_data_values_facts((m - 1) as nat, r);
        assert forall|j: int| 0 <= j < prev.len() implies #[trigger] cur[j] == prev[j] by {}
        assert forall|j: int| 0 <= j < cur.len() implies {
            &&& 1 <= #[trigger] cur[j] <= m
            &&& data_column(cur[j], r)
        } by {
            if j < prev.len() {
                assert(cur[j] == prev[j]);
            }
        }
        assert forall|i: int, j: int| 0 <= i < j < cur.len() implies #[trigger] cur[i]
            < #[trigger] cur[j] by {
            assert(cur[i] == prev[i]);
            if j < prev.len() {
                assert(cur[j] == prev[j]);
            }
        }
    }
}

/// Every data column in `1..=m` is listed by `data_values`.
proof fn lemma_data_values_contains(m: nat, r: nat, v: nat)
    requires
        1 <= v <= m,
        data_column(v, r),
    ensures
        exists|j: int| 0 <= j < data_values(m, r).len() && #[trigger] data_values(m, r)[j] == v,
    decreases m,
{
    if v == m {
        let s = data_values(m, r);
        assert(s[s.len() - 1] == v);
    } else {
        lemma_data_values_contains((m - 1) as nat, r, v);
        let prev = data_values((m - 1) as nat, r);
        let j = choose|j: int| 0 <= j < prev.len() && #[trigger] prev[j] == v;
        assert(data_values(m, r)[j] == v);
    }
}

/// Over a run of values on which being a data column does not change, the
/// count grows by the run's length or not at all.
proof fn lemma_count_run(a: nat, b: nat, r: nat, val: bool)
    requires
        a <= b,
        forall|v: nat| a < v <= b ==> #[trigger] data_column(v, r) == val,
    ensures
        data_values(b, r).len() == data_values(a, r).len() + if val {
            (b - a) as nat
        } else {
            0nat
        },
    decreases b,
{
    if a < b {
        lemma_count_run(a, (b - 1) as nat, r, val);
        assert(data_column(b, r) == val);
    }
}

/// Two predicates that agree on `1..=m` list the same values.
proof fn lemma_filter_agree(m: nat, r: nat, r2: nat)
    requires
        forall|v: nat| 1 <= v <= m ==> #[trigger] data_column(v, r) == data_column(v, r2),
    ensures
        data_values(m, r) == data_values(m, r2),
    decreases m,
{
    if m > 0 {
        lemma_filter_agree((m - 1) as nat, r, r2);
        assert(data_column(m, r) == data_column(m, r2));
    }
}

/// There are (3^r - 1) / 2 - r data columns.
pub proof fn lemma_data_count(r: nat)
    ensures
        data_values((pow3(r) - 1) as nat, r).len() + r == block_length(r),
    decreases r,
{
    lemma_pow3_positive(r);
    if r == 0 {
        assert(pow3(0) == 1);
    } else {
        let r1 = (r - 1) as nat;
        let p = pow3(r1);
        lemma_pow3_positive(r1);
        assert(pow3(r) == 3 * p);
        lemma_data_count(r1);
        let below = (p - 1) as nat;
        let ones = (2 * p - 1) as nat;
        let top = (3 * p - 1) as nat;
        // Below 3^(r-1) the leading digit is 0.
        assert forall|v: nat| 1 <= v <= below implies #[trigger] data_column(v, r)
            == data_column(v, r1) by {
            lemma_digit_vector_split(v, r);
            lemma_small_mod(v, p);
            vstd::arithmetic::div_mod::lemma_basic_div(v as int, p as int);
            lemma_prefixed(0, digit_vector(v, r1));
        }
        lemma_filter_agree(below, r, r1);
        // 3^(r-1) itself is a unit vector.
        lemma_digit_vector_split(p, r);
        vstd::arithmetic::div_mod::lemma_div_by_self(p as int);
        vstd::arithmetic::div_mod::lemma_mod_self_0(p as int);
        lemma_zero_digits(0, r1);
        lemma_prefixed(1, digit_vector(0, r1));
        assert(!data_column(p, r));
        lemma_count_run(below, p, r, false);
        // Then the leading digit is 1 and the rest is non-zero.
        assert forall|v: nat| p < v <= ones implies #[trigger] data_column(v, r)
            == true by {
            lemma_digit_vector_split(v, r);
            lemma_fundamental_div_mod_converse(v as int, p as int, 1, v - p);
            lemma_zero_digits((v - p) as nat, r1);
            lemma_prefixed(1, digit_vector((v - p) as nat, r1));
        }
        lemma_count_run(p, ones, r, true);
        // Then the leading digit is 2.
        assert forall|v: nat| ones < v <= top implies #[trigger] data_column(v, r) == false by {
            lemma_digit_vector_split(v, r);
            lemma_fundamental_div_mod_converse(v as int, p as int, 2, v - 2 * p);
            lemma_prefixed(2, digit_vector((v - 2 * p) as nat, r1));
        }
        lemma_count_run(ones, top, r, false);
        lemma_pow3_lower_bound(r1);
    }
}

} // verus!
