//! Ternary symbols and their arithmetic in GF(3).
//!
//! A symbol is one of {-1, 0, +1}. For field arithmetic each symbol is read
//! as an element of GF(3) = {0, 1, 2} by Zero -> 0, Pos -> 1, Neg -> 2.
use vstd::prelude::*;

verus! {

/// A ternary value.
#[derive(Clone, Copy, Debug, PartialEq, Eq, Hash, Structural)]
pub enum Ternary {
    Neg,
    Zero,
    Pos,
}

impl Ternary {
    /// The signed value of the symbol: -1, 0 or +1.
    pub open spec fn value(self) -> int {
        match self {
            Ternary::Neg => -1,
            Ternary::Zero => 0,
            Ternary::Pos => 1,
        }
    }

    /// The element of GF(3) that the symbol stands for: Neg -> 2, Zero -> 0, Pos -> 1.
    pub open spec fn gf3(self) -> int {
        match self {
            Ternary::Neg => 2,
            Ternary::Zero => 0,
            Ternary::Pos => 1,
        }
    }

    /// The symbol whose GF(3) element is `x` reduced modulo 3.
    pub open spec fn from_gf3(x: int) -> Ternary {
        if x % 3 == 0 {
            Ternary::Zero
        } else if x % 3 == 1 {
            Ternary::Pos
        } else {
            Ternary::Neg
        }
    }

    /// Addition in GF(3).
    pub open spec fn sum3(a: Ternary, b: Ternary) -> Ternary {
        Ternary::from_gf3(a.gf3() + b.gf3())
    }

    /// Subtraction in GF(3).
    pub open spec fn diff3(a: Ternary, b: Ternary) -> Ternary {
        Ternary::from_gf3(a.gf3() - b.gf3())
    }

    /// The symbol with the opposite sign, which is also the additive inverse in GF(3).
    pub open spec fn negated(self) -> Ternary {
        match self {
            Ternary::Neg => Ternary::Pos,
            Ternary::Zero => Ternary::Zero,
            Ternary::Pos => Ternary::Neg,
        }
    }

    /// Reads a signed byte as a symbol; only -1, 0 and 1 are symbols.
    pub fn from_i8(v: i8) -> (res: Option<Self>)
        ensures
            (-1 <= v <= 1) <==> res is Some,
            res matches Some(t) ==> t.value() == v,
    {
        match v {
            -1 => Some(Ternary::Neg),
            0 => Some(Ternary::Zero),
            1 => Some(Ternary::Pos),
            _ => None,
        }
    }

    /// The signed value of the symbol as a byte.
    pub fn to_i8(self) -> (res: i8)
        ensures
            res == self.value(),
    {
        match self {
            Ternary::Neg => -1,
            Ternary::Zero => 0,
            Ternary::Pos => 1,
        }
    }

    /// Ternary addition mod 3. Maps Ternary to GF(3): Neg->2, Zero->0, Pos->1.
    pub fn add_mod3(a: Ternary, b: Ternary) -> (res: Ternary)
        ensures
            res == Ternary::sum3(a, b),
            res.gf3() == (a.gf3() + b.gf3()) % 3,
    {
        let va: i32 = match a {
            Ternary::Neg => 2,
            Ternary::Zero => 0,
            Ternary::Pos => 1,
        };
        let vb: i32 = match b {
            Ternary::Neg => 2,
            Ternary::Zero => 0,
            Ternary::Pos => 1,
        };
        match (va + vb) % 3 {
            0 => Ternary::Zero,
            1 => Ternary::Pos,
            _ => Ternary::Neg,
        }
    }

    /// Ternary subtraction mod 3: a - b (mod 3).
    pub fn sub_mod3(a: Ternary, b: Ternary) -> (res: Ternary)
        ensures
            res == Ternary::diff3(a, b),
            res.gf3() == (a.gf3() - b.gf3()) % 3,
    {
        let va: i32 = match a {
            Ternary::Neg => 2,
            Ternary::Zero => 0,
            Ternary::Pos => 1,
        };
        let vb: i32 = match b {
            Ternary::Neg => 2,
            Ternary::Zero => 0,
            Ternary::Pos => 1,
        };
        match ((va - vb) % 3 + 3) % 3 {
            0 => Ternary::Zero,
            1 => Ternary::Pos,
            _ => Ternary::Neg,
        }
    }
}

impl core::ops::Neg for Ternary {
    type Output = Self;

    fn neg(self) -> (res: Self) {
        match self {
            Ternary::Neg => Ternary::Pos,
            Ternary::Zero => Ternary::Zero,
            Ternary::Pos => Ternary::Neg,
        }
    }
}

impl vstd::std_specs::ops::NegSpecImpl for Ternary {
    open spec fn obeys_neg_spec() -> bool {
        true
    }

    open spec fn neg_req(self) -> bool {
        true
    }

    open spec fn neg_spec(self) -> Ternary {
        self.negated()
    }
}

/// Each symbol is determined by its signed value, which lies in -1..=1, so that
/// reading back the byte that `to_i8` gives yields the same symbol.
pub proof fn lemma_value_roundtrip(t: Ternary)
    ensures
        -1 <= t.value() <= 1,
        forall|u: Ternary| u.value() == t.value() ==> u == t,
{
}

/// Each symbol is determined by its GF(3) element, and `from_gf3` recovers it.
pub proof fn lemma_gf3_roundtrip(t: Ternary)
    ensures
        0 <= t.gf3() < 3,
        Ternary::from_gf3(t.gf3()) == t,
        forall|u: Ternary| u.gf3() == t.gf3() ==> u == t,
{
}

/// GF(3) addition is commutative.
pub proof fn lemma_sum3_commutative(a: Ternary, b: Ternary)
    ensures
        Ternary::sum3(a, b) == Ternary::sum3(b, a),
{
}

/// GF(3) addition is associative.
pub proof fn lemma_sum3_associative(a: Ternary, b: Ternary, c: Ternary)
    ensures
        Ternary::sum3(Ternary::sum3(a, b), c) == Ternary::sum3(a, Ternary::sum3(b, c)),
{
}

/// Zero is the identity of GF(3) addition.
pub proof fn lemma_sum3_zero(a: Ternary)
    ensures
        Ternary::sum3(a, Ternary::Zero) == a,
        Ternary::sum3(Ternary::Zero, a) == a,
{
}

/// Negation gives the additive inverse: a + (-a) = 0.
pub proof fn lemma_sum3_negated(a: Ternary)
    ensures
        Ternary::sum3(a, a.negated()) == Ternary::Zero,
        a.negated().value() == -a.value(),
        a.negated().negated() == a,
{
}

/// Subtraction is addition of the negation, and undoes addition.
pub proof fn lemma_diff3_sum3(a: Ternary, b: Ternary)
    ensures
        Ternary::diff3(a, b) == Ternary::sum3(a, b.negated()),
        Ternary::sum3(Ternary::diff3(a, b), b) == a,
        Ternary::diff3(Ternary::sum3(a, b), b) == a,
        Ternary::diff3(a, a) == Ternary::Zero,
{
}

} // verus!
