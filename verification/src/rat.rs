use vstd::prelude::*;

verus! {

/// A mathematical rational number, kept as an unreduced fraction.
/// Contracts in this crate speak of amounts and rates through this model;
/// every operation assumes a positive denominator.
pub struct Rat {
    pub num: int,
    pub den: int,
}

/// Ten to the power `e` (1 for `e <= 0`).
pub open spec fn pow10(e: int) -> int
    decreases e,
{
    if e <= 0 {
        1
    } else {
        10 * pow10(e - 1)
    }
}

pub open spec fn rat_eq(x: Rat, y: Rat) -> bool {
    x.num * y.den == y.num * x.den
}

pub open spec fn rat_lt(x: Rat, y: Rat) -> bool {
    x.num * y.den < y.num * x.den
}

pub open spec fn rat_mul(x: Rat, y: Rat) -> Rat {
    Rat { num: x.num * y.num, den: x.den * y.den }
}

pub open spec fn rat_div(x: Rat, y: Rat) -> Rat {
    Rat { num: x.num * y.den, den: x.den * y.num }
}

pub proof fn lemma_pow10_pos(e: int)
    ensures
        pow10(e) >= 1,
    decreases e,
{
    if e > 0 {
        lemma_pow10_pos(e - 1);
    }
}

pub proof fn lemma_pow10_le(a: int, b: int)
    requires
        a <= b,
    ensures
        pow10(a) <= pow10(b),
    decreases b,
{
    if b > 0 && a < b {
        lemma_pow10_le(a, b - 1);
        lemma_pow10_pos(b - 1);
    }
}

pub proof fn lemma_pow10_mul(a: int, b: int)
    requires
        a >= 0,
        b >= 0,
    ensures
        pow10(a + b) == pow10(a) * pow10(b),
    decreases a,
{
    if a == 0 {
    } else {
        lemma_pow10_mul(a - 1, b);
        assert(10 * pow10(a - 1 + b) == 10 * (pow10(a - 1) * pow10(b)));
        assert(10 * (pow10(a - 1) * pow10(b)) == (10 * pow10(a - 1)) * pow10(b))
            by (nonlinear_arith);
    }
}

/// The concrete size of the powers of ten that fit the machine types used here.
pub proof fn lemma_pow10_12()
    ensures
        pow10(12) == 1000000000000,
{
    reveal_with_fuel(pow10, 13);
}

} // verus!
