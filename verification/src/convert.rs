use vstd::prelude::*;

use crate::amount::AmountInput;
use crate::decimal::{pow10_u64, Decimal, MANTISSA_LIMIT, SCALE_LIMIT};
use crate::rat::{
    lemma_pow10_12, lemma_pow10_le, lemma_pow10_pos, pow10, rat_div, rat_eq, rat_mul, Rat,
};

verus! {

/// A bound that every conversion result stays under, so that rounding to
/// hundredths can be computed without overflow.
pub const PART_LIMIT: u128 = 1000000000000000000000000000000;

/// An exact non-negative rational result of a conversion.
#[derive(Debug, Clone, Copy, PartialEq, Eq, Structural)]
pub struct Rational {
    pub num: u128,
    pub den: u128,
}

impl Rational {
    pub open spec fn wf(&self) -> bool {
        0 < self.den <= PART_LIMIT && self.num <= PART_LIMIT
    }
}

impl View for Rational {
    type V = Rat;

    open spec fn view(&self) -> Rat {
        Rat { num: self.num as int, den: self.den as int }
    }
}

/// Which way one run converts.
#[derive(Debug, PartialEq, Eq, Structural, Clone, Copy)]
pub enum Direction {
    UsdToJpy,
    JpyToUsd,
}

/// Dollars to yen is one exact multiplication by the rate.
pub fn convert_usd_to_jpy(amount: &Decimal, rate: &Decimal) -> (r: Rational)
    requires
        amount.wf(),
        rate.wf(),
    ensures
        r.wf(),
        r@ == rat_mul(amount@, rate@),
{
    proof {
        lemma_bounds(amount, rate);
    }
    let pa = pow10_u64(amount.scale);
    let pr = pow10_u64(rate.scale);
    Rational {
        num: (amount.mantissa as u128) * (rate.mantissa as u128),
        den: (pa as u128) * (pr as u128),
    }
}

/// Yen to dollars is one exact division by the rate, kept as a fraction.
pub fn convert_jpy_to_usd(amount: &Decimal, rate: &Decimal) -> (r: Rational)
    requires
        amount.wf(),
        rate.wf(),
        rate.mantissa > 0,
    ensures
        r.wf(),
        r@ == rat_div(amount@, rate@),
{
    proof {
        lemma_bounds(amount, rate);
    }
    let pa = pow10_u64(amount.scale);
    let pr = pow10_u64(rate.scale);
    let v = Rational {
        num: (amount.mantissa as u128) * (pr as u128),
        den: (rate.mantissa as u128) * (pa as u128),
    };
    proof {
        assert(pr as int == pow10(rate.scale as int));
        assert(pa as int == pow10(amount.scale as int));
        assert(v@.num == (amount.mantissa as int) * (pr as int));
        assert(v@.den == (rate.mantissa as int) * (pa as int));
        assert(v@.num == rat_div(amount@, rate@).num);
        assert((rate.mantissa as int) * (pa as int) == (pa as int) * (rate.mantissa as int))
            by (nonlinear_arith);
        assert(v@.den == rat_div(amount@, rate@).den);
    }
    v
}

proof fn lemma_bounds(a: &Decimal, b: &Decimal)
    requires
        a.wf(),
        b.wf(),
    ensures
        0 < pow10(a.scale as int) <= 1000000000000,
        0 < pow10(b.scale as int) <= 1000000000000,
        (a.mantissa as int) * (b.mantissa as int) <= PART_LIMIT,
        (a.mantissa as int) * pow10(b.scale as int) <= PART_LIMIT,
        (b.mantissa as int) * pow10(a.scale as int) <= PART_LIMIT,
        0 < pow10(a.scale as int) * pow10(b.scale as int) <= PART_LIMIT,
        a.mantissa > 0 ==> (a.mantissa as int) * pow10(b.scale as int) > 0,
        b.mantissa > 0 ==> (b.mantissa as int) * pow10(a.scale as int) > 0,
{
    lemma_pow10_pos(a.scale as int);
    lemma_pow10_pos(b.scale as int);
    lemma_pow10_le(a.scale as int, SCALE_LIMIT as int);
    lemma_pow10_le(b.scale as int, SCALE_LIMIT as int);
    lemma_pow10_12();
    let pa = pow10(a.scale as int);
    let pb = pow10(b.scale as int);
    assert((a.mantissa as int) * (b.mantissa as int) <= PART_LIMIT && (a.mantissa as int) * pb
        <= PART_LIMIT && (b.mantissa as int) * pa <= PART_LIMIT && 0 < pa * pb <= PART_LIMIT && (
    a.mantissa > 0 ==> (a.mantissa as int) * pb > 0) && (b.mantissa > 0 ==> (b.mantissa as int)
        * pa > 0)) by (nonlinear_arith)
        requires
            0 <= (a.mantissa as int) < MANTISSA_LIMIT,
            0 <= (b.mantissa as int) < MANTISSA_LIMIT,
            0 < pa <= 1000000000000,
            0 < pb <= 1000000000000,
    ;
}

/// An element-wise conversion result: the shape of the amount is kept.
#[derive(Debug)]
pub enum Converted {
    Single(Rational),
    Range(Rational, Rational),
}

/// The conversion engine: applies the rate to each value of the amount,
/// multiplying for dollars to yen and dividing for yen to dollars.
pub fn convert_amount(amount: &AmountInput, rate: &Decimal, dir: Direction) -> (r: Converted)
    requires
        amount.wf(),
        rate.wf(),
        rate.mantissa > 0,
    ensures
        match (amount, r) {
            (AmountInput::Single(d), Converted::Single(v)) => v.wf() && v@ == (
            if dir == Direction::UsdToJpy {
                rat_mul(d@, rate@)
            } else {
                rat_div(d@, rate@)
            }),
            (AmountInput::Range(a, b), Converted::Range(va, vb)) => va.wf() && vb.wf() && va@ == (
            if dir == Direction::UsdToJpy {
                rat_mul(a@, rate@)
            } else {
                rat_div(a@, rate@)
            }) && vb@ == (if dir == Direction::UsdToJpy {
                rat_mul(b@, rate@)
            } else {
                rat_div(b@, rate@)
            }),
            _ => false,
        },
{
    match amount {
        AmountInput::Single(d) => Converted::Single(
            match dir {
                Direction::UsdToJpy => convert_usd_to_jpy(d, rate),
                Direction::JpyToUsd => convert_jpy_to_usd(d, rate),
            },
        ),
        AmountInput::Range(a, b) => {
            let va = match dir {
                Direction::UsdToJpy => convert_usd_to_jpy(a, rate),
                Direction::JpyToUsd => convert_jpy_to_usd(a, rate),
            };
            let vb = match dir {
                Direction::UsdToJpy => convert_usd_to_jpy(b, rate),
                Direction::JpyToUsd => convert_jpy_to_usd(b, rate),
            };
            Converted::Range(va, vb)
        },
    }
}

/// Conversion is a linear scaling, and scaling there and back is the
/// identity: converting an amount to yen at a positive rate and the result
/// back to dollars yields the original amount, as an exact rational.
pub proof fn lemma_round_trip(a: Rat, r: Rat)
    requires
        a.den > 0,
        r.den > 0,
        r.num > 0,
    ensures
        rat_eq(rat_div(rat_mul(a, r), r), a),
{
    let m = rat_mul(a, r);
    let d = rat_div(m, r);
    assert(d.num * a.den == a.num * d.den) by (nonlinear_arith)
        requires
            d.num == (a.num * r.num) * r.den,
            d.den == (a.den * r.den) * r.num,
    ;
}

/// The same both ways round: a yen amount divided by a positive rate and
/// multiplied back is the original amount, as an exact rational.
pub proof fn lemma_round_trip_back(a: Rat, r: Rat)
    requires
        a.den > 0,
        r.den > 0,
        r.num > 0,
    ensures
        rat_eq(rat_mul(rat_div(a, r), r), a),
{
    let d = rat_div(a, r);
    let m = rat_mul(d, r);
    assert(m.num * a.den == a.num * m.den) by (nonlinear_arith)
        requires
            m.num == (a.num * r.den) * r.num,
            m.den == (a.den * r.num) * r.den,
    ;
}

/// The number of hundredths in `x`, rounded half away from zero.
pub open spec fn cents_val(x: Rat) -> int {
    (200 * x.num + x.den) / (2 * x.den)
}

/// The value times one hundred, rounded half away from zero to the nearest
/// whole number of hundredths.
pub fn cents_of(r: &Rational) -> (c: u128)
    requires
        r.wf(),
    ensures
        c == cents_val(r@),
{
    (200 * r.num + r.den) / (2 * r.den)
}

} // verus!
