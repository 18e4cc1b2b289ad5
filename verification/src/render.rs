use vstd::prelude::*;

use chrono::{Datelike, Timelike};

use crate::convert::{cents_val, Rational};
use crate::decimal::{pow10_u64, Decimal};
use crate::rat::{lemma_pow10_pos, pow10, Rat};

verus! {

/// The character for one decimal digit.
pub open spec fn digit_char(d: int) -> char {
    if d == 0 {
        '0'
    } else if d == 1 {
        '1'
    } else if d == 2 {
        '2'
    } else if d == 3 {
        '3'
    } else if d == 4 {
        '4'
    } else if d == 5 {
        '5'
    } else if d == 6 {
        '6'
    } else if d == 7 {
        '7'
    } else if d == 8 {
        '8'
    } else {
        '9'
    }
}

/// The decimal digits of `n`, most significant first.
pub open spec fn digits_seq(n: int) -> Seq<char>
    decreases n,
{
    if n < 10 {
        seq![digit_char(n)]
    } else {
        digits_seq(n / 10).push(digit_char(n % 10))
    }
}

/// Exactly `sc` digits of a fraction, leading zeros kept.
pub open spec fn frac_seq(fr: int, sc: int) -> Seq<char>
    decreases sc,
{
    if sc <= 0 {
        Seq::<char>::empty()
    } else {
        frac_seq(fr / 10, sc - 1).push(digit_char(fr % 10))
    }
}

/// A fraction with its trailing zeros dropped.
pub open spec fn strip_zeros(f: Seq<char>) -> Seq<char>
    decreases f.len(),
{
    if f.len() > 0 && f.last() == '0' {
        strip_zeros(f.drop_last())
    } else {
        f
    }
}

/// How a `Decimal` is displayed: the whole part, then the fraction without
/// trailing zeros, and no point at all when the fraction is empty.
pub open spec fn decimal_seq(m: int, sc: int) -> Seq<char> {
    let f = strip_zeros(frac_seq(m % pow10(sc), sc));
    if f.len() == 0 {
        digits_seq(m / pow10(sc))
    } else {
        digits_seq(m / pow10(sc)) + seq!['.'] + f
    }
}

/// A count of hundredths displayed with exactly two decimal places.
pub open spec fn money_seq(c: int) -> Seq<char> {
    digits_seq(c / 100) + seq!['.'] + seq![digit_char((c / 10) % 10), digit_char(c % 10)]
}

fn push_digit(s: &mut String, d: u64)
    requires
        d < 10,
    ensures
        final(s)@ == old(s)@.push(digit_char(d as int)),
{
    proof {
        reveal_strlit("0");
        reveal_strlit("1");
        reveal_strlit("2");
        reveal_strlit("3");
        reveal_strlit("4");
        reveal_strlit("5");
        reveal_strlit("6");
        reveal_strlit("7");
        reveal_strlit("8");
        reveal_strlit("9");
    }
    if d == 0 {
        s.append("0");
    } else if d == 1 {
        s.append("1");
    } else if d == 2 {
        s.append("2");
    } else if d == 3 {
        s.append("3");
    } else if d == 4 {
        s.append("4");
    } else if d == 5 {
        s.append("5");
    } else if d == 6 {
        s.append("6");
    } else if d == 7 {
        s.append("7");
    } else if d == 8 {
        s.append("8");
    } else {
        s.append("9");
    }
    proof {
        assert(final(s)@ =~= old(s)@.push(digit_char(d as int)));
    }
}

pub fn push_u64(s: &mut String, n: u64)
    ensures
        final(s)@ == old(s)@ + digits_seq(n as int),
    decreases n,
{
    if n >= 10 {
        push_u64(s, n / 10);
        push_digit(s, n % 10);
        proof {
            assert(final(s)@ =~= old(s)@ + digits_seq(n as int));
        }
    } else {
        push_digit(s, n);
        proof {
            assert(final(s)@ =~= old(s)@ + digits_seq(n as int));
        }
    }
}

fn push_u128(s: &mut String, n: u128)
    ensures
        final(s)@ == old(s)@ + digits_seq(n as int),
    decreases n,
{
    if n >= 10 {
        push_u128(s, n / 10);
        push_digit(s, (n % 10) as u64);
        proof {
            assert(final(s)@ =~= old(s)@ + digits_seq(n as int));
        }
    } else {
        push_digit(s, n as u64);
        proof {
            assert(final(s)@ =~= old(s)@ + digits_seq(n as int));
        }
    }
}

/// Appends a count of hundredths with exactly two decimal places.
fn push_money(s: &mut String, c: u128)
    ensures
        final(s)@ == old(s)@ + money_seq(c as int),
{
    push_u128(s, c / 100);
    proof {
        reveal_strlit(".");
    }
    s.append(".");
    push_digit(s, ((c / 10) % 10) as u64);
    push_digit(s, (c % 10) as u64);
    proof {
        assert(final(s)@ =~= old(s)@ + money_seq(c as int));
    }
}

/// Appends the fraction digits with leading zeros kept.
fn push_frac(s: &mut String, fr: u64, sc: u8)
    ensures
        final(s)@ == old(s)@ + frac_seq(fr as int, sc as int),
    decreases sc,
{
    if sc > 0 {
        push_frac(s, fr / 10, sc - 1);
        push_digit(s, fr % 10);
        proof {
            assert(final(s)@ =~= old(s)@ + frac_seq(fr as int, sc as int));
        }
    } else {
        proof {
            assert(final(s)@ =~= old(s)@ + frac_seq(fr as int, 0));
        }
    }
}

/// Appends a `Decimal` the way a plain number is shown: no trailing
/// fraction zeros, no point when the fraction is empty.
pub fn push_decimal(s: &mut String, d: &Decimal)
    requires
        d.wf(),
    ensures
        final(s)@ == old(s)@ + decimal_seq(d.mantissa as int, d.scale as int),
{
    let p = pow10_u64(d.scale);
    proof {
        lemma_pow10_pos(d.scale as int);
    }
    let ip = d.mantissa / p;
    let fr0 = d.mantissa % p;
    let mut fr = fr0;
    let mut sc = d.scale;
    while sc > 0 && fr % 10 == 0
        invariant
            sc <= d.scale,
            strip_zeros(frac_seq(fr0 as int, d.scale as int)) == strip_zeros(
                frac_seq(fr as int, sc as int),
            ),
        decreases sc,
    {
        proof {
            let f = frac_seq(fr as int, sc as int);
            assert(f.drop_last() =~= frac_seq(fr as int / 10, sc as int - 1));
            assert(f.last() == digit_char(fr as int % 10));
            assert(digit_char(fr as int % 10) == '0');
        }
        fr = fr / 10;
        sc = sc - 1;
    }
    proof {
        if sc > 0 {
            let f = frac_seq(fr as int, sc as int);
            assert(f.last() == digit_char(fr as int % 10));
            assert(f.last() != '0');
            assert(strip_zeros(f) == f);
        }
    }
    push_u64(s, ip);
    if sc > 0 {
        proof {
            reveal_strlit(".");
        }
        s.append(".");
        push_frac(s, fr, sc);
        proof {
            assert(final(s)@ =~= old(s)@ + decimal_seq(d.mantissa as int, d.scale as int));
        }
    } else {
        proof {
            assert(strip_zeros(frac_seq(fr0 as int, d.scale as int)).len() == 0);
            assert(final(s)@ =~= old(s)@ + decimal_seq(d.mantissa as int, d.scale as int));
        }
    }
}

/// One moment of local calendar time, split into plain fields.
#[derive(Debug, Clone, Copy, PartialEq, Eq, Structural)]
pub struct Timestamp {
    pub year: i32,
    pub month: u8,
    pub day: u8,
    pub hour: u8,
    pub minute: u8,
    pub second: u8,
}

impl Timestamp {
    pub open spec fn wf(&self) -> bool {
        1 <= self.month <= 12 && 1 <= self.day <= 31 && self.hour <= 23 && self.minute <= 59
            && self.second <= 59
    }
}

/// Relies on chrono's `Local::now` and its `Datelike`/`Timelike` accessors:
/// the calendar fields of a real clock reading are in range (month 1..=12,
/// day 1..=31, hour below 24, minute and second below 60). Nothing else can
/// be promised of the clock.
#[verifier::external_body]
fn now_local() -> (t: Timestamp)
    ensures
        t.wf(),
{
    let now = chrono::Local::now();
    Timestamp {
        year: now.year(),
        month: now.month() as u8,
        day: now.day() as u8,
        hour: now.hour() as u8,
        minute: now.minute() as u8,
        second: now.second() as u8,
    }
}

/// A number padded to two digits.
pub open spec fn two_seq(n: int) -> Seq<char> {
    seq![digit_char(n / 10), digit_char(n % 10)]
}

/// A year padded to four digits when it has at most four.
pub open spec fn year_seq(y: int) -> Seq<char> {
    if y < 0 {
        seq!['-'] + digits_seq(-y)
    } else if y <= 9999 {
        seq![
            digit_char(y / 1000),
            digit_char((y / 100) % 10),
            digit_char((y / 10) % 10),
            digit_char(y % 10),
        ]
    } else {
        digits_seq(y)
    }
}

/// The timestamp format of the report: Japanese calendar units, then the
/// clock time.
pub open spec fn timestamp_seq(t: Timestamp) -> Seq<char> {
    year_seq(t.year as int) + "年"@ + two_seq(t.month as int) + "月"@ + two_seq(t.day as int)
        + "日 "@ + two_seq(t.hour as int) + ":"@ + two_seq(t.minute as int) + ":"@ + two_seq(
        t.second as int,
    )
}

fn push_two(s: &mut String, n: u64)
    requires
        n <= 99,
    ensures
        final(s)@ == old(s)@ + two_seq(n as int),
{
    push_digit(s, n / 10);
    push_digit(s, n % 10);
    proof {
        assert(final(s)@ =~= old(s)@ + two_seq(n as int));
    }
}

/// Renders one calendar moment in the report's timestamp format.
pub fn format_timestamp(t: &Timestamp) -> (r: String)
    requires
        t.wf(),
    ensures
        r@ == timestamp_seq(*t),
{
    let mut s = String::new();
    let y = t.year;
    if y < 0 {
        proof {
            reveal_strlit("-");
        }
        s.append("-");
        let abs: u64 = (-(y as i64)) as u64;
        push_u64(&mut s, abs);
        proof {
            assert(s@ =~= year_seq(y as int));
        }
    } else if y <= 9999 {
        let yy = y as u64;
        push_digit(&mut s, yy / 1000);
        push_digit(&mut s, (yy / 100) % 10);
        push_digit(&mut s, (yy / 10) % 10);
        push_digit(&mut s, yy % 10);
        proof {
            assert(s@ =~= year_seq(y as int));
        }
    } else {
        push_u64(&mut s, y as u64);
        proof {
            assert(s@ =~= year_seq(y as int));
        }
    }
    s.append("年");
    push_two(&mut s, t.month as u64);
    s.append("月");
    push_two(&mut s, t.day as u64);
    s.append("日 ");
    push_two(&mut s, t.hour as u64);
    s.append(":");
    push_two(&mut s, t.minute as u64);
    s.append(":");
    push_two(&mut s, t.second as u64);
    proof {
        assert(s@ =~= timestamp_seq(*t));
    }
    s
}

/// The current local clock reading, well-formed but otherwise unknown.
pub fn current_timestamp() -> (t: Timestamp)
    ensures
        t.wf(),
{
    now_local()
}

/// The rate banner line: one dollar in yen, to two decimal places.
pub fn rate_line(rate: &Decimal) -> (r: String)
    requires
        rate.wf(),
    ensures
        r@ == "💱 現在のレート: 1 USD = "@ + money_seq(cents_val(rate@)) + " JPY"@,
{
    let p = pow10_u64(rate.scale);
    proof {
        lemma_pow10_pos(rate.scale as int);
    }
    let v = Rational { num: rate.mantissa as u128, den: p as u128 };
    let c = crate::convert::cents_of(&v);
    let mut s = String::from_str("💱 現在のレート: 1 USD = ");
    push_money(&mut s, c);
    s.append(" JPY");
    proof {
        assert(s@ =~= "💱 現在のレート: 1 USD = "@ + money_seq(cents_val(rate@)) + " JPY"@);
    }
    s
}

/// The single-value conversion line, dollars to yen.
pub fn usd_single_line(amount: &Decimal, yen: &Rational) -> (r: String)
    requires
        amount.wf(),
        yen.wf(),
    ensures
        r@ == "💵 "@ + decimal_seq(amount.mantissa as int, amount.scale as int) + " USD → 💴 "@
            + money_seq(cents_val(yen@)) + " JPY"@,
{
    let c = crate::convert::cents_of(yen);
    let mut s = String::from_str("💵 ");
    push_decimal(&mut s, amount);
    s.append(" USD → 💴 ");
    push_money(&mut s, c);
    s.append(" JPY");
    proof {
        assert(s@ =~= "💵 "@ + decimal_seq(amount.mantissa as int, amount.scale as int)
            + " USD → 💴 "@ + money_seq(cents_val(yen@)) + " JPY"@);
    }
    s
}

/// The range conversion line, dollars to yen.
pub fn usd_range_line(a: &Decimal, b: &Decimal, ya: &Rational, yb: &Rational) -> (r: String)
    requires
        a.wf(),
        b.wf(),
        ya.wf(),
        yb.wf(),
    ensures
        r@ == "💵 "@ + decimal_seq(a.mantissa as int, a.scale as int) + " - "@ + decimal_seq(
            b.mantissa as int,
            b.scale as int,
        ) + " USD → 💴 "@ + money_seq(cents_val(ya@)) + " - "@ + money_seq(cents_val(yb@))
            + " JPY"@,
{
    let ca = crate::convert::cents_of(ya);
    let cb = crate::convert::cents_of(yb);
    let mut s = String::from_str("💵 ");
    push_decimal(&mut s, a);
    s.append(" - ");
    push_decimal(&mut s, b);
    s.append(" USD → 💴 ");
    push_money(&mut s, ca);
    s.append(" - ");
    push_money(&mut s, cb);
    s.append(" JPY");
    proof {
        assert(s@ =~= "💵 "@ + decimal_seq(a.mantissa as int, a.scale as int) + " - "@
            + decimal_seq(b.mantissa as int, b.scale as int) + " USD → 💴 "@ + money_seq(
            cents_val(ya@),
        ) + " - "@ + money_seq(cents_val(yb@)) + " JPY"@);
    }
    s
}

/// The single-value conversion line, yen to dollars.
pub fn yen_single_line(amount: &Decimal, usd: &Rational) -> (r: String)
    requires
        amount.wf(),
        usd.wf(),
    ensures
        r@ == "💴 "@ + decimal_seq(amount.mantissa as int, amount.scale as int) + " JPY → 💵 "@
            + money_seq(cents_val(usd@)) + " USD"@,
{
    let c = crate::convert::cents_of(usd);
    let mut s = String::from_str("💴 ");
    push_decimal(&mut s, amount);
    s.append(" JPY → 💵 ");
    push_money(&mut s, c);
    s.append(" USD");
    proof {
        assert(s@ =~= "💴 "@ + decimal_seq(amount.mantissa as int, amount.scale as int)
            + " JPY → 💵 "@ + money_seq(cents_val(usd@)) + " USD"@);
    }
    s
}

/// The range conversion line, yen to dollars.
pub fn yen_range_line(a: &Decimal, b: &Decimal, ua: &Rational, ub: &Rational) -> (r: String)
    requires
        a.wf(),
        b.wf(),
        ua.wf(),
        ub.wf(),
    ensures
        r@ == "💴 "@ + decimal_seq(a.mantissa as int, a.scale as int) + " - "@ + decimal_seq(
            b.mantissa as int,
            b.scale as int,
        ) + " JPY → 💵 "@ + money_seq(cents_val(ua@)) + " - "@ + money_seq(cents_val(ub@))
            + " USD"@,
{
    let ca = crate::convert::cents_of(ua);
    let cb = crate::convert::cents_of(ub);
    let mut s = String::from_str("💴 ");
    push_decimal(&mut s, a);
    s.append(" - ");
    push_decimal(&mut s, b);
    s.append(" JPY → 💵 ");
    push_money(&mut s, ca);
    s.append(" - ");
    push_money(&mut s, cb);
    s.append(" USD");
    proof {
        assert(s@ =~= "💴 "@ + decimal_seq(a.mantissa as int, a.scale as int) + " - "@
            + decimal_seq(b.mantissa as int, b.scale as int) + " JPY → 💵 "@ + money_seq(
            cents_val(ua@),
        ) + " - "@ + money_seq(cents_val(ub@)) + " USD"@);
    }
    s
}

} // verus!
