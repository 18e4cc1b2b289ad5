use vstd::prelude::*;

use crate::chars::{
    all_digits, count_char, digit_val, digits_val, first_pos, is_digit, is_digit_char,
    lemma_count_none, lemma_count_single, lemma_digits_val_bounds, lemma_digits_val_prefix,
    lemma_first_pos,
};
use crate::rat::{lemma_pow10_le, lemma_pow10_mul, lemma_pow10_pos, pow10, rat_lt, Rat};

verus! {

/// The largest mantissa a `Decimal` may carry: fifteen decimal digits.
pub const MANTISSA_LIMIT: u64 = 1000000000000000;

/// The largest number of fractional digits a `Decimal` may carry.
pub const SCALE_LIMIT: u8 = 12;

/// A non-negative decimal number held exactly: `mantissa / 10^scale`.
/// Amounts and rates are held in this form, so that parsing and conversion
/// can be stated and checked without rounding.
#[derive(Debug, Clone, Copy, PartialEq, Eq, Structural)]
pub struct Decimal {
    pub mantissa: u64,
    pub scale: u8,
}

impl Decimal {
    pub open spec fn wf(&self) -> bool {
        self.scale <= SCALE_LIMIT && self.mantissa < MANTISSA_LIMIT
    }
}

impl View for Decimal {
    type V = Rat;

    open spec fn view(&self) -> Rat {
        Rat { num: self.mantissa as int, den: pow10(self.scale as int) }
    }
}

/// `s` without one leading plus sign, the sign the number grammar allows.
pub open spec fn strip_plus(s: Seq<char>) -> Seq<char> {
    if s.len() > 0 && s[0] == '+' {
        s.skip(1)
    } else {
        s
    }
}

/// The digits before the decimal point (all of `u` when there is no point).
pub open spec fn int_part(u: Seq<char>) -> Seq<char> {
    if count_char(u, '.') == 0 {
        u
    } else {
        u.take(first_pos(u, '.'))
    }
}

/// The digits after the decimal point (empty when there is no point).
pub open spec fn frac_part(u: Seq<char>) -> Seq<char> {
    if count_char(u, '.') == 0 {
        Seq::<char>::empty()
    } else {
        u.skip(first_pos(u, '.') + 1)
    }
}

/// The number grammar: an optional plus sign, then digits with at most one
/// decimal point and at least one digit somewhere.
pub open spec fn is_number(s: Seq<char>) -> bool {
    let u = strip_plus(s);
    count_char(u, '.') <= 1 && all_digits(int_part(u)) && all_digits(frac_part(u)) && int_part(
        u,
    ).len() + frac_part(u).len() > 0
}

/// The exact rational a well-formed number string denotes.
pub open spec fn number_rat(s: Seq<char>) -> Rat {
    let u = strip_plus(s);
    Rat {
        num: digits_val(int_part(u)) * pow10(frac_part(u).len() as int) + digits_val(frac_part(u)),
        den: pow10(frac_part(u).len() as int),
    }
}

/// Whether the denoted number fits the machine bounds of `Decimal`.
pub open spec fn number_fits(s: Seq<char>) -> bool {
    frac_part(strip_plus(s)).len() <= SCALE_LIMIT && number_rat(s).num < MANTISSA_LIMIT
}

/// What reading a candidate number string can come to.
pub enum NumOutcome {
    Value(Decimal),
    NotNumeric,
    TooBig,
}

/// Ten to the power `e`, as a machine word.
pub fn pow10_u64(e: u8) -> (r: u64)
    requires
        e <= SCALE_LIMIT,
    ensures
        r == pow10(e as int),
{
    let mut r: u64 = 1;
    let mut i: u8 = 0;
    while i < e
        invariant
            0 <= i <= e,
            e <= SCALE_LIMIT,
            r == pow10(i as int),
            r <= 1000000000000,
        decreases e - i,
    {
        proof {
            lemma_pow10_le(i as int + 1, SCALE_LIMIT as int);
            crate::rat::lemma_pow10_12();
        }
        r = r * 10;
        i = i + 1;
    }
    r
}

/// Reads one trimmed candidate number according to the grammar; tells a string
/// that is not a number apart from one whose value does not fit the bounds.
#[verifier::rlimit(100)]
pub fn parse_number(t: &str) -> (r: NumOutcome)
    ensures
        match r {
            NumOutcome::Value(d) => is_number(t@) && number_fits(t@) && d.wf() && d@ == number_rat(
                t@,
            ) && d.scale as int == frac_part(strip_plus(t@)).len(),
            NumOutcome::NotNumeric => !is_number(t@),
            NumOutcome::TooBig => is_number(t@) && !number_fits(t@),
        },
{
    let n = t.unicode_len();
    let start: usize = if n > 0 && t.get_char(0) == '+' {
        1
    } else {
        0
    };
    let ghost u = strip_plus(t@);
    proof {
        assert(u =~= t@.skip(start as int));
    }
    // First pass: check the shape, find the decimal point.
    let mut i: usize = start;
    let mut dot: Option<usize> = None;
    let mut digit_count: usize = 0;
    while i < n
        invariant
            start <= i <= n,
            n == t@.len(),
            u == strip_plus(t@),
            u == t@.skip(start as int),
            match dot {
                Some(d) => start <= d < i && t@[d as int] == '.' && (forall|j: int|
                    start <= j < i && j != d ==> t@[j] != '.'),
                None => forall|j: int| start <= j < i ==> t@[j] != '.',
            },
            forall|j: int|
                start <= j < i ==> (t@[j] == '.' || is_digit(#[trigger] t@[j])),
            digit_count == i - start - (if dot.is_some() {
                1int
            } else {
                0int
            }),
        decreases n - i,
    {
        let c = t.get_char(i);
        if is_digit_char(c) {
            digit_count = digit_count + 1;
        } else if c == '.' {
            match dot {
                Some(d0) => {
                    proof {
                        assert(u[d0 - start] == '.');
                        assert(u[i - start] == '.');
                        assert(count_char(u, '.') >= 2) by {
                            lemma_count_two(u, d0 - start, i - start);
                        }
                    }
                    return NumOutcome::NotNumeric;
                },
                None => {
                    dot = Some(i);
                },
            }
        } else {
            proof {
                if is_number(t@) {
                    let k = i - start;
                    assert(u[k] == t@[i as int]);
                    if count_char(u, '.') == 0 {
                        assert(all_digits(int_part(u)));
                        assert(0 <= k < int_part(u).len());
                        assert(is_digit(int_part(u)[k]));
                    } else {
                        let p = first_pos(u, '.');
                        lemma_first_pos_hits(u, '.');
                        assert(u[p] == '.');
                        if k < p {
                            assert(all_digits(int_part(u)));
                            assert(0 <= k < int_part(u).len());
                            assert(int_part(u)[k] == u[k]);
                            assert(is_digit(int_part(u)[k]));
                        } else if k > p {
                            assert(all_digits(frac_part(u)));
                            assert(0 <= k - p - 1 < frac_part(u).len());
                            assert(frac_part(u)[k - p - 1] == u[k]);
                            assert(is_digit(frac_part(u)[k - p - 1]));
                        }
                    }
                }
            }
            return NumOutcome::NotNumeric;
        }
        i = i + 1;
    }
    if digit_count == 0 {
        proof {
            match dot {
                Some(d) => {
                    assert(n - start == 1);
                    assert(d == start);
                    assert(u.len() == 1 && u[0] == '.');
                    lemma_count_single(u, '.', 0);
                    lemma_first_pos(u, '.', 0);
                    assert(int_part(u).len() == 0);
                    assert(frac_part(u) =~= Seq::<char>::empty());
                },
                None => {
                    assert(n == start);
                    assert(u.len() == 0);
                    lemma_count_none(u, '.');
                },
            }
            assert(!is_number(t@));
        }
        return NumOutcome::NotNumeric;
    }
    // The shape is good: record what the spec-level parts are.
    let dend: usize = match dot {
        Some(d) => d,
        None => n,
    };
    proof {
        match dot {
            Some(d) => {
                assert(u[d - start] == '.');
                lemma_count_single(u, '.', d - start);
                lemma_first_pos(u, '.', d - start);
                assert(int_part(u) =~= t@.subrange(start as int, d as int));
                assert(frac_part(u) =~= t@.subrange(d + 1, n as int));
            },
            None => {
                lemma_count_none(u, '.');
                assert(int_part(u) =~= t@.subrange(start as int, n as int));
            },
        }
        assert(all_digits(int_part(u)));
        assert(all_digits(frac_part(u)));
        assert(is_number(t@));
    }
    if n - dend > 0 && n - dend - 1 > SCALE_LIMIT as usize {
        proof {
            assert(frac_part(u).len() > SCALE_LIMIT);
        }
        return NumOutcome::TooBig;
    }
    let scale: u8 = if dend < n {
        (n - dend - 1) as u8
    } else {
        0
    };
    proof {
        assert(scale as int == frac_part(u).len());
    }
    // Second pass: accumulate the digits.
    let ghost ip = int_part(u);
    let ghost fp = frac_part(u);
    let mut acc: u64 = 0;
    let mut j: usize = start;
    while j < dend
        invariant
            start <= j <= dend <= n,
            n == t@.len(),
            u == strip_plus(t@),
            u == t@.skip(start as int),
            ip == int_part(u),
            fp == frac_part(u),
            ip =~= t@.subrange(start as int, dend as int),
            all_digits(ip),
            all_digits(fp),
            is_number(t@),
            number_fits(t@) ==> number_rat(t@).num < MANTISSA_LIMIT,
            acc == digits_val(ip.take(j - start)),
            acc < MANTISSA_LIMIT,
        decreases dend - j,
    {
        let c = t.get_char(j);
        proof {
            assert(ip[j - start] == t@[j as int]);
            assert(is_digit(ip[j - start]));
            assert(ip.take(j - start + 1).drop_last() =~= ip.take(j - start));
            assert(ip.take(j - start + 1).last() == ip[j - start]);
        }
        let d: u64 = (c as u32 - 48) as u64;
        proof {
            assert(digit_val(ip[j - start]) == d);
        }
        let nxt: u64 = acc * 10 + d;
        if nxt >= MANTISSA_LIMIT {
            proof {
                assert(digits_val(ip.take(j - start + 1)) == nxt);
                lemma_digits_val_prefix(ip, j - start + 1);
                lemma_digits_val_bounds(fp);
                lemma_pow10_pos(fp.len() as int);
                let ipv = digits_val(ip);
                assert(ipv * pow10(fp.len() as int) >= ipv * 1) by (nonlinear_arith)
                    requires
                        ipv >= 0,
                        pow10(fp.len() as int) >= 1,
                ;
                assert(number_rat(t@).num >= MANTISSA_LIMIT);
            }
            return NumOutcome::TooBig;
        }
        acc = nxt;
        j = j + 1;
    }
    proof {
        assert(ip.take(dend - start) =~= ip);
    }
    // Fractional digits, if any.
    if dend < n {
        let mut k: usize = dend + 1;
        while k < n
            invariant
                dend < n,
                dend + 1 <= k <= n,
                n == t@.len(),
                u == strip_plus(t@),
                u == t@.skip(start as int),
                start <= dend,
                ip == int_part(u),
                fp == frac_part(u),
                fp =~= t@.subrange(dend + 1, n as int),
                all_digits(ip),
                all_digits(fp),
                is_number(t@),
                acc == digits_val(ip) * pow10(k - dend - 1) + digits_val(fp.take(k - dend - 1)),
                acc < MANTISSA_LIMIT,
            decreases n - k,
        {
            let c = t.get_char(k);
            proof {
                assert(fp[k - dend - 1] == t@[k as int]);
                assert(is_digit(fp[k - dend - 1]));
                assert(fp.take(k - dend).drop_last() =~= fp.take(k - dend - 1));
                assert(fp.take(k - dend).last() == fp[k - dend - 1]);
            }
            let d: u64 = (c as u32 - 48) as u64;
            proof {
                assert(digit_val(fp[k - dend - 1]) == d);
            }
            let nxt: u64 = acc * 10 + d;
            proof {
                let a = digits_val(ip);
                let p = pow10(k - dend - 1);
                let f = digits_val(fp.take(k - dend - 1));
                let dv = digit_val(fp[k - dend - 1]);
                assert((a * p + f) * 10 + dv == a * (p * 10) + (f * 10 + dv)) by (nonlinear_arith);
                assert(pow10(k - dend) == 10 * pow10(k - dend - 1));
                assert(nxt == a * pow10(k - dend) + digits_val(fp.take(k - dend)));
            }
            if nxt >= MANTISSA_LIMIT {
                proof {
                    lemma_trailing_digits_grow(ip, fp, k - dend);
                    lemma_pow10_pos(fp.len() - (k - dend));
                    let v = digits_val(ip) * pow10(k - dend) + digits_val(fp.take(k - dend));
                    let pr = pow10(fp.len() - (k - dend));
                    assert(v * pr >= v) by (nonlinear_arith)
                        requires
                            v >= 0,
                            pr >= 1,
                    ;
                    assert(number_rat(t@).num >= MANTISSA_LIMIT);
                }
                return NumOutcome::TooBig;
            }
            acc = nxt;
            k = k + 1;
        }
        proof {
            assert(fp.take(n - dend - 1) =~= fp);
        }
    } else {
        proof {
            assert(acc == digits_val(ip.take(dend - start)));
            assert(ip.take(dend - start) =~= ip);
            assert(fp.len() == 0);
            assert(digits_val(fp) == 0);
            assert(pow10(0) == 1);
            assert(acc == digits_val(ip) * pow10(0) + digits_val(fp));
        }
    }
    let d = Decimal { mantissa: acc, scale };
    proof {
        assert(d@ == number_rat(t@));
    }
    NumOutcome::Value(d)
}

/// Two distinct hits mean a count of at least two.
proof fn lemma_count_two(s: Seq<char>, i: int, j: int)
    requires
        0 <= i < j < s.len(),
        s[i] == '.',
        s[j] == '.',
    ensures
        count_char(s, '.') >= 2,
    decreases s.len(),
{
    if j == s.len() - 1 {
        lemma_count_hit(s.drop_last(), i);
    } else {
        lemma_count_two(s.drop_last(), i, j);
    }
}

proof fn lemma_count_hit(s: Seq<char>, i: int)
    requires
        0 <= i < s.len(),
        s[i] == '.',
    ensures
        count_char(s, '.') >= 1,
    decreases s.len(),
{
    if i < s.len() - 1 {
        lemma_count_hit(s.drop_last(), i);
    }
}

/// When the point occurs, `first_pos` lands on an occurrence.
proof fn lemma_first_pos_hits(s: Seq<char>, c: char)
    requires
        count_char(s, c) > 0,
    ensures
        0 <= first_pos(s, c) < s.len(),
        s[first_pos(s, c)] == c,
    decreases s.len(),
{
    if s.len() > 0 {
        if s[0] == c {
        } else {
            assert(count_char(s.skip(1), c) > 0) by {
                lemma_count_skip1(s, c);
            }
            lemma_first_pos_hits(s.skip(1), c);
            assert(s[1 + first_pos(s.skip(1), c)] == s.skip(1)[first_pos(s.skip(1), c)]);
        }
    }
}

proof fn lemma_count_skip1(s: Seq<char>, c: char)
    requires
        s.len() > 0,
        s[0] != c,
    ensures
        count_char(s.skip(1), c) == count_char(s, c),
    decreases s.len(),
{
    if s.len() == 1 {
        assert(s.skip(1) =~= Seq::<char>::empty());
        assert(s.drop_last() =~= Seq::<char>::empty());
    } else {
        assert(s.drop_last()[0] == s[0]);
        lemma_count_skip1(s.drop_last(), c);
        assert(s.skip(1).drop_last() =~= s.drop_last().skip(1));
        assert(s.skip(1).last() == s.last());
    }
}

/// A partial read of the fraction already bounds the whole mantissa from below.
proof fn lemma_trailing_digits_grow(ip: Seq<char>, fp: Seq<char>, m: int)
    requires
        all_digits(ip),
        all_digits(fp),
        0 < m <= fp.len(),
    ensures
        digits_val(ip) * pow10(fp.len() as int) + digits_val(fp) >= (digits_val(ip) * pow10(m)
            + digits_val(fp.take(m))) * pow10(fp.len() - m),
{
    let rest = fp.len() - m;
    lemma_digits_split(fp, m);
    lemma_digits_val_bounds(fp.skip(m));
    lemma_pow10_pos(rest);
    let a = digits_val(ip);
    let p = pow10(fp.len() as int);
    let pm = pow10(m);
    let pr = pow10(rest);
    lemma_pow10_mul(m, rest);
    assert(a * p + digits_val(fp) == (a * pm + digits_val(fp.take(m))) * pr + digits_val(
        fp.skip(m),
    )) by (nonlinear_arith)
        requires
            p == pm * pr,
            digits_val(fp) == digits_val(fp.take(m)) * pr + digits_val(fp.skip(m)),
    ;
    assert(digits_val(fp.skip(m)) >= 0);
}

/// Splitting a digit string splits its value by a power of ten.
proof fn lemma_digits_split(s: Seq<char>, m: int)
    requires
        0 <= m <= s.len(),
    ensures
        digits_val(s) == digits_val(s.take(m)) * pow10(s.len() - m) + digits_val(s.skip(m)),
    decreases s.len(),
{
    if m == s.len() {
        assert(s.take(m) =~= s);
        assert(s.skip(m) =~= Seq::<char>::empty());
        assert(digits_val(s) == digits_val(s.take(m)) * 1 + 0);
    } else {
        let t = s.drop_last();
        lemma_digits_split(t, m);
        assert(t.take(m) =~= s.take(m));
        assert(t.skip(m) =~= s.skip(m).drop_last());
        assert(s.skip(m).last() == s.last());
        assert(s.skip(m).len() > 0);
        let a = digits_val(s.take(m));
        let p = pow10(s.len() - 1 - m);
        let f = digits_val(s.skip(m).drop_last());
        let d = digit_val(s.last());
        assert(digits_val(s) == (a * p + f) * 10 + d);
        assert(digits_val(s.skip(m)) == f * 10 + d);
        assert((a * p + f) * 10 + d == a * (10 * p) + (f * 10 + d)) by (nonlinear_arith);
        assert(pow10(s.len() - m) == 10 * p);
    }
}

/// Strict order on decimals, decided exactly by cross-multiplication.
pub fn decimal_lt(a: &Decimal, b: &Decimal) -> (r: bool)
    requires
        a.wf(),
        b.wf(),
    ensures
        r == rat_lt(a@, b@),
{
    proof {
        lemma_pow10_le(a.scale as int, SCALE_LIMIT as int);
        lemma_pow10_le(b.scale as int, SCALE_LIMIT as int);
        lemma_pow10_pos(a.scale as int);
        lemma_pow10_pos(b.scale as int);
        crate::rat::lemma_pow10_12();
    }
    let pa = pow10_u64(a.scale);
    let pb = pow10_u64(b.scale);
    proof {
        assert((a.mantissa as int) * (pb as int) < 1000000000000000int * 1000000000000000int)
            by (nonlinear_arith)
            requires
                0 <= (a.mantissa as int) < 1000000000000000int,
                0 <= (pb as int) <= 1000000000000int,
        ;
        assert((b.mantissa as int) * (pa as int) < 1000000000000000int * 1000000000000000int)
            by (nonlinear_arith)
            requires
                0 <= (b.mantissa as int) < 1000000000000000int,
                0 <= (pa as int) <= 1000000000000int,
        ;
    }
    let lhs: u128 = (a.mantissa as u128) * (pb as u128);
    let rhs: u128 = (b.mantissa as u128) * (pa as u128);
    lhs < rhs
}

} // verus!
