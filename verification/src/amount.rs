use vstd::prelude::*;

use crate::chars::{count_char, first_pos, trim_spec, trim_str};
use crate::decimal::{
    decimal_lt, is_number, number_fits, number_rat, parse_number, Decimal, NumOutcome,
};
use crate::rat::rat_lt;

verus! {

/// A parsed amount argument: one value, or a strictly increasing range.
#[derive(Debug)]
pub enum AmountInput {
    Single(Decimal),
    Range(Decimal, Decimal),
}

impl AmountInput {
    pub open spec fn wf(&self) -> bool {
        match self {
            AmountInput::Single(d) => d.wf(),
            AmountInput::Range(a, b) => a.wf() && b.wf() && rat_lt(a@, b@),
        }
    }
}

/// Which piece of the argument a parse error speaks of.
#[derive(Debug, PartialEq, Eq, Structural, Clone, Copy)]
pub enum Role {
    Value,
    Start,
    End,
}

/// Why an amount argument was rejected; `text` carries the offending piece.
#[derive(Debug)]
pub enum ParseError {
    RangeFormat,
    NotNumeric { role: Role, text: String },
    TooLarge { role: Role, text: String },
    RangeOrder,
}

/// What stands left of the first hyphen.
pub open spec fn left_of(s: Seq<char>) -> Seq<char> {
    s.take(first_pos(s, '-'))
}

/// What stands right of the first hyphen.
pub open spec fn right_of(s: Seq<char>) -> Seq<char> {
    s.skip(first_pos(s, '-') + 1)
}

/// Reads an amount argument: with no hyphen one trimmed number, with one
/// hyphen a trimmed number on each side and the strict order checked, with
/// more hyphens a malformed range. Each outcome is tied to exactly one shape
/// of the input.
pub fn parse_amount(input: &str) -> (r: Result<AmountInput, ParseError>)
    ensures
        ({
            let s = input@;
            let h = count_char(s, '-');
            match r {
                Ok(AmountInput::Single(d)) => h == 0 && is_number(trim_spec(s)) && number_fits(
                    trim_spec(s),
                ) && d.wf() && d@ == number_rat(trim_spec(s)),
                Ok(AmountInput::Range(a, b)) => h == 1 && is_number(trim_spec(left_of(s)))
                    && number_fits(trim_spec(left_of(s))) && is_number(trim_spec(right_of(s)))
                    && number_fits(trim_spec(right_of(s))) && a.wf() && b.wf() && a@ == number_rat(
                    trim_spec(left_of(s)),
                ) && b@ == number_rat(trim_spec(right_of(s))) && rat_lt(a@, b@),
                Err(e) => match e {
                    ParseError::RangeFormat => h >= 2,
                    ParseError::NotNumeric { role, text } => match role {
                        Role::Value => h == 0 && !is_number(trim_spec(s)) && text@ == s,
                        Role::Start => h == 1 && !is_number(trim_spec(left_of(s))) && text@
                            == left_of(s),
                        Role::End => h == 1 && is_number(trim_spec(left_of(s))) && number_fits(
                            trim_spec(left_of(s)),
                        ) && !is_number(trim_spec(right_of(s))) && text@ == right_of(s),
                    },
                    ParseError::TooLarge { role, text } => match role {
                        Role::Value => h == 0 && is_number(trim_spec(s)) && !number_fits(
                            trim_spec(s),
                        ) && text@ == s,
                        Role::Start => h == 1 && is_number(trim_spec(left_of(s))) && !number_fits(
                            trim_spec(left_of(s)),
                        ) && text@ == left_of(s),
                        Role::End => h == 1 && is_number(trim_spec(left_of(s))) && number_fits(
                            trim_spec(left_of(s)),
                        ) && is_number(trim_spec(right_of(s))) && !number_fits(
                            trim_spec(right_of(s)),
                        ) && text@ == right_of(s),
                    },
                    ParseError::RangeOrder => h == 1 && is_number(trim_spec(left_of(s)))
                        && number_fits(trim_spec(left_of(s))) && is_number(trim_spec(right_of(s)))
                        && number_fits(trim_spec(right_of(s))) && !rat_lt(
                        number_rat(trim_spec(left_of(s))),
                        number_rat(trim_spec(right_of(s))),
                    ),
                },
            }
        }),
{
    let (h, fpos) = crate::chars::scan_hyphens(input);
    if h == 0 {
        let t = trim_str(input);
        match parse_number(t) {
            NumOutcome::Value(d) => Ok(AmountInput::Single(d)),
            NumOutcome::NotNumeric => Err(
                ParseError::NotNumeric { role: Role::Value, text: String::from_str(input) },
            ),
            NumOutcome::TooBig => Err(
                ParseError::TooLarge { role: Role::Value, text: String::from_str(input) },
            ),
        }
    } else if h == 1 {
        let n = input.unicode_len();
        let left = input.substring_char(0, fpos);
        let right = input.substring_char(fpos + 1, n);
        proof {
            assert(left@ =~= left_of(input@));
            assert(right@ =~= right_of(input@));
        }
        let lt = trim_str(left);
        match parse_number(lt) {
            NumOutcome::NotNumeric => Err(
                ParseError::NotNumeric { role: Role::Start, text: String::from_str(left) },
            ),
            NumOutcome::TooBig => Err(
                ParseError::TooLarge { role: Role::Start, text: String::from_str(left) },
            ),
            NumOutcome::Value(a) => {
                let rt = trim_str(right);
                match parse_number(rt) {
                    NumOutcome::NotNumeric => Err(
                        ParseError::NotNumeric { role: Role::End, text: String::from_str(right) },
                    ),
                    NumOutcome::TooBig => Err(
                        ParseError::TooLarge { role: Role::End, text: String::from_str(right) },
                    ),
                    NumOutcome::Value(b) => {
                        if decimal_lt(&a, &b) {
                            Ok(AmountInput::Range(a, b))
                        } else {
                            Err(ParseError::RangeOrder)
                        }
                    },
                }
            },
        }
    } else {
        Err(ParseError::RangeFormat)
    }
}

/// The opening words of a message that names an offending piece of input.
pub open spec fn role_prefix(role: Role) -> Seq<char> {
    match role {
        Role::Value => "値 '"@,
        Role::Start => "開始値 '"@,
        Role::End => "終了値 '"@,
    }
}

pub open spec fn message_spec(e: ParseError) -> Seq<char> {
    match e {
        ParseError::RangeFormat => "レンジ形式が正しくありません。例: 100-200"@,
        ParseError::NotNumeric { role, text } => role_prefix(role) + text@
            + "' を数値としてパースできません"@,
        ParseError::TooLarge { role, text } => role_prefix(role) + text@
            + "' は大きすぎて扱えません"@,
        ParseError::RangeOrder => "開始値は終了値より小さい必要があります"@,
    }
}

impl ParseError {
    /// The human-readable account of the error, naming the offending input.
    pub fn message(&self) -> (r: String)
        ensures
            r@ == message_spec(*self),
    {
        match self {
            ParseError::RangeFormat => String::from_str(
                "レンジ形式が正しくありません。例: 100-200",
            ),
            ParseError::NotNumeric { role, text } => {
                let mut s = match role {
                    Role::Value => String::from_str("値 '"),
                    Role::Start => String::from_str("開始値 '"),
                    Role::End => String::from_str("終了値 '"),
                };
                s.append(text.as_str());
                s.append("' を数値としてパースできません");
                s
            },
            ParseError::TooLarge { role, text } => {
                let mut s = match role {
                    Role::Value => String::from_str("値 '"),
                    Role::Start => String::from_str("開始値 '"),
                    Role::End => String::from_str("終了値 '"),
                };
                s.append(text.as_str());
                s.append("' は大きすぎて扱えません");
                s
            },
            ParseError::RangeOrder => String::from_str(
                "開始値は終了値より小さい必要があります",
            ),
        }
    }
}

} // verus!
