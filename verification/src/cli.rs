use vstd::prelude::*;

use crate::convert::Direction;

verus! {

/// The usage guidance printed when no amount option is given.
pub fn usage_lines() -> (r: Vec<String>)
    ensures
        r@.len() == 4,
        r@[0]@ == "エラー: -d または -y オプションで金額を指定してください"@,
        r@[1]@ == "使用例:"@,
        r@[2]@ == "  ujcon -d 100    # 100ドルを円に変換"@,
        r@[3]@ == "  ujcon -y 10000  # 10000円をドルに変換"@,
{
    let mut v: Vec<String> = Vec::new();
    v.push(String::from_str("エラー: -d または -y オプションで金額を指定してください"));
    v.push(String::from_str("使用例:"));
    v.push(String::from_str("  ujcon -d 100    # 100ドルを円に変換"));
    v.push(String::from_str("  ujcon -y 10000  # 10000円をドルに変換"));
    v
}

/// Settles which way to convert: the two options are mutually exclusive,
/// dollars are examined first, and with neither present there is nothing to
/// do.
pub fn select_input(dollar: Option<String>, yen: Option<String>) -> (r: Option<
    (Direction, String),
>)
    ensures
        match (dollar, r) {
            (Some(d), Some(p)) => p.0 == Direction::UsdToJpy && p.1@ == d@,
            (None, Some(p)) => p.0 == Direction::JpyToUsd && match yen {
                Some(y) => p.1@ == y@,
                None => false,
            },
            (Some(_), None) => false,
            (None, None) => yen.is_none(),
        },
{
    match dollar {
        Some(d) => Some((Direction::UsdToJpy, d)),
        None => match yen {
            Some(y) => Some((Direction::JpyToUsd, y)),
            None => None,
        },
    }
}

} // verus!
