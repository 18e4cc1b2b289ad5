use vstd::prelude::*;

use crate::chars::{
    contains_pat, find_sub, first_pat, num_run_len, scan_number_run, skip_spaces, ws_prefix_len,
};
use crate::decimal::{is_number, number_fits, number_rat, parse_number, Decimal, NumOutcome};
use crate::render::{digits_seq, push_u64};

verus! {

/// Why one endpoint, or the whole fetch, failed.
#[derive(Debug, PartialEq, Eq, Structural, Clone, Copy)]
pub enum FetchError {
    Network,
    HttpStatus(u16),
    Decode,
    AllFailed,
}

/// The rate the injected override supplies, when it is a well-formed
/// number; with it present, no endpoint needs to be asked at all.
pub fn rate_from_override(mock: Option<&str>) -> (r: Option<Decimal>)
    ensures
        match (mock, r) {
            (Some(m), Some(d)) => is_number(m@) && number_fits(m@) && d.wf() && d@ == number_rat(
                m@,
            ),
            (Some(m), None) => !(is_number(m@) && number_fits(m@)),
            (None, None) => true,
            (None, Some(_)) => false,
        },
{
    match mock {
        None => None,
        Some(m) => match parse_number(m) {
            NumOutcome::Value(d) => Some(d),
            NumOutcome::NotNumeric => None,
            NumOutcome::TooBig => None,
        },
    }
}

/// An HTTP status code that counts as success: the 2xx class.
pub fn status_is_success(code: u16) -> (r: bool)
    ensures
        r == (200 <= code && code < 300),
{
    200 <= code && code < 300
}

/// The endpoints asked for the rate, in fallback order.
pub fn endpoint_urls() -> (urls: Vec<&'static str>)
    ensures
        urls@.len() == 2,
        urls@[0]@ == "https://api.exchangerate-api.com/v4/latest/USD"@,
        urls@[1]@ == "https://open.er-api.com/v6/latest/USD"@,
{
    let mut v: Vec<&'static str> = Vec::new();
    v.push("https://api.exchangerate-api.com/v4/latest/USD");
    v.push("https://open.er-api.com/v6/latest/USD");
    v
}

/// When every endpoint has failed, the last concrete error is reported, and
/// with no concrete error at all, the aggregate one.
pub fn summarize_failures(errs: &Vec<FetchError>) -> (r: FetchError)
    ensures
        errs@.len() == 0 ==> r == FetchError::AllFailed,
        errs@.len() > 0 ==> r == errs@.last(),
{
    if errs.len() == 0 {
        FetchError::AllFailed
    } else {
        errs[errs.len() - 1]
    }
}

/// The key that marks the first known body shape.
pub open spec fn conv_key() -> Seq<char> {
    "\"conversion_rates\""@
}

/// The key that marks the second known body shape.
pub open spec fn rates_key() -> Seq<char> {
    "\"rates\""@
}

/// The key of the yen rate field itself.
pub open spec fn jpy_key() -> Seq<char> {
    "\"JPY\""@
}

pub open spec fn has_shape_key(s: Seq<char>) -> bool {
    contains_pat(s, conv_key()) || contains_pat(s, rates_key())
}

/// Where the recognised shape key ends: the first shape is tried first.
pub open spec fn shape_end(s: Seq<char>) -> int {
    if contains_pat(s, conv_key()) {
        first_pat(s, conv_key()) + conv_key().len()
    } else {
        first_pat(s, rates_key()) + rates_key().len()
    }
}

/// The number token that stands after the first yen key following the
/// shape key: blank space, a colon, blank space, then number characters.
pub open spec fn rate_token(s: Seq<char>) -> Option<Seq<char>> {
    if !has_shape_key(s) {
        None
    } else {
        let r = s.skip(shape_end(s));
        if !contains_pat(r, jpy_key()) {
            None
        } else {
            let a = first_pat(r, jpy_key()) + jpy_key().len();
            let w1 = ws_prefix_len(r.skip(a));
            if a + w1 >= r.len() || r[a + w1] != ':' {
                None
            } else {
                let b = a + w1 + 1;
                let t0 = b + ws_prefix_len(r.skip(b));
                Some(r.skip(t0).take(num_run_len(r.skip(t0))))
            }
        }
    }
}

/// Reads the yen rate out of a fetched body in either known shape: under a
/// `conversion_rates` object, or, failing that, under a `rates` object.
pub fn parse_rate_body(body: &str) -> (r: Result<Decimal, FetchError>)
    ensures
        match r {
            Ok(d) => match rate_token(body@) {
                Some(t) => is_number(t) && number_fits(t) && d.wf() && d@ == number_rat(t),
                None => false,
            },
            Err(e) => e == FetchError::Decode && match rate_token(body@) {
                Some(t) => !(is_number(t) && number_fits(t)),
                None => true,
            },
        },
{
    let n = body.unicode_len();
    let key1 = "\"conversion_rates\"";
    let key2 = "\"rates\"";
    let keyj = "\"JPY\"";
    let kend: usize = match find_sub(body, key1) {
        Some(i) => i + key1.unicode_len(),
        None => match find_sub(body, key2) {
            Some(i) => i + key2.unicode_len(),
            None => {
                return Err(FetchError::Decode);
            },
        },
    };
    proof {
        assert(kend as int == shape_end(body@));
    }
    let region = body.substring_char(kend, n);
    proof {
        assert(region@ =~= body@.skip(kend as int));
    }
    let m = region.unicode_len();
    let jpos: usize = match find_sub(region, keyj) {
        Some(j) => j,
        None => {
            return Err(FetchError::Decode);
        },
    };
    let a = jpos + keyj.unicode_len();
    let c1 = skip_spaces(region, a);
    if c1 >= m {
        return Err(FetchError::Decode);
    }
    if region.get_char(c1) != ':' {
        return Err(FetchError::Decode);
    }
    let b = c1 + 1;
    let t0 = skip_spaces(region, b);
    let tend = scan_number_run(region, t0);
    let tok = region.substring_char(t0, tend);
    proof {
        let r = body@.skip(kend as int);
        let t00 = first_pat(r, jpy_key()) + jpy_key().len() + ws_prefix_len(
            r.skip(first_pat(r, jpy_key()) + jpy_key().len()),
        );
        assert(t00 == c1 as int);
        assert(tok@ =~= r.skip(t0 as int).take(num_run_len(r.skip(t0 as int))));
        assert(rate_token(body@) == Some(tok@));
    }
    match parse_number(tok) {
        NumOutcome::Value(d) => Ok(d),
        NumOutcome::NotNumeric => Err(FetchError::Decode),
        NumOutcome::TooBig => Err(FetchError::Decode),
    }
}

/// The words of a fetch failure, as the report shows them.
pub fn fetch_error_message(e: &FetchError) -> (r: String)
    ensures
        match e {
            FetchError::Network => r@ == "ネットワークエラー"@,
            FetchError::HttpStatus(code) => r@ == "HTTPエラー: "@ + digits_seq(*code as int),
            FetchError::Decode => r@ == "レスポンスを解釈できません"@,
            FetchError::AllFailed => r@ == "すべてのAPIエンドポイントが失敗しました"@,
        },
{
    match e {
        FetchError::Network => String::from_str("ネットワークエラー"),
        FetchError::HttpStatus(code) => {
            let mut s = String::from_str("HTTPエラー: ");
            push_u64(&mut s, *code as u64);
            s
        },
        FetchError::Decode => String::from_str("レスポンスを解釈できません"),
        FetchError::AllFailed => String::from_str(
            "すべてのAPIエンドポイントが失敗しました",
        ),
    }
}

} // verus!
