use vstd::prelude::*;

verus! {

/// Blank space, as trimming and the rate-body scanner understand it.
pub open spec fn is_space(c: char) -> bool {
    c == ' ' || c == '\t' || c == '\n' || c == '\r'
}

/// An ASCII decimal digit.
pub open spec fn is_digit(c: char) -> bool {
    48 <= c as int && c as int <= 57
}

/// The numeric value of a digit character.
pub open spec fn digit_val(c: char) -> int {
    c as int - 48
}

/// A character that may appear in a plain decimal number token.
pub open spec fn is_num_char(c: char) -> bool {
    is_digit(c) || c == '.'
}

pub open spec fn all_digits(s: Seq<char>) -> bool {
    forall|i: int| 0 <= i < s.len() ==> is_digit(#[trigger] s[i])
}

/// The base-ten value of a digit sequence; the empty sequence reads as zero.
pub open spec fn digits_val(s: Seq<char>) -> int
    decreases s.len(),
{
    if s.len() == 0 {
        0
    } else {
        digits_val(s.drop_last()) * 10 + digit_val(s.last())
    }
}

/// How many times `c` occurs in `s`.
pub open spec fn count_char(s: Seq<char>, c: char) -> nat
    decreases s.len(),
{
    if s.len() == 0 {
        0
    } else {
        count_char(s.drop_last(), c) + (if s.last() == c {
            1nat
        } else {
            0nat
        })
    }
}

/// The index of the first occurrence of `c`; meaningful only when `c` occurs.
pub open spec fn first_pos(s: Seq<char>, c: char) -> int
    decreases s.len(),
{
    if s.len() == 0 {
        0
    } else if s[0] == c {
        0
    } else {
        1 + first_pos(s.skip(1), c)
    }
}

/// The length of the longest prefix made of blank space.
pub open spec fn ws_prefix_len(s: Seq<char>) -> int
    decreases s.len(),
{
    if s.len() == 0 || !is_space(s[0]) {
        0
    } else {
        1 + ws_prefix_len(s.skip(1))
    }
}

/// The length of the longest suffix made of blank space.
pub open spec fn ws_suffix_len(s: Seq<char>) -> int
    decreases s.len(),
{
    if s.len() == 0 || !is_space(s.last()) {
        0
    } else {
        1 + ws_suffix_len(s.drop_last())
    }
}

/// The length of the longest prefix made of number characters.
pub open spec fn num_run_len(s: Seq<char>) -> int
    decreases s.len(),
{
    if s.len() == 0 || !is_num_char(s[0]) {
        0
    } else {
        1 + num_run_len(s.skip(1))
    }
}

/// `s` with blank space removed from both ends.
pub open spec fn trim_spec(s: Seq<char>) -> Seq<char> {
    if ws_prefix_len(s) == s.len() {
        Seq::<char>::empty()
    } else {
        s.subrange(ws_prefix_len(s), s.len() - ws_suffix_len(s))
    }
}

/// The pattern `p` occurs in `s` at position `i`.
pub open spec fn pat_at(s: Seq<char>, i: int, p: Seq<char>) -> bool {
    0 <= i && i + p.len() <= s.len() && (forall|k: int|
        0 <= k < p.len() ==> s[i + k] == #[trigger] p[k])
}

pub open spec fn contains_pat(s: Seq<char>, p: Seq<char>) -> bool {
    exists|i: int| pat_at(s, i, p)
}

/// The position of the first occurrence of `p`; meaningful only when `p` occurs.
pub open spec fn first_pat(s: Seq<char>, p: Seq<char>) -> int
    decreases s.len(),
{
    if pat_at(s, 0, p) {
        0
    } else if s.len() == 0 {
        0
    } else {
        1 + first_pat(s.skip(1), p)
    }
}

pub proof fn lemma_first_pos(s: Seq<char>, c: char, i: int)
    requires
        0 <= i < s.len(),
        s[i] == c,
        forall|j: int| 0 <= j < i ==> s[j] != c,
    ensures
        first_pos(s, c) == i,
    decreases i,
{
    if i > 0 {
        assert(s.skip(1)[i - 1] == c);
        assert(forall|j: int| 0 <= j < i - 1 ==> #[trigger] s.skip(1)[j] == s[j + 1] && s[j + 1]
            != c);
        lemma_first_pos(s.skip(1), c, i - 1);
    }
}

pub proof fn lemma_count_none(s: Seq<char>, c: char)
    requires
        forall|j: int| 0 <= j < s.len() ==> s[j] != c,
    ensures
        count_char(s, c) == 0,
    decreases s.len(),
{
    if s.len() > 0 {
        lemma_count_none(s.drop_last(), c);
    }
}

pub proof fn lemma_count_single(s: Seq<char>, c: char, i: int)
    requires
        0 <= i < s.len(),
        s[i] == c,
        forall|j: int| 0 <= j < s.len() && j != i ==> s[j] != c,
    ensures
        count_char(s, c) == 1,
    decreases s.len(),
{
    if i == s.len() - 1 {
        lemma_count_none(s.drop_last(), c);
    } else {
        lemma_count_single(s.drop_last(), c, i);
    }
}

pub proof fn lemma_ws_prefix(s: Seq<char>, i: int)
    requires
        0 <= i <= s.len(),
        forall|j: int| 0 <= j < i ==> is_space(#[trigger] s[j]),
        i == s.len() || !is_space(s[i]),
    ensures
        ws_prefix_len(s) == i,
    decreases i,
{
    if i == 0 {
    } else {
        assert(is_space(s[0]));
        assert(forall|j: int| 0 <= j < i - 1 ==> #[trigger] s.skip(1)[j] == s[j + 1]);
        if i - 1 < s.skip(1).len() {
            assert(s.skip(1)[i - 1] == s[i]);
        }
        lemma_ws_prefix(s.skip(1), i - 1);
    }
}

pub proof fn lemma_ws_suffix(s: Seq<char>, k: int)
    requires
        0 <= k <= s.len(),
        forall|j: int| s.len() - k <= j < s.len() ==> is_space(#[trigger] s[j]),
        k == s.len() || !is_space(s[s.len() - k - 1]),
    ensures
        ws_suffix_len(s) == k,
    decreases k,
{
    if k == 0 {
    } else {
        assert(is_space(s.last()));
        let t = s.drop_last();
        assert(forall|j: int| t.len() - (k - 1) <= j < t.len() ==> #[trigger] t[j] == s[j]);
        lemma_ws_suffix(t, k - 1);
    }
}

pub proof fn lemma_num_run(s: Seq<char>, i: int)
    requires
        0 <= i <= s.len(),
        forall|j: int| 0 <= j < i ==> is_num_char(#[trigger] s[j]),
        i == s.len() || !is_num_char(s[i]),
    ensures
        num_run_len(s) == i,
    decreases i,
{
    if i == 0 {
    } else {
        assert(is_num_char(s[0]));
        assert(forall|j: int| 0 <= j < i - 1 ==> #[trigger] s.skip(1)[j] == s[j + 1]);
        if i - 1 < s.skip(1).len() {
            assert(s.skip(1)[i - 1] == s[i]);
        }
        lemma_num_run(s.skip(1), i - 1);
    }
}

pub proof fn lemma_first_pat(s: Seq<char>, p: Seq<char>, i: int)
    requires
        pat_at(s, i, p),
        forall|j: int| 0 <= j < i ==> !pat_at(s, j, p),
    ensures
        first_pat(s, p) == i,
    decreases i,
{
    if i == 0 {
    } else {
        assert(!pat_at(s, 0, p));
        assert(s.len() > 0);
        let t = s.skip(1);
        assert(forall|k: int| 0 <= k < p.len() ==> #[trigger] p[k] == s[i + k] && s[i + k] == t[i
            - 1 + k]);
        assert(pat_at(t, i - 1, p));
        assert forall|j: int| 0 <= j < i - 1 implies !pat_at(t, j, p) by {
            if pat_at(t, j, p) {
                assert(forall|k: int| 0 <= k < p.len() ==> #[trigger] p[k] == t[j + k] && t[j + k]
                    == s[j + 1 + k]);
                assert(pat_at(s, j + 1, p));
            }
        }
        lemma_first_pat(t, p, i - 1);
    }
}

pub proof fn lemma_digits_val_bounds(s: Seq<char>)
    requires
        all_digits(s),
    ensures
        0 <= digits_val(s),
        digits_val(s) < crate::rat::pow10(s.len() as int),
    decreases s.len(),
{
    if s.len() == 0 {
    } else {
        assert(all_digits(s.drop_last())) by {
            assert(forall|i: int| 0 <= i < s.len() - 1 ==> #[trigger] s.drop_last()[i] == s[i]);
        }
        lemma_digits_val_bounds(s.drop_last());
        assert(is_digit(s.last()));
        assert(crate::rat::pow10(s.len() as int) == 10 * crate::rat::pow10(s.len() - 1));
        assert(digits_val(s.drop_last()) * 10 + digit_val(s.last()) < crate::rat::pow10(
            s.len() as int,
        )) by (nonlinear_arith)
            requires
                digits_val(s.drop_last()) < crate::rat::pow10(s.len() - 1),
                digit_val(s.last()) <= 9,
                crate::rat::pow10(s.len() as int) == 10 * crate::rat::pow10(s.len() - 1),
        ;
    }
}

/// A digit prefix never reads as more than the whole sequence.
pub proof fn lemma_digits_val_prefix(s: Seq<char>, i: int)
    requires
        all_digits(s),
        0 <= i <= s.len(),
    ensures
        digits_val(s.take(i)) <= digits_val(s),
    decreases s.len() - i,
{
    if i == s.len() {
        assert(s.take(i) =~= s);
    } else {
        lemma_digits_val_prefix(s, i + 1);
        assert(s.take(i + 1).drop_last() =~= s.take(i));
        assert(is_digit(s.take(i + 1).last()));
        assert(all_digits(s.take(i))) by {
            assert(forall|j: int| 0 <= j < i ==> #[trigger] s.take(i)[j] == s[j]);
        }
        lemma_digits_val_bounds(s.take(i));
        assert(digits_val(s.take(i + 1)) == digits_val(s.take(i)) * 10 + digit_val(
            s.take(i + 1).last(),
        ));
        assert(digits_val(s.take(i)) <= digits_val(s.take(i)) * 10 + digit_val(
            s.take(i + 1).last(),
        )) by (nonlinear_arith)
            requires
                digits_val(s.take(i)) >= 0,
                digit_val(s.take(i + 1).last()) >= 0,
        ;
    }
}

fn is_space_char(c: char) -> (r: bool)
    ensures
        r == is_space(c),
{
    c == ' ' || c == '\t' || c == '\n' || c == '\r'
}

pub fn is_digit_char(c: char) -> (r: bool)
    ensures
        r == is_digit(c),
{
    let u = c as u32;
    48 <= u && u <= 57
}

fn is_num_char_exec(c: char) -> (r: bool)
    ensures
        r == is_num_char(c),
{
    is_digit_char(c) || c == '.'
}

/// `s` with blank space removed from both ends, as the amount parser applies it.
pub fn trim_str<'a>(s: &'a str) -> (r: &'a str)
    ensures
        r@ == trim_spec(s@),
{
    let n = s.unicode_len();
    let mut lo: usize = 0;
    while lo < n && is_space_char(s.get_char(lo))
        invariant
            0 <= lo <= n,
            n == s@.len(),
            forall|j: int| 0 <= j < lo ==> is_space(#[trigger] s@[j]),
        decreases n - lo,
    {
        lo = lo + 1;
    }
    let mut hi: usize = n;
    while hi > lo && is_space_char(s.get_char(hi - 1))
        invariant
            lo <= hi <= n,
            n == s@.len(),
            forall|j: int| hi <= j < n ==> is_space(#[trigger] s@[j]),
        decreases hi,
    {
        hi = hi - 1;
    }
    proof {
        if lo == n {
            lemma_ws_prefix(s@, n as int);
            assert(s@.subrange(lo as int, hi as int) =~= trim_spec(s@));
        } else {
            lemma_ws_prefix(s@, lo as int);
            if hi == lo {
                assert(is_space(s@[lo as int]));
                assert(false);
            }
            lemma_ws_suffix(s@, n - hi);
            assert(s@.subrange(lo as int, hi as int) =~= trim_spec(s@));
        }
    }
    s.substring_char(lo, hi)
}

/// Counts the hyphens in `s` and finds the first one.
pub fn scan_hyphens(s: &str) -> (r: (usize, usize))
    ensures
        r.0 == count_char(s@, '-'),
        count_char(s@, '-') > 0 ==> r.1 == first_pos(s@, '-') && r.1 < s@.len(),
{
    let n = s.unicode_len();
    let mut i: usize = 0;
    let mut cnt: usize = 0;
    let mut first: usize = 0;
    while i < n
        invariant
            0 <= i <= n,
            n == s@.len(),
            cnt == count_char(s@.take(i as int), '-'),
            cnt <= i,
            cnt > 0 ==> first < i && s@[first as int] == '-' && (forall|j: int|
                0 <= j < first ==> s@[j] != '-'),
            cnt == 0 ==> forall|j: int| 0 <= j < i ==> s@[j] != '-',
        decreases n - i,
    {
        let c = s.get_char(i);
        proof {
            assert(s@.take(i + 1).drop_last() =~= s@.take(i as int));
            assert(s@.take(i + 1).last() == s@[i as int]);
        }
        if c == '-' {
            if cnt == 0 {
                first = i;
            }
            cnt = cnt + 1;
        }
        i = i + 1;
    }
    proof {
        assert(s@.take(n as int) =~= s@);
        if cnt > 0 {
            lemma_first_pos(s@, '-', first as int);
        }
    }
    (cnt, first)
}

/// Finds the first occurrence of `pat` in `s`, by character position.
pub fn find_sub(s: &str, pat: &str) -> (r: Option<usize>)
    ensures
        match r {
            Some(i) => pat_at(s@, i as int, pat@) && (forall|j: int|
                0 <= j < i ==> !pat_at(s@, j, pat@)) && i as int == first_pat(s@, pat@),
            None => !contains_pat(s@, pat@),
        },
{
    let n = s.unicode_len();
    let m = pat.unicode_len();
    if m > n {
        proof {
            assert forall|i: int| !pat_at(s@, i, pat@) by {}
        }
        return None;
    }
    let mut i: usize = 0;
    while i <= n - m
        invariant
            0 <= i <= n - m + 1,
            m <= n,
            n == s@.len(),
            m == pat@.len(),
            forall|j: int| 0 <= j < i ==> !pat_at(s@, j, pat@),
        decreases n - i,
    {
        let mut k: usize = 0;
        let mut ok: bool = true;
        while k < m
            invariant
                0 <= k <= m,
                i + m <= n,
                n == s@.len(),
                m == pat@.len(),
                ok ==> forall|t: int| 0 <= t < k ==> s@[i + t] == #[trigger] pat@[t],
                !ok ==> !pat_at(s@, i as int, pat@),
            decreases m - k,
        {
            if s.get_char(i + k) != pat.get_char(k) {
                ok = false;
                proof {
                    assert(s@[i + k] != pat@[k as int]);
                }
                k = m;
            } else {
                k = k + 1;
            }
        }
        if ok {
            proof {
                assert(pat_at(s@, i as int, pat@));
                lemma_first_pat(s@, pat@, i as int);
            }
            return Some(i);
        }
        i = i + 1;
    }
    proof {
        assert forall|j: int| !pat_at(s@, j, pat@) by {
            if pat_at(s@, j, pat@) {
                assert(0 <= j && j + m <= n);
                assert(j < i);
            }
        }
    }
    None
}

/// The index where blank space ends, scanning forward from `from`.
pub fn skip_spaces(s: &str, from: usize) -> (r: usize)
    requires
        from <= s@.len(),
    ensures
        from <= r <= s@.len(),
        r - from == ws_prefix_len(s@.skip(from as int)),
        r < s@.len() ==> !is_space(s@[r as int]),
{
    let n = s.unicode_len();
    let mut i: usize = from;
    while i < n && is_space_char(s.get_char(i))
        invariant
            from <= i <= n,
            n == s@.len(),
            forall|j: int| from <= j < i ==> is_space(#[trigger] s@[j]),
        decreases n - i,
    {
        i = i + 1;
    }
    proof {
        let t = s@.skip(from as int);
        assert(forall|j: int| 0 <= j < t.len() ==> #[trigger] t[j] == s@[j + from]);
        lemma_ws_prefix(t, i - from);
    }
    i
}

/// The index where a run of number characters ends, scanning forward from `from`.
pub fn scan_number_run(s: &str, from: usize) -> (r: usize)
    requires
        from <= s@.len(),
    ensures
        from <= r <= s@.len(),
        r - from == num_run_len(s@.skip(from as int)),
{
    let n = s.unicode_len();
    let mut i: usize = from;
    while i < n && is_num_char_exec(s.get_char(i))
        invariant
            from <= i <= n,
            n == s@.len(),
            forall|j: int| from <= j < i ==> is_num_char(#[trigger] s@[j]),
        decreases n - i,
    {
        i = i + 1;
    }
    proof {
        let t = s@.skip(from as int);
        assert(forall|j: int| 0 <= j < t.len() ==> #[trigger] t[j] == s@[j + from]);
        lemma_num_run(t, i - from);
    }
    i
}

} // verus!
