//! The request handling of the query service: the request line of an HTTP request, and
//! the numbers that a query carries.
use crate::runtime::resume::{
    trim_range, trim_start_from, trimmed, white_space_at, white_space_len_at,
};
use crate::runtime::text::{
    decimal_text, next_line, parse_u64_field, parse_u64_text, push_decimal, text_lines,
};
use num_bigint::BigUint;
use vstd::prelude::*;

verus! {

/// The most digits that a big query accepts.
pub const MAX_BIG_DIGITS: usize = 100_000;

/// What is wrong with the number of a query.
#[derive(Clone, Copy, Debug, Eq, PartialEq)]
pub enum QueryInputError {
    /// Nothing but white space.
    Missing,
    /// Not a decimal `u64`.
    InvalidU64,
}

/// The number `n` of a query: its text without surrounding white space, read as
/// `str::parse::<u64>` reads it.
pub fn parse_n(raw: &[u8]) -> (n: Result<u64, QueryInputError>)
    ensures
        ({
            let t = trimmed(raw@, 0, raw@.len() as int);
            if t.len() == 0 {
                n == Err::<u64, QueryInputError>(QueryInputError::Missing)
            } else {
                match parse_u64_text(t) {
                    Some(v) => n == Ok::<u64, QueryInputError>(v),
                    None => n == Err::<u64, QueryInputError>(QueryInputError::InvalidU64),
                }
            }
        }),
{
    let (a, b) = trim_range(raw, 0, raw.len());
    if a == b {
        return Err(QueryInputError::Missing);
    }
    match parse_u64_field(raw, a, b) {
        Some(v) => Ok(v),
        None => Err(QueryInputError::InvalidU64),
    }
}

/// `s[i .. end]` without any of its white space.
pub open spec fn without_white_space(s: Seq<u8>, i: int, end: int) -> Seq<u8>
    decreases end - i,
{
    if i >= end {
        seq![]
    } else if white_space_at(s, i, end) > 0 {
        without_white_space(s, i + white_space_at(s, i, end), end)
    } else {
        seq![s[i]] + without_white_space(s, i + 1, end)
    }
}

/// What is wrong with a big number of a query.
#[derive(Clone, Debug, Eq, PartialEq)]
pub enum BigNumberError {
    /// Nothing but white space.
    Empty,
    /// More digits than a query accepts.
    TooLarge { digits: usize },
    /// Something other than a decimal digit; the text without its white space.
    NonDigit { cleaned: Vec<u8> },
    /// The digits do not parse as a big integer.
    Unparsable,
}

/// The digits of a big query: its text with all white space removed, which must be
/// one to 100000 ASCII decimal digits.
pub fn validate_big_n(raw: &[u8]) -> (digits: Result<Vec<u8>, BigNumberError>)
    ensures
        ({
            let s = without_white_space(raw@, 0, raw@.len() as int);
            if s.len() == 0 {
                digits == Err::<Vec<u8>, BigNumberError>(BigNumberError::Empty)
            } else if s.len() > MAX_BIG_DIGITS {
                digits matches Err(BigNumberError::TooLarge { digits: d }) && d == s.len()
            } else if !crate::runtime::text::all_digits(s) {
                digits matches Err(BigNumberError::NonDigit { cleaned }) && cleaned@ == s
            } else {
                digits matches Ok(v) && v@ == s
            }
        }),
{
    let len = raw.len();
    let mut cleaned: Vec<u8> = Vec::new();
    let mut i: usize = 0;
    while i < len
        invariant
            len == raw@.len(),
            i <= len,
            without_white_space(raw@, 0, len as int) == cleaned@ + without_white_space(
                raw@,
                i as int,
                len as int,
            ),
        decreases len - i,
    {
        let w = white_space_len_at(raw, i, len);
        if w > 0 {
            i = i + w;
        } else {
            let ghost before = cleaned@;
            cleaned.push(raw[i]);
            proof {
                assert(before + (seq![raw@[i as int]] + without_white_space(
                    raw@,
                    i + 1,
                    len as int,
                )) =~= cleaned@ + without_white_space(raw@, i + 1, len as int));
            }
            i = i + 1;
        }
    }
    proof {
        assert(cleaned@ + Seq::<u8>::empty() =~= cleaned@);
    }
    if cleaned.len() == 0 {
        return Err(BigNumberError::Empty);
    }
    if cleaned.len() > MAX_BIG_DIGITS {
        return Err(BigNumberError::TooLarge { digits: cleaned.len() });
    }
    let mut k: usize = 0;
    while k < cleaned.len()
        invariant
            k <= cleaned@.len(),
            cleaned@ == without_white_space(raw@, 0, raw@.len() as int),
            0 < cleaned@.len() <= MAX_BIG_DIGITS,
            forall|j: int| 0 <= j < k ==> crate::runtime::text::is_digit(#[trigger] cleaned@[j]),
        decreases cleaned@.len() - k,
    {
        if cleaned[k] < 48 || cleaned[k] > 57 {
            proof {
                assert(!crate::runtime::text::is_digit(cleaned@[k as int]));
            }
            return Err(BigNumberError::NonDigit { cleaned });
        }
        k = k + 1;
    }
    Ok(cleaned)
}

#[verifier::external_type_specification]
#[verifier::external_body]
pub struct ExBigUint(BigUint);

/// Names the big integer that `num_bigint::BigUint::parse_bytes` makes of `digits` in
/// base ten.
pub uninterp spec fn decimal_biguint(digits: Seq<u8>) -> BigUint;

/// Calls `num_bigint::BigUint::parse_bytes` on `digits` in base ten. Its source
/// (`from_str_radix`) fails only on an empty text, a leading `_` or a byte that is no
/// digit of the radix, so a non-empty run of ASCII decimal digits parses, to the number
/// that `decimal_biguint` names; what it makes depends on the digits alone.
#[verifier::external_body]
fn parse_decimal_biguint(digits: &[u8]) -> (n: Option<BigUint>)
    ensures
        digits@.len() > 0 && crate::runtime::text::all_digits(digits@) ==> n == Some(
            decimal_biguint(digits@),
        ),
{
    BigUint::parse_bytes(digits, 10)
}

/// The number of a big query: the digits that `validate_big_n` finds, and the big
/// integer that `parse_bytes` makes of them; where they are valid they always parse.
pub fn parse_big_n(raw: &[u8]) -> (parsed: Result<(Vec<u8>, BigUint), BigNumberError>)
    ensures
        ({
            let s = without_white_space(raw@, 0, raw@.len() as int);
            if s.len() == 0 {
                parsed matches Err(BigNumberError::Empty)
            } else if s.len() > MAX_BIG_DIGITS {
                parsed matches Err(BigNumberError::TooLarge { digits: d }) && d == s.len()
            } else if !crate::runtime::text::all_digits(s) {
                parsed matches Err(BigNumberError::NonDigit { cleaned }) && cleaned@ == s
            } else {
                parsed matches Ok((digits, n)) && digits@ == s && n == decimal_biguint(s)
            }
        }),
{
    let digits = match validate_big_n(raw) {
        Ok(digits) => digits,
        Err(e) => {
            return Err(e);
        },
    };
    match parse_decimal_biguint(digits.as_slice()) {
        Some(n) => Ok((digits, n)),
        None => Err(BigNumberError::Unparsable),
    }
}

/// `…`, in UTF-8.
pub const ELLIPSIS: [u8; 3] = [0xe2, 0x80, 0xa6];

/// ` digits total)`
pub const DIGITS_TOTAL: [u8; 14] = [32, 100, 105, 103, 105, 116, 115, 32, 116, 111, 116, 97, 108, 41];

/// How a number of more than 40 digits is shown: its first 20 digits, an ellipsis, its
/// last 10, and its length.
pub open spec fn digits_preview(s: Seq<u8>) -> Seq<u8> {
    if s.len() <= 40 {
        s
    } else {
        s.subrange(0, 20) + ELLIPSIS@ + s.subrange(s.len() - 10, s.len() as int) + seq![32u8, 40u8]
            + decimal_text(s.len() as u64) + DIGITS_TOTAL@
    }
}

/// The number `s` as a query shows it: whole up to 40 digits, else shortened.
pub fn preview_digits(s: &[u8]) -> (shown: Vec<u8>)
    ensures
        shown@ == digits_preview(s@),
{
    let len = s.len();
    let mut shown: Vec<u8> = Vec::new();
    if len <= 40 {
        shown.extend_from_slice(s);
        proof {
            assert(shown@ =~= s@);
        }
        return shown;
    }
    let mut i: usize = 0;
    while i < 20
        invariant
            i <= 20,
            len == s@.len(),
            len > 40,
            shown@ == s@.subrange(0, i as int),
        decreases 20 - i,
    {
        shown.push(s[i]);
        proof {
            assert(shown@ =~= s@.subrange(0, i as int + 1));
        }
        i = i + 1;
    }
    shown.extend_from_slice(&ELLIPSIS);
    let mut j: usize = len - 10;
    let ghost head = shown@;
    while j < len
        invariant
            len - 10 <= j <= len,
            len > 40,
            len == s@.len(),
            shown@ == head + s@.subrange(len - 10, j as int),
        decreases len - j,
    {
        let ghost before = shown@;
        shown.push(s[j]);
        proof {
            assert(s@.subrange(len - 10, j as int + 1) =~= s@.subrange(len - 10, j as int).push(
                s@[j as int],
            ));
            assert(shown@ =~= before.push(s@[j as int]));
            assert(shown@ =~= head + s@.subrange(len - 10, j as int + 1));
        }
        j = j + 1;
    }
    shown.push(32);
    shown.push(40);
    push_decimal(&mut shown, len as u64);
    shown.extend_from_slice(&DIGITS_TOTAL);
    proof {
        assert(shown@ =~= digits_preview(s@));
    }
    shown
}

/// The first index from `i` on where `pattern` starts in `s`, or `-1`.
pub open spec fn find_from(s: Seq<u8>, pattern: Seq<u8>, i: int) -> int
    decreases s.len() + 1 - i,
{
    if i < 0 || i + pattern.len() > s.len() {
        -1
    } else if s.subrange(i, i + pattern.len()) == pattern {
        i
    } else {
        find_from(s, pattern, i + 1)
    }
}

/// `\r\n\r\n`
pub const BLANK_LINE_CRLF: [u8; 4] = [13, 10, 13, 10];

/// `\n\n`
pub const BLANK_LINE_LF: [u8; 2] = [10, 10];

/// Where the head of a request ends and where its body starts: at its first blank line
/// (`\r\n\r\n`, else `\n\n`), or at its end.
pub open spec fn request_split(s: Seq<u8>) -> (int, int) {
    let crlf = find_from(s, BLANK_LINE_CRLF@, 0);
    let lf = find_from(s, BLANK_LINE_LF@, 0);
    if crlf >= 0 {
        (crlf, crlf + 4)
    } else if lf >= 0 {
        (lf, lf + 2)
    } else {
        (s.len() as int, s.len() as int)
    }
}

/// The first index at or after `i`, before `end`, that starts white space, or `end`.
pub open spec fn word_end(s: Seq<u8>, i: int, end: int) -> int
    decreases end - i,
{
    if i >= end || white_space_at(s, i, end) > 0 {
        i
    } else {
        word_end(s, i + 1, end)
    }
}

/// What is wrong with a request.
#[derive(Clone, Copy, Debug, Eq, PartialEq)]
pub enum RequestError {
    EmptyRequest,
    MissingMethod,
    MissingPath,
}

pub(crate) fn find_pattern(s: &[u8], pattern: &[u8]) -> (at: Option<usize>)
    ensures
        match at {
            Some(i) => find_from(s@, pattern@, 0) == i as int,
            None => find_from(s@, pattern@, 0) == -1,
        },
{
    let n = s.len();
    let m = pattern.len();
    if m > n {
        return None;
    }
    if m == 0 {
        proof {
            assert(s@.subrange(0, 0) =~= pattern@);
        }
        return Some(0);
    }
    let mut i: usize = 0;
    while i <= n - m
        invariant
            n == s@.len(),
            m == pattern@.len(),
            0 < m <= n,
            i <= n - m + 1,
            find_from(s@, pattern@, 0) == find_from(s@, pattern@, i as int),
        decreases n + 1 - i,
    {
        if crate::runtime::checkpoint::bytes_equal(s, i, i + m, pattern) {
            return Some(i);
        }
        i = i + 1;
    }
    None
}

fn word_end_from(s: &[u8], i: usize, end: usize) -> (e: usize)
    requires
        i <= end <= s@.len(),
    ensures
        i <= e <= end,
        e == word_end(s@, i as int, end as int),
{
    let mut k = i;
    while k < end && white_space_len_at(s, k, end) == 0
        invariant
            i <= k <= end <= s@.len(),
            word_end(s@, i as int, end as int) == word_end(s@, k as int, end as int),
        decreases end - k,
    {
        k = k + 1;
    }
    k
}

/// The method, the path and the body of an HTTP request, as ranges of `request`: the
/// first two white-space separated words of the first line of its head, and what follows
/// the blank line.
pub fn parse_http_request(request: &[u8]) -> (parts: Result<((usize, usize), (usize, usize), (usize, usize)), RequestError>)
    ensures
        ({
            let s = request@;
            let (head_end, body_start) = request_split(s);
            let lines = text_lines(s.subrange(0, head_end));
            if lines.len() == 0 {
                parts == Err::<((usize, usize), (usize, usize), (usize, usize)), RequestError>(
                    RequestError::EmptyRequest,
                )
            } else {
                let line_end = lines[0].len() as int;
                let m0 = trim_start_from(s, 0, line_end);
                let m1 = word_end(s, m0, line_end);
                let p0 = trim_start_from(s, m1, line_end);
                let p1 = word_end(s, p0, line_end);
                if m0 >= line_end {
                    parts == Err::<((usize, usize), (usize, usize), (usize, usize)), RequestError>(
                        RequestError::MissingMethod,
                    )
                } else if p0 >= line_end {
                    parts == Err::<((usize, usize), (usize, usize), (usize, usize)), RequestError>(
                        RequestError::MissingPath,
                    )
                } else {
                    parts == Ok::<((usize, usize), (usize, usize), (usize, usize)), RequestError>(
                        (
                            (m0 as usize, m1 as usize),
                            (p0 as usize, p1 as usize),
                            (body_start as usize, s.len() as usize),
                        ),
                    )
                }
            }
        }),
{
    let len = request.len();
    proof {
        lemma_find_from_bounds(request@, BLANK_LINE_CRLF@, 0);
        lemma_find_from_bounds(request@, BLANK_LINE_LF@, 0);
    }
    let (head_end, body_start) = match find_pattern(request, &BLANK_LINE_CRLF) {
        Some(k) => (k, k + 4),
        None => match find_pattern(request, &BLANK_LINE_LF) {
            Some(k) => (k, k + 2),
            None => (len, len),
        },
    };
    proof {
        lemma_find_from_bounds(request@, BLANK_LINE_CRLF@, 0);
        lemma_find_from_bounds(request@, BLANK_LINE_LF@, 0);
    }
    if head_end == 0 {
        proof {
            assert(request@.subrange(0, 0) =~= Seq::<u8>::empty());
            assert(text_lines(Seq::<u8>::empty()) =~= Seq::<Seq<u8>>::empty());
        }
        return Err(RequestError::EmptyRequest);
    }
    let head = slice_to(request, head_end);
    let (line_end, _) = next_line(head, 0);
    proof {
        assert(head@.subrange(0, head@.len() as int) =~= head@);
        let first = text_lines(head@)[0];
        assert(first == head@.subrange(0, line_end as int));
        assert(request@.subrange(0, line_end as int) =~= head@.subrange(0, line_end as int));
    }
    let (m0, _) = trim_range(request, 0, line_end);
    if m0 >= line_end {
        return Err(RequestError::MissingMethod);
    }
    let m1 = word_end_from(request, m0, line_end);
    let (p0, _) = trim_range(request, m1, line_end);
    if p0 >= line_end {
        return Err(RequestError::MissingPath);
    }
    let p1 = word_end_from(request, p0, line_end);
    Ok(((m0, m1), (p0, p1), (body_start, len)))
}

pub proof fn lemma_find_from_bounds(s: Seq<u8>, pattern: Seq<u8>, i: int)
    requires
        0 <= i,
    ensures
        find_from(s, pattern, i) == -1 || (i <= find_from(s, pattern, i) && find_from(s, pattern, i)
            + pattern.len() <= s.len()),
    decreases s.len() + 1 - i,
{
    if i + pattern.len() <= s.len() && s.subrange(i, i + pattern.len()) != pattern {
        lemma_find_from_bounds(s, pattern, i + 1);
    }
}

fn slice_to(bytes: &[u8], end: usize) -> (head: &[u8])
    requires
        end <= bytes@.len(),
    ensures
        head@ == bytes@.subrange(0, end as int),
{
    let (head, _) = bytes.split_at(end);
    head
}

} // verus!
