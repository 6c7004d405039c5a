//! The HTTP exchange of the prime query service: which handler a request goes to,
//! the JSON body of an error, and the head of a response.
use vstd::prelude::*;

use crate::runtime::checkpoint::bytes_equal;
use crate::runtime::resume::{trim_range, trimmed};
use crate::runtime::text::{decimal_text, next_line, parse_u64_field, parse_u64_text, push_decimal, text_lines};
use crate::service::{find_from, find_pattern, BLANK_LINE_CRLF};

verus! {

/// `/`
pub const PATH_ROOT: [u8; 1] = [47];

/// `/healthz`
pub const PATH_HEALTH: [u8; 8] = [47, 104, 101, 97, 108, 116, 104, 122];

/// `/api/is-prime`
pub const PATH_IS_PRIME: [u8; 13] = [47, 97, 112, 105, 47, 105, 115, 45, 112, 114, 105, 109, 101];

/// `/api/next-prime`
pub const PATH_NEXT_PRIME: [u8; 15] = [
    47, 97, 112, 105, 47, 110, 101, 120, 116, 45, 112, 114, 105, 109, 101,
];

/// `/api/is-prime-big`
pub const PATH_IS_PRIME_BIG: [u8; 17] = [
    47, 97, 112, 105, 47, 105, 115, 45, 112, 114, 105, 109, 101, 45, 98, 105, 103,
];

/// `/api/next-prime-big`
pub const PATH_NEXT_PRIME_BIG: [u8; 19] = [
    47, 97, 112, 105, 47, 110, 101, 120, 116, 45, 112, 114, 105, 109, 101, 45, 98, 105, 103,
];

/// `/api/is-prime-big-proven`
pub const PATH_IS_PRIME_BIG_PROVEN: [u8; 24] = [
    47, 97, 112, 105, 47, 105, 115, 45, 112, 114, 105, 109, 101, 45, 98, 105, 103, 45, 112, 114,
    111, 118, 101, 110,
];

/// `/api/next-prime-big-proven`
pub const PATH_NEXT_PRIME_BIG_PROVEN: [u8; 26] = [
    47, 97, 112, 105, 47, 110, 101, 120, 116, 45, 112, 114, 105, 109, 101, 45, 98, 105, 103, 45,
    112, 114, 111, 118, 101, 110,
];

/// `GET`
pub const METHOD_GET: [u8; 3] = [71, 69, 84];

/// `POST`
pub const METHOD_POST: [u8; 4] = [80, 79, 83, 84];

/// `{"error":"`
pub const ERROR_BODY_OPEN: [u8; 10] = [123, 34, 101, 114, 114, 111, 114, 34, 58, 34];

/// `"}`
pub const ERROR_BODY_CLOSE: [u8; 2] = [34, 125];

/// `OK`
pub const STATUS_OK: [u8; 2] = [79, 75];

/// `Bad Request`
pub const STATUS_BAD_REQUEST: [u8; 11] = [66, 97, 100, 32, 82, 101, 113, 117, 101, 115, 116];

/// `Not Found`
pub const STATUS_NOT_FOUND: [u8; 9] = [78, 111, 116, 32, 70, 111, 117, 110, 100];

/// `HTTP/1.1 `
pub const HTTP_VERSION: [u8; 9] = [72, 84, 84, 80, 47, 49, 46, 49, 32];

/// `\r\nContent-Type: `
pub const CONTENT_TYPE_FIELD: [u8; 16] = [
    13, 10, 67, 111, 110, 116, 101, 110, 116, 45, 84, 121, 112, 101, 58, 32,
];

/// `\r\nContent-Length: `
pub const CONTENT_LENGTH_FIELD: [u8; 18] = [
    13, 10, 67, 111, 110, 116, 101, 110, 116, 45, 76, 101, 110, 103, 116, 104, 58, 32,
];

/// `\r\nCache-Control: no-store\r\nConnection: close\r\n\r\n`
pub const HEADER_TAIL: [u8; 48] = [
    13, 10, 67, 97, 99, 104, 101, 45, 67, 111, 110, 116, 114, 111, 108, 58, 32, 110, 111, 45, 115,
    116, 111, 114, 101, 13, 10, 67, 111, 110, 110, 101, 99, 116, 105, 111, 110, 58, 32, 99, 108,
    111, 115, 101, 13, 10, 13, 10,
];

/// The handler of a request.
#[derive(Clone, Copy, Debug, PartialEq, Eq)]
pub enum Route {
    /// `GET /`: the page.
    Index,
    /// `GET /healthz`
    Health,
    /// `POST /api/is-prime`
    IsPrime,
    /// `POST /api/next-prime`
    NextPrime,
    /// `POST /api/is-prime-big`
    IsPrimeBig,
    /// `POST /api/next-prime-big`
    NextPrimeBig,
    /// `POST /api/is-prime-big-proven`
    IsPrimeBigProven,
    /// `POST /api/next-prime-big-proven`
    NextPrimeBigProven,
    /// Anything else: 404.
    NotFound,
}

/// The handler of a request with method `method` and path `path`.
pub open spec fn route_of(method: Seq<u8>, path: Seq<u8>) -> Route {
    if method == METHOD_GET@ && path == PATH_ROOT@ {
        Route::Index
    } else if method == METHOD_GET@ && path == PATH_HEALTH@ {
        Route::Health
    } else if method == METHOD_POST@ && path == PATH_IS_PRIME@ {
        Route::IsPrime
    } else if method == METHOD_POST@ && path == PATH_NEXT_PRIME@ {
        Route::NextPrime
    } else if method == METHOD_POST@ && path == PATH_IS_PRIME_BIG@ {
        Route::IsPrimeBig
    } else if method == METHOD_POST@ && path == PATH_NEXT_PRIME_BIG@ {
        Route::NextPrimeBig
    } else if method == METHOD_POST@ && path == PATH_IS_PRIME_BIG_PROVEN@ {
        Route::IsPrimeBigProven
    } else if method == METHOD_POST@ && path == PATH_NEXT_PRIME_BIG_PROVEN@ {
        Route::NextPrimeBigProven
    } else {
        Route::NotFound
    }
}

fn same_bytes(a: &[u8], b: &[u8]) -> (same: bool)
    ensures
        same == (a@ == b@),
{
    proof {
        assert(a@.subrange(0, a@.len() as int) =~= a@);
    }
    bytes_equal(a, 0, a.len(), b)
}

/// The handler of a request with method `method` and path `path`.
pub fn route_request(method: &[u8], path: &[u8]) -> (route: Route)
    ensures
        route == route_of(method@, path@),
{
    if same_bytes(method, &METHOD_GET) {
        if same_bytes(path, &PATH_ROOT) {
            return Route::Index;
        }
        if same_bytes(path, &PATH_HEALTH) {
            return Route::Health;
        }
        proof {
            assert(METHOD_GET@ != METHOD_POST@);
        }
        return Route::NotFound;
    }
    if !same_bytes(method, &METHOD_POST) {
        return Route::NotFound;
    }
    if same_bytes(path, &PATH_IS_PRIME) {
        Route::IsPrime
    } else if same_bytes(path, &PATH_NEXT_PRIME) {
        Route::NextPrime
    } else if same_bytes(path, &PATH_IS_PRIME_BIG) {
        Route::IsPrimeBig
    } else if same_bytes(path, &PATH_NEXT_PRIME_BIG) {
        Route::NextPrimeBig
    } else if same_bytes(path, &PATH_IS_PRIME_BIG_PROVEN) {
        Route::IsPrimeBigProven
    } else if same_bytes(path, &PATH_NEXT_PRIME_BIG_PROVEN) {
        Route::NextPrimeBigProven
    } else {
        Route::NotFound
    }
}

/// `s` with each backslash doubled and a backslash before each double quote.
pub open spec fn json_escaped(s: Seq<u8>) -> Seq<u8>
    decreases s.len(),
{
    if s.len() == 0 {
        Seq::<u8>::empty()
    } else {
        let c = s.last();
        let tail = if c == 92 {
            seq![92u8, 92u8]
        } else if c == 34 {
            seq![92u8, 34u8]
        } else {
            seq![c]
        };
        json_escaped(s.drop_last()) + tail
    }
}

/// The JSON body of an error response with message `msg`.
pub open spec fn error_body_text(msg: Seq<u8>) -> Seq<u8> {
    ERROR_BODY_OPEN@ + json_escaped(msg) + ERROR_BODY_CLOSE@
}

/// The JSON body `{"error":"msg"}` of an error response, with the backslashes and the
/// double quotes of `msg` escaped.
pub fn error_body(msg: &[u8]) -> (body: Vec<u8>)
    ensures
        body@ == error_body_text(msg@),
{
    let mut body: Vec<u8> = Vec::new();
    body.extend_from_slice(&ERROR_BODY_OPEN);
    let mut i: usize = 0;
    while i < msg.len()
        invariant
            i <= msg@.len(),
            body@ == ERROR_BODY_OPEN@ + json_escaped(msg@.subrange(0, i as int)),
        decreases msg@.len() - i,
    {
        let c = msg[i];
        proof {
            let next = msg@.subrange(0, i + 1);
            assert(next.drop_last() =~= msg@.subrange(0, i as int));
            assert(next.last() == c);
        }
        if c == 92 {
            body.push(92);
            body.push(92);
        } else if c == 34 {
            body.push(92);
            body.push(34);
        } else {
            body.push(c);
        }
        proof {
            let next = msg@.subrange(0, i + 1);
            assert(body@ =~= ERROR_BODY_OPEN@ + json_escaped(next));
        }
        i = i + 1;
    }
    body.extend_from_slice(&ERROR_BODY_CLOSE);
    proof {
        assert(msg@.subrange(0, msg@.len() as int) =~= msg@);
        assert(body@ =~= error_body_text(msg@));
    }
    body
}

/// The reason phrase of a status code: those of 400 and 404, and `OK` for any other.
pub open spec fn status_text_of(status: u16) -> Seq<u8> {
    if status == 400 {
        STATUS_BAD_REQUEST@
    } else if status == 404 {
        STATUS_NOT_FOUND@
    } else {
        STATUS_OK@
    }
}

/// The head of a response: the status line, the content type and length, and the
/// fields that forbid caching and close the connection, then a blank line.
pub open spec fn response_head_text(status: u16, content_type: Seq<u8>, body_len: u64) -> Seq<u8> {
    HTTP_VERSION@ + decimal_text(status as u64) + seq![32u8] + status_text_of(status)
        + CONTENT_TYPE_FIELD@ + content_type + CONTENT_LENGTH_FIELD@ + decimal_text(body_len)
        + HEADER_TAIL@
}

/// The head of a response of status `status` with a body of `body_len` bytes of type
/// `content_type`.
pub fn response_head(status: u16, content_type: &[u8], body_len: usize) -> (head: Vec<u8>)
    ensures
        head@ == response_head_text(status, content_type@, body_len as u64),
{
    let mut head: Vec<u8> = Vec::new();
    head.extend_from_slice(&HTTP_VERSION);
    push_decimal(&mut head, status as u64);
    head.push(32);
    if status == 400 {
        head.extend_from_slice(&STATUS_BAD_REQUEST);
    } else if status == 404 {
        head.extend_from_slice(&STATUS_NOT_FOUND);
    } else {
        head.extend_from_slice(&STATUS_OK);
    }
    head.extend_from_slice(&CONTENT_TYPE_FIELD);
    head.extend_from_slice(content_type);
    head.extend_from_slice(&CONTENT_LENGTH_FIELD);
    push_decimal(&mut head, body_len as u64);
    head.extend_from_slice(&HEADER_TAIL);
    proof {
        assert(head@ =~= response_head_text(status, content_type@, body_len as u64));
    }
    head
}

/// The most bytes of a request head, and the most bytes of a body still to read.
pub const MAX_REQUEST_BYTES: usize = 16_777_216;

/// `content-length:`
pub const CONTENT_LENGTH_LOWER: [u8; 15] = [
    99, 111, 110, 116, 101, 110, 116, 45, 108, 101, 110, 103, 116, 104, 58,
];

/// What stops the reading of a request.
#[derive(Clone, Copy, Debug, PartialEq, Eq)]
pub enum RequestReadError {
    /// More than `MAX_REQUEST_BYTES` came without the end of the head.
    TooLarge,
    /// The body still to read is longer than `MAX_REQUEST_BYTES`.
    BodyTooLarge,
}

/// Where the body of the bytes `raw` read so far starts: after the first `\r\n\r\n`,
/// or at their end.
pub open spec fn header_end_of(raw: Seq<u8>) -> int {
    let at = find_from(raw, BLANK_LINE_CRLF@, 0);
    if at >= 0 {
        at + 4
    } else {
        raw.len() as int
    }
}

pub open spec fn ascii_lower(c: u8) -> u8 {
    if 65 <= c <= 90 {
        (c + 32) as u8
    } else {
        c
    }
}

/// The line starts with `content-length:`, in any case.
pub open spec fn is_content_length_line(line: Seq<u8>) -> bool {
    line.len() >= 15 && forall|k: int| 0 <= k < 15 ==> #[trigger] ascii_lower(line[k])
        == CONTENT_LENGTH_LOWER@[k]
}

/// The body length that the first `content-length` line of `lines` gives, 0 where it
/// gives no `usize` or there is none.
pub open spec fn content_length_of_lines(lines: Seq<Seq<u8>>) -> usize
    decreases lines.len(),
{
    if lines.len() == 0 {
        0
    } else if is_content_length_line(lines[0]) {
        match parse_u64_text(trimmed(lines[0], 15, lines[0].len() as int)) {
            Some(v) => if v <= usize::MAX {
                v as usize
            } else {
                0
            },
            None => 0,
        }
    } else {
        content_length_of_lines(lines.drop_first())
    }
}

/// Whether the head of the request read so far is complete; an error where it is not
/// and more than `MAX_REQUEST_BYTES` came.
pub fn request_head_complete(raw: &[u8]) -> (complete: Result<bool, RequestReadError>)
    ensures
        find_from(raw@, BLANK_LINE_CRLF@, 0) >= 0 ==> complete == Ok::<bool, RequestReadError>(true),
        find_from(raw@, BLANK_LINE_CRLF@, 0) < 0 ==> complete == if raw@.len() > MAX_REQUEST_BYTES {
            Err::<bool, RequestReadError>(RequestReadError::TooLarge)
        } else {
            Ok::<bool, RequestReadError>(false)
        },
{
    match find_pattern(raw, &BLANK_LINE_CRLF) {
        Some(_) => Ok(true),
        None => {
            if raw.len() > MAX_REQUEST_BYTES {
                Err(RequestReadError::TooLarge)
            } else {
                Ok(false)
            }
        },
    }
}

fn is_content_length_at(raw: &[u8], pos: usize, line_end: usize) -> (found: bool)
    requires
        pos <= line_end <= raw@.len(),
    ensures
        found == is_content_length_line(raw@.subrange(pos as int, line_end as int)),
{
    let ghost line = raw@.subrange(pos as int, line_end as int);
    if line_end - pos < 15 {
        return false;
    }
    let mut k: usize = 0;
    while k < 15
        invariant
            k <= 15,
            pos + 15 <= line_end <= raw@.len(),
            line == raw@.subrange(pos as int, line_end as int),
            forall|j: int| 0 <= j < k ==> #[trigger] ascii_lower(line[j]) == CONTENT_LENGTH_LOWER@[j],
        decreases 15 - k,
    {
        let c = raw[pos + k];
        let lower = if 65 <= c && c <= 90 {
            c + 32
        } else {
            c
        };
        proof {
            assert(line[k as int] == c);
            assert(lower == ascii_lower(line[k as int]));
        }
        if lower != CONTENT_LENGTH_LOWER[k] {
            return false;
        }
        k = k + 1;
    }
    true
}

/// The body length that the head of the request read so far announces: its first
/// `content-length` line, with the value trimmed and read as a `usize`; 0 where that
/// fails or there is no such line.
pub fn request_content_length(raw: &[u8]) -> (length: usize)
    ensures
        length == content_length_of_lines(text_lines(raw@.subrange(0, header_end_of(raw@)))),
{
    proof {
        crate::service::lemma_find_from_bounds(raw@, BLANK_LINE_CRLF@, 0);
    }
    let total = raw.len();
    let end: usize = match find_pattern(raw, &BLANK_LINE_CRLF) {
        Some(at) => {
            assert(at + 4 <= total);
            at + 4
        },
        None => total,
    };
    let head = slice_to(raw, end);
    let len = head.len();
    let mut pos: usize = 0;
    proof {
        assert(head@.subrange(0, len as int) =~= head@);
    }
    while pos < len
        invariant
            len == head@.len(),
            pos <= len,
            head@ == raw@.subrange(0, header_end_of(raw@)),
            content_length_of_lines(text_lines(head@)) == content_length_of_lines(
                text_lines(head@.subrange(pos as int, len as int)),
            ),
        decreases len - pos,
    {
        let (line_end, next) = next_line(head, pos);
        let ghost line = head@.subrange(pos as int, line_end as int);
        let ghost rest = text_lines(head@.subrange(next as int, len as int));
        proof {
            let all = seq![line] + rest;
            assert(all[0] == line);
            assert(all.drop_first() =~= rest);
        }
        if is_content_length_at(head, pos, line_end) {
            let (a, b) = trim_range(head, pos + 15, line_end);
            proof {
                assert(trimmed(line, 15, line.len() as int) =~= trimmed(
                    head@,
                    pos + 15,
                    line_end as int,
                )) by {
                    crate::runtime::resume::lemma_trimmed_sub(head@, pos as int, line_end as int, pos + 15, line_end as int);
                }
            }
            return match parse_u64_field(head, a, b) {
                Some(v) => if v <= usize::MAX as u64 {
                    v as usize
                } else {
                    0
                },
                None => 0,
            };
        }
        pos = next;
    }
    proof {
        assert(head@.subrange(len as int, len as int) =~= Seq::<u8>::empty());
        assert(text_lines(Seq::<u8>::empty()) =~= Seq::<Seq<u8>>::empty());
    }
    0
}

fn slice_to(bytes: &[u8], end: usize) -> (head: &[u8])
    requires
        end <= bytes@.len(),
    ensures
        head@ == bytes@.subrange(0, end as int),
{
    let (head, _) = bytes.split_at(end);
    head
}

/// How many bytes of the body are still to read once the head is complete: what the
/// head announces beyond what came with it; an error where that is more than
/// `MAX_REQUEST_BYTES`.
pub fn body_bytes_missing(raw: &[u8]) -> (missing: Result<usize, RequestReadError>)
    ensures
        ({
            let length = content_length_of_lines(text_lines(raw@.subrange(0, header_end_of(raw@))));
            let so_far = raw@.len() - header_end_of(raw@);
            if length > so_far {
                if length - so_far > MAX_REQUEST_BYTES {
                    missing == Err::<usize, RequestReadError>(RequestReadError::BodyTooLarge)
                } else {
                    missing == Ok::<usize, RequestReadError>((length - so_far) as usize)
                }
            } else {
                missing == Ok::<usize, RequestReadError>(0)
            }
        }),
{
    let length = request_content_length(raw);
    proof {
        crate::service::lemma_find_from_bounds(raw@, BLANK_LINE_CRLF@, 0);
    }
    let total = raw.len();
    let end: usize = match find_pattern(raw, &BLANK_LINE_CRLF) {
        Some(at) => {
            assert(at + 4 <= total);
            at + 4
        },
        None => total,
    };
    let so_far = raw.len() - end;
    if length > so_far {
        let remaining = length - so_far;
        if remaining > MAX_REQUEST_BYTES {
            return Err(RequestReadError::BodyTooLarge);
        }
        Ok(remaining)
    } else {
        Ok(0)
    }
}

} // verus!
