//! The text of the checkpoint, manifest and index files: lines, fields and decimal
//! numbers, as bytes.
use vstd::prelude::*;

verus! {

pub const NEWLINE: u8 = 10;

pub const CARRIAGE_RETURN: u8 = 13;

/// The index of the first `b` in `s`, or the length of `s` where there is none.
pub open spec fn byte_index(s: Seq<u8>, b: u8) -> nat
    decreases s.len(),
{
    if s.len() == 0 {
        0
    } else if s[0] == b {
        0
    } else {
        1 + byte_index(s.drop_first(), b)
    }
}

pub proof fn lemma_byte_index(s: Seq<u8>, b: u8)
    ensures
        byte_index(s, b) <= s.len(),
        byte_index(s, b) < s.len() ==> s[byte_index(s, b) as int] == b,
        forall|k: int| 0 <= k < byte_index(s, b) ==> s[k] != b,
    decreases s.len(),
{
    if s.len() > 0 && s[0] != b {
        lemma_byte_index(s.drop_first(), b);
        assert forall|k: int| 0 <= k < byte_index(s, b) implies s[k] != b by {
            if k > 0 {
                assert(s[k] == s.drop_first()[k - 1]);
            }
        }
    }
}

/// The first `b` found by a scan is where `byte_index` says.
pub proof fn lemma_byte_index_at(s: Seq<u8>, b: u8, i: int)
    requires
        0 <= i <= s.len(),
        i < s.len() ==> s[i] == b,
        forall|k: int| 0 <= k < i ==> s[k] != b,
    ensures
        byte_index(s, b) == i,
{
    lemma_byte_index(s, b);
    if byte_index(s, b) < i {
        assert(s[byte_index(s, b) as int] == b);
    }
}

/// A line without the `\r` of a `\r\n` ending.
pub open spec fn strip_cr(line: Seq<u8>) -> Seq<u8> {
    if line.len() > 0 && line.last() == CARRIAGE_RETURN {
        line.drop_last()
    } else {
        line
    }
}

/// The lines of `s` as `str::lines` gives them: split at each `\n`, a `\r` that stands
/// before a `\n` dropped, and no empty line after a final `\n`.
pub open spec fn text_lines(s: Seq<u8>) -> Seq<Seq<u8>>
    decreases s.len(),
{
    if s.len() == 0 {
        seq![]
    } else {
        let i = byte_index(s, NEWLINE) as int;
        if i >= s.len() {
            seq![s]
        } else {
            seq![strip_cr(s.subrange(0, i))] + text_lines(s.subrange(i + 1, s.len() as int))
        }
    }
}

/// The fields of `s` between the separators `sep`, as `str::split` gives them.
pub open spec fn split_fields(s: Seq<u8>, sep: u8) -> Seq<Seq<u8>>
    decreases s.len(),
{
    let i = byte_index(s, sep) as int;
    if i >= s.len() {
        seq![s]
    } else {
        seq![s.subrange(0, i)] + split_fields(s.subrange(i + 1, s.len() as int), sep)
    }
}

/// The first index in `from .. to` that holds `b`, or `to`.
pub fn find_byte(bytes: &[u8], from: usize, to: usize, b: u8) -> (found: usize)
    requires
        from <= to <= bytes@.len(),
    ensures
        from <= found <= to,
        found - from == byte_index(bytes@.subrange(from as int, to as int), b),
{
    let mut i = from;
    while i < to && bytes[i] != b
        invariant
            from <= i <= to <= bytes@.len(),
            forall|k: int| from <= k < i ==> bytes@[k] != b,
        decreases to - i,
    {
        i = i + 1;
    }
    proof {
        let s = bytes@.subrange(from as int, to as int);
        lemma_byte_index_at(s, b, i - from);
    }
    i
}

/// The line that starts at `pos` (without its ending) and where the next one starts.
pub fn next_line(bytes: &[u8], pos: usize) -> (out: (usize, usize))
    requires
        pos < bytes@.len(),
    ensures
        pos <= out.0 <= out.1 <= bytes@.len(),
        pos < out.1,
        text_lines(bytes@.subrange(pos as int, bytes@.len() as int)) == seq![
            bytes@.subrange(pos as int, out.0 as int),
        ] + text_lines(bytes@.subrange(out.1 as int, bytes@.len() as int)),
{
    let len = bytes.len();
    let nl = find_byte(bytes, pos, len, NEWLINE);
    let ghost s = bytes@.subrange(pos as int, len as int);
    proof {
        lemma_byte_index(s, NEWLINE);
    }
    if nl == len {
        proof {
            assert(bytes@.subrange(len as int, len as int) =~= Seq::<u8>::empty());
            assert(text_lines(Seq::<u8>::empty()) =~= Seq::<Seq<u8>>::empty());
            assert(s =~= bytes@.subrange(pos as int, len as int));
        }
        return (len, len);
    }
    let end = if nl > pos && bytes[nl - 1] == CARRIAGE_RETURN {
        nl - 1
    } else {
        nl
    };
    proof {
        let i = (nl - pos) as int;
        assert(s.subrange(0, i) =~= bytes@.subrange(pos as int, nl as int));
        assert(s.subrange(i + 1, s.len() as int) =~= bytes@.subrange(nl + 1, len as int));
        assert(strip_cr(s.subrange(0, i)) =~= bytes@.subrange(pos as int, end as int));
    }
    (end, nl + 1)
}

/// The ranges of the fields of `bytes[start .. end]` between the separators `sep`.
pub fn split_ranges(bytes: &[u8], start: usize, end: usize, sep: u8) -> (ranges: Vec<(usize, usize)>)
    requires
        start <= end <= bytes@.len(),
    ensures
        ranges@.len() == split_fields(bytes@.subrange(start as int, end as int), sep).len(),
        forall|k: int|
            0 <= k < ranges@.len() ==> {
                let (a, b) = #[trigger] ranges@[k];
                start <= a <= b <= end && bytes@.subrange(a as int, b as int) == split_fields(
                    bytes@.subrange(start as int, end as int),
                    sep,
                )[k]
            },
{
    let mut ranges: Vec<(usize, usize)> = Vec::new();
    let mut pos = start;
    let ghost whole = bytes@.subrange(start as int, end as int);
    loop
        invariant
            start <= pos <= end <= bytes@.len(),
            whole == bytes@.subrange(start as int, end as int),
            split_fields(whole, sep) == ranges@.map_values(
                |r: (usize, usize)| bytes@.subrange(r.0 as int, r.1 as int),
            ) + split_fields(bytes@.subrange(pos as int, end as int), sep),
            forall|k: int|
                0 <= k < ranges@.len() ==> {
                    let (a, b) = #[trigger] ranges@[k];
                    start <= a <= b <= end
                },
        decreases end - pos,
    {
        let at = find_byte(bytes, pos, end, sep);
        let ghost rest = bytes@.subrange(pos as int, end as int);
        let ghost before = ranges@;
        proof {
            lemma_byte_index(rest, sep);
        }
        ranges.push((pos, at));
        if at == end {
            proof {
                assert(rest.subrange(0, (at - pos) as int) =~= rest);
                assert(split_fields(rest, sep) =~= seq![rest]);
                assert(ranges@.map_values(|r: (usize, usize)| bytes@.subrange(r.0 as int, r.1 as int))
                    =~= before.map_values(
                    |r: (usize, usize)| bytes@.subrange(r.0 as int, r.1 as int),
                ).push(rest));
                assert(split_fields(whole, sep) =~= ranges@.map_values(
                    |r: (usize, usize)| bytes@.subrange(r.0 as int, r.1 as int),
                ));
                assert forall|k: int| 0 <= k < ranges@.len() implies {
                    let (a, b) = #[trigger] ranges@[k];
                    start <= a <= b <= end && bytes@.subrange(a as int, b as int) == split_fields(
                        whole,
                        sep,
                    )[k]
                } by {
                    assert(ranges@.map_values(
                        |r: (usize, usize)| bytes@.subrange(r.0 as int, r.1 as int),
                    )[k] == bytes@.subrange(ranges@[k].0 as int, ranges@[k].1 as int));
                }
            }
            return ranges;
        }
        proof {
            let i = (at - pos) as int;
            assert(rest.subrange(0, i) =~= bytes@.subrange(pos as int, at as int));
            assert(rest.subrange(i + 1, rest.len() as int) =~= bytes@.subrange(at + 1, end as int));
            assert(ranges@.map_values(|r: (usize, usize)| bytes@.subrange(r.0 as int, r.1 as int))
                =~= before.map_values(|r: (usize, usize)| bytes@.subrange(r.0 as int, r.1 as int)).push(
                bytes@.subrange(pos as int, at as int),
            ));
            assert(split_fields(whole, sep) =~= ranges@.map_values(
                |r: (usize, usize)| bytes@.subrange(r.0 as int, r.1 as int),
            ) + split_fields(bytes@.subrange(at + 1, end as int), sep));
        }
        pos = at + 1;
    }
}

pub open spec fn is_digit(c: u8) -> bool {
    48 <= c <= 57
}

/// The value of a string of decimal digits.
pub open spec fn digits_value(s: Seq<u8>) -> nat
    decreases s.len(),
{
    if s.len() == 0 {
        0
    } else {
        digits_value(s.drop_last()) * 10 + (s.last() - 48) as nat
    }
}

pub open spec fn all_digits(s: Seq<u8>) -> bool {
    forall|i: int| 0 <= i < s.len() ==> is_digit(#[trigger] s[i])
}

/// What `str::parse::<u64>` gives of the text `s`: an optional `+`, then one or more
/// decimal digits of a value that fits in `u64`.
pub open spec fn parse_u64_text(s: Seq<u8>) -> Option<u64> {
    let digits = if s.len() > 1 && s[0] == 43 {
        s.drop_first()
    } else {
        s
    };
    if digits.len() > 0 && all_digits(digits) && digits_value(digits) <= u64::MAX {
        Some(digits_value(digits) as u64)
    } else {
        None
    }
}

/// A longer string of digits has at least the value of its prefix.
pub proof fn lemma_digits_value_prefix(s: Seq<u8>, j: int)
    requires
        0 <= j <= s.len(),
        all_digits(s),
    ensures
        digits_value(s.subrange(0, j)) <= digits_value(s),
    decreases s.len() - j,
{
    assert(s.subrange(0, s.len() as int) =~= s);
    if j < s.len() {
        lemma_digits_value_prefix(s, j + 1);
        let t = s.subrange(0, j + 1);
        assert(t.drop_last() =~= s.subrange(0, j));
        assert(t.last() == s[j]);
        assert(is_digit(s[j]));
        assert(digits_value(t) == digits_value(s.subrange(0, j)) * 10 + (s[j] - 48) as nat);
    }
}

/// The number in `bytes[start .. end]`, as `str::parse::<u64>` reads it.
pub fn parse_u64_field(bytes: &[u8], start: usize, end: usize) -> (value: Option<u64>)
    requires
        start <= end <= bytes@.len(),
    ensures
        value == parse_u64_text(bytes@.subrange(start as int, end as int)),
{
    let ghost s = bytes@.subrange(start as int, end as int);
    let mut i = start;
    if end - start > 1 && bytes[start] == 43 {
        i = start + 1;
    }
    let ghost digits = bytes@.subrange(i as int, end as int);
    proof {
        if i == start + 1 {
            assert(digits =~= s.drop_first());
        } else {
            assert(digits =~= s);
        }
    }
    if i == end {
        return None;
    }
    let first = i;
    let mut value: u64 = 0;
    proof {
        assert(parse_u64_text(s) == (if all_digits(digits) && digits_value(digits) <= u64::MAX {
            Some(digits_value(digits) as u64)
        } else {
            None
        }));
    }
    while i < end
        invariant
            first <= i <= end <= bytes@.len(),
            first < end,
            digits == bytes@.subrange(first as int, end as int),
            s == bytes@.subrange(start as int, end as int),
            parse_u64_text(s) == (if all_digits(digits) && digits_value(digits) <= u64::MAX {
                Some(digits_value(digits) as u64)
            } else {
                None
            }),
            all_digits(bytes@.subrange(first as int, i as int)),
            value == digits_value(bytes@.subrange(first as int, i as int)),
        decreases end - i,
    {
        let c = bytes[i];
        let ghost prefix = bytes@.subrange(first as int, i as int + 1);
        proof {
            assert(prefix.drop_last() =~= bytes@.subrange(first as int, i as int));
            assert(digits.subrange(0, i - first + 1) =~= prefix);
        }
        if c < 48 || c > 57 {
            proof {
                assert(!is_digit(digits[i - first]));
            }
            return None;
        }
        let d = (c - 48) as u64;
        match value.checked_mul(10) {
            Some(tens) => match tens.checked_add(d) {
                Some(next) => {
                    value = next;
                },
                None => {
                    proof {
                        if all_digits(digits) {
                            lemma_digits_value_prefix(digits, i - first + 1);
                        }
                    }
                    return None;
                },
            },
            None => {
                proof {
                    if all_digits(digits) {
                        lemma_digits_value_prefix(digits, i - first + 1);
                    }
                }
                return None;
            },
        }
        i = i + 1;
    }
    proof {
        assert(bytes@.subrange(first as int, end as int) =~= digits);
    }
    Some(value)
}

/// The decimal digits of `v`, most significant first, without leading zeros.
pub open spec fn decimal_text(v: u64) -> Seq<u8>
    decreases v,
{
    if v < 10 {
        seq![(48 + v) as u8]
    } else {
        decimal_text(v / 10).push((48 + v % 10) as u8)
    }
}

pub proof fn lemma_decimal_text(v: u64)
    ensures
        decimal_text(v).len() > 0,
        all_digits(decimal_text(v)),
        digits_value(decimal_text(v)) == v,
        parse_u64_text(decimal_text(v)) == Some(v),
        forall|i: int| 0 <= i < decimal_text(v).len() ==> #[trigger] decimal_text(v)[i] != NEWLINE
            && decimal_text(v)[i] != CARRIAGE_RETURN && decimal_text(v)[i] != 9 && decimal_text(
            v,
        )[i] != 61,
    decreases v,
{
    if v >= 10 {
        lemma_decimal_text(v / 10);
        let t = decimal_text(v);
        assert(t.drop_last() =~= decimal_text(v / 10));
        assert(t.last() == (48 + v % 10) as u8);
        assert(((48 + v % 10) as u8) - 48 == v % 10);
        assert(digits_value(t) == digits_value(decimal_text(v / 10)) * 10 + (v % 10) as nat);
        vstd::arithmetic::div_mod::lemma_fundamental_div_mod(v as int, 10);
        assert(t[0] == decimal_text(v / 10)[0]);
    } else {
        assert(decimal_text(v).drop_last() =~= Seq::<u8>::empty());
        assert(digits_value(Seq::<u8>::empty()) == 0);
        assert(((48 + v) as u8) - 48 == v);
    }
}

/// Appends the decimal digits of `v`.
pub fn push_decimal(out: &mut Vec<u8>, v: u64)
    ensures
        final(out)@ == old(out)@ + decimal_text(v),
    decreases v,
{
    if v >= 10 {
        push_decimal(out, v / 10);
    }
    out.push((48 + v % 10) as u8);
    proof {
        if v < 10 {
            assert(decimal_text(v) =~= seq![(48 + v) as u8]);
        }
    }
    assert(final(out)@ =~= old(out)@ + decimal_text(v));
}


/// A line without line feed and without a final carriage return is read back as it is,
/// before the lines that follow its line feed.
pub proof fn lemma_text_lines_cons(line: Seq<u8>, rest: Seq<u8>)
    requires
        forall|k: int| 0 <= k < line.len() ==> #[trigger] line[k] != NEWLINE,
        line.len() > 0 ==> line.last() != CARRIAGE_RETURN,
    ensures
        text_lines(line + seq![NEWLINE] + rest) == seq![line] + text_lines(rest),
{
    let s = line + seq![NEWLINE] + rest;
    lemma_byte_index_at(s, NEWLINE, line.len() as int);
    assert(s.subrange(0, line.len() as int) =~= line);
    assert(s.subrange(line.len() as int + 1, s.len() as int) =~= rest);
}

/// A field without the separator is split off whole, before the fields after it.
pub proof fn lemma_split_fields_cons(field: Seq<u8>, sep: u8, rest: Seq<u8>)
    requires
        forall|k: int| 0 <= k < field.len() ==> #[trigger] field[k] != sep,
    ensures
        split_fields(field + seq![sep] + rest, sep) == seq![field] + split_fields(rest, sep),
{
    let s = field + seq![sep] + rest;
    lemma_byte_index_at(s, sep, field.len() as int);
    assert(s.subrange(0, field.len() as int) =~= field);
    assert(s.subrange(field.len() as int + 1, s.len() as int) =~= rest);
}

/// Text without the separator is one field.
pub proof fn lemma_split_fields_single(field: Seq<u8>, sep: u8)
    requires
        forall|k: int| 0 <= k < field.len() ==> #[trigger] field[k] != sep,
    ensures
        split_fields(field, sep) == seq![field],
{
    lemma_byte_index_at(field, sep, field.len() as int);
}

/// A text that ends with a line feed, then another: the lines of the first, then
/// those of the second.
pub proof fn lemma_text_lines_append(a: Seq<u8>, b: Seq<u8>)
    requires
        a.len() > 0,
        a.last() == NEWLINE,
    ensures
        text_lines(a + b) == text_lines(a) + text_lines(b),
    decreases a.len(),
{
    let s = a + b;
    lemma_byte_index(a, NEWLINE);
    let i = byte_index(a, NEWLINE) as int;
    if i >= a.len() {
        assert(a[a.len() - 1] != NEWLINE);
    }
    assert(s[i] == NEWLINE);
    assert forall|k: int| 0 <= k < i implies s[k] != NEWLINE by {
        assert(s[k] == a[k]);
    }
    lemma_byte_index_at(s, NEWLINE, i);
    assert(s.subrange(0, i) =~= a.subrange(0, i));
    let a2 = a.subrange(i + 1, a.len() as int);
    assert(s.subrange(i + 1, s.len() as int) =~= a2 + b);
    if a2.len() == 0 {
        assert(a2 + b =~= b);
        assert(text_lines(a2) =~= Seq::<Seq<u8>>::empty());
    } else {
        assert(a2.last() == a.last());
        lemma_text_lines_append(a2, b);
    }
    assert(text_lines(a) == seq![strip_cr(a.subrange(0, i))] + text_lines(a2));
    assert(text_lines(s) =~= text_lines(a) + text_lines(b));
}

} // verus!
