//! The names of the files in an archive directory: `chunk_` and the chunk number
//! in twenty zero-padded digits, then the extension; and the temporary files that a
//! write leaves behind when it is cut short.
use vstd::prelude::*;

use crate::runtime::text::{all_digits, digits_value, parse_u64_field, parse_u64_text};
use crate::runtime::ArchiveMode;

verus! {

/// `chunk_`
pub const CHUNK_PREFIX: [u8; 6] = [0x63, 0x68, 0x75, 0x6e, 0x6b, 0x5f];

/// `chunk`
pub const TEMP_PREFIX: [u8; 5] = [0x63, 0x68, 0x75, 0x6e, 0x6b];

/// `.tmp`
pub const TEMP_SUFFIX: [u8; 4] = [0x2e, 0x74, 0x6d, 0x70];

/// `bin`, the extension of an exact chunk.
pub const EXACT_EXT: [u8; 3] = [0x62, 0x69, 0x6e];

/// `zst`, the extension of a wheel-210 chunk.
pub const WHEEL210_EXT: [u8; 3] = [0x7a, 0x73, 0x74];

/// The number of digits of a chunk number in a file name.
pub const CHUNK_DIGITS: usize = 20;

pub open spec fn pow10(n: nat) -> nat
    decreases n,
{
    if n == 0 {
        1
    } else {
        10 * pow10((n - 1) as nat)
    }
}

/// The last `n` decimal digits of `v`, zeros in front where `v` has fewer.
pub open spec fn padded_digits(v: nat, n: nat) -> Seq<u8>
    decreases n,
{
    if n == 0 {
        Seq::<u8>::empty()
    } else {
        padded_digits(v / 10, (n - 1) as nat).push((48 + v % 10) as u8)
    }
}

pub proof fn lemma_padded_digits(v: nat, n: nat)
    ensures
        padded_digits(v, n).len() == n,
        all_digits(padded_digits(v, n)),
        digits_value(padded_digits(v, n)) == v % pow10(n),
        pow10(n) > 0,
    decreases n,
{
    if n > 0 {
        lemma_padded_digits(v / 10, (n - 1) as nat);
        let s = padded_digits(v, n);
        assert(s.drop_last() =~= padded_digits(v / 10, (n - 1) as nat));
        assert(((48 + v % 10) as u8) - 48 == v % 10);
        vstd::arithmetic::div_mod::lemma_breakdown(v as int, 10, pow10((n - 1) as nat) as int);
        assert forall|i: int| 0 <= i < s.len() implies #[trigger] crate::runtime::text::is_digit(
            s[i],
        ) by {
            if i < s.len() - 1 {
                assert(s[i] == padded_digits(v / 10, (n - 1) as nat)[i]);
            }
        }
    }
}

/// Every `u64` has at most twenty digits.
pub proof fn lemma_u64_below_pow10_20()
    ensures
        u64::MAX < pow10(20),
{
    reveal_with_fuel(pow10, 21);
    assert(pow10(20) == 100000000000000000000nat);
}

/// The name of chunk `chunk_id` with extension `ext`.
pub open spec fn chunk_file_name_text(chunk_id: u64, ext: Seq<u8>) -> Seq<u8> {
    CHUNK_PREFIX@ + padded_digits(chunk_id as nat, 20) + seq![46u8] + ext
}

/// The chunk number that the name `name` gives, for a file of extension `ext`.
pub open spec fn chunk_id_of_name_text(name: Seq<u8>, ext: Seq<u8>) -> Option<u64> {
    let tail = ext.len() + 1;
    if name.len() >= 6 + tail && name.subrange(0, 6) == CHUNK_PREFIX@ && name.subrange(
        name.len() - tail,
        name.len() as int,
    ) == seq![46u8] + ext {
        parse_u64_text(name.subrange(6, name.len() - tail))
    } else {
        None
    }
}

/// `name` is a temporary file of a chunk write: it starts with `chunk` and ends with
/// `.tmp`.
pub open spec fn is_temp_name_text(name: Seq<u8>) -> bool {
    &&& name.len() >= 5 && name.subrange(0, 5) == TEMP_PREFIX@
    &&& name.len() >= 4 && name.subrange(name.len() - 4, name.len() as int) == TEMP_SUFFIX@
}

fn push_padded(out: &mut Vec<u8>, v: u64, n: usize)
    ensures
        final(out)@ == old(out)@ + padded_digits(v as nat, n as nat),
    decreases n,
{
    if n > 0 {
        push_padded(out, v / 10, n - 1);
        out.push((48 + v % 10) as u8);
    }
    assert(final(out)@ =~= old(out)@ + padded_digits(v as nat, n as nat));
}

/// The name of chunk `chunk_id` with extension `ext`, as `chunk_%020u.ext`.
pub fn chunk_file_name(chunk_id: u64, ext: &[u8]) -> (name: Vec<u8>)
    ensures
        name@ == chunk_file_name_text(chunk_id, ext@),
{
    let mut name: Vec<u8> = Vec::new();
    name.extend_from_slice(&CHUNK_PREFIX);
    push_padded(&mut name, chunk_id, CHUNK_DIGITS);
    name.push(46);
    name.extend_from_slice(ext);
    assert(name@ =~= chunk_file_name_text(chunk_id, ext@));
    name
}

pub(crate) fn has_at(bytes: &[u8], start: usize, pattern: &[u8]) -> (found: bool)
    requires
        start + pattern@.len() <= bytes@.len(),
    ensures
        found == (bytes@.subrange(start as int, start + pattern@.len()) == pattern@),
{
    let mut i: usize = 0;
    let len = bytes.len();
    while i < pattern.len()
        invariant
            i <= pattern@.len(),
            len == bytes@.len(),
            start + pattern@.len() <= bytes@.len(),
            forall|k: int| 0 <= k < i ==> bytes@[start + k] == pattern@[k],
        decreases pattern@.len() - i,
    {
        if bytes[start + i] != pattern[i] {
            proof {
                assert(bytes@.subrange(start as int, start + pattern@.len())[i as int] != pattern@[i as int]);
            }
            return false;
        }
        i = i + 1;
    }
    assert(bytes@.subrange(start as int, start + pattern@.len()) =~= pattern@);
    true
}

/// The chunk number in the file name `name` of extension `ext`: `chunk_`, a number as
/// `str::parse::<u64>` reads it, a dot and `ext`; `None` for any other name.
pub fn chunk_id_of_file_name(name: &[u8], ext: &[u8]) -> (id: Option<u64>)
    requires
        ext@.len() < 16,
    ensures
        id == chunk_id_of_name_text(name@, ext@),
{
    let tail = ext.len() + 1;
    if name.len() < 6 + tail {
        return None;
    }
    let dot = name.len() - tail;
    if !has_at(name, 0, &CHUNK_PREFIX) || name[dot] != 46 || !has_at(name, dot + 1, ext) {
        proof {
            let s = name@.subrange(dot as int, name@.len() as int);
            if s == seq![46u8] + ext@ {
                assert(s[0] == 46);
                assert(name@.subrange(dot + 1, name@.len() as int) =~= s.subrange(1, s.len() as int));
                assert(s.subrange(1, s.len() as int) =~= ext@);
            }
        }
        return None;
    }
    proof {
        assert(name@.subrange(dot as int, name@.len() as int) =~= seq![46u8] + ext@);
    }
    parse_u64_field(name, 6, dot)
}

/// Whether `name` is a temporary file of a chunk write.
pub fn is_temp_file_name(name: &[u8]) -> (temp: bool)
    ensures
        temp == is_temp_name_text(name@),
{
    name.len() >= 5 && has_at(name, 0, &TEMP_PREFIX) && has_at(name, name.len() - 4, &TEMP_SUFFIX)
}

/// A chunk's file name gives back its number.
pub proof fn lemma_chunk_file_name_read_back(chunk_id: u64, ext: Seq<u8>)
    ensures
        chunk_id_of_name_text(chunk_file_name_text(chunk_id, ext), ext) == Some(chunk_id),
{
    let name = chunk_file_name_text(chunk_id, ext);
    let digits = padded_digits(chunk_id as nat, 20);
    lemma_padded_digits(chunk_id as nat, 20);
    lemma_u64_below_pow10_20();
    assert(name.subrange(0, 6) =~= CHUNK_PREFIX@);
    assert(name.subrange(name.len() - (ext.len() + 1), name.len() as int) =~= seq![46u8] + ext);
    assert(name.subrange(6, name.len() - (ext.len() + 1)) =~= digits);
    assert(digits[0] != 43) by {
        assert(crate::runtime::text::is_digit(digits[0]));
    }
    vstd::arithmetic::div_mod::lemma_small_mod(chunk_id as nat, pow10(20));
}

/// What a scan of the archive directory does with a file it finds there.
#[derive(Clone, Copy, Debug, PartialEq, Eq)]
pub enum EntryAction {
    /// Leave it.
    Keep,
    /// Remove it, and go on whether that works or not.
    RemoveQuietly,
    /// Remove it, and stop on failure.
    Remove,
}

/// What the opening scan of the archive directory does with the file `name`, with
/// `chunks_written` chunks committed: temporary files go, and in the exact format
/// so do the chunks numbered from `chunks_written` on, which no commit covers.
pub fn archive_entry_action(name: &[u8], mode: ArchiveMode, chunks_written: u64) -> (action:
    EntryAction)
    ensures
        action == (if is_temp_name_text(name@) {
            EntryAction::RemoveQuietly
        } else if chunk_id_of_name_text(name@, EXACT_EXT@) matches Some(id) && id >= chunks_written
            && mode == ArchiveMode::Both {
            EntryAction::Remove
        } else {
            EntryAction::Keep
        }),
{
    if is_temp_file_name(name) {
        return EntryAction::RemoveQuietly;
    }
    match mode {
        ArchiveMode::Both => match chunk_id_of_file_name(name, &EXACT_EXT) {
            Some(id) => {
                if id >= chunks_written {
                    EntryAction::Remove
                } else {
                    EntryAction::Keep
                }
            },
            None => EntryAction::Keep,
        },
        ArchiveMode::Wheel210 => EntryAction::Keep,
    }
}

/// What the opening scan of the wheel-210 directory does with the file `name`, with
/// `chunks_written` chunks committed: temporary files go, and so do the chunks
/// numbered from `chunks_written` on.
pub fn wheel210_entry_action(name: &[u8], chunks_written: u64) -> (action: EntryAction)
    ensures
        action == (if is_temp_name_text(name@) {
            EntryAction::RemoveQuietly
        } else if chunk_id_of_name_text(name@, WHEEL210_EXT@) matches Some(id) && id
            >= chunks_written {
            EntryAction::Remove
        } else {
            EntryAction::Keep
        }),
{
    if is_temp_file_name(name) {
        return EntryAction::RemoveQuietly;
    }
    match chunk_id_of_file_name(name, &WHEEL210_EXT) {
        Some(id) => {
            if id >= chunks_written {
                EntryAction::Remove
            } else {
                EntryAction::Keep
            }
        },
        None => EntryAction::Keep,
    }
}

} // verus!
