//! The members of a JSON object, as messages write them: a key, a colon, a
//! value, and then a comma and the next member, or the brace that closes the
//! object.
//!
//! As with the pieces they are made of, each kind of member has its written
//! form, a reader, and a lemma that the reader takes back what was written.

use crate::network::json::{
    decimal, is_delimited, lemma_number_at, lemma_optional_list_at, lemma_scan_over_byte,
    lemma_scan_over_joined, lemma_scan_quoted, lemma_text_at, lemma_value_len,
    lemma_value_len_cut, number_at, optional_list, optional_list_at, quoted, read_number,
    read_optional_list, read_text, read_value, scan_outside, scan_over, text_at, texts,
    value_len, write_quoted, CLOSE_BRACE, COLON, COMMA,
};
use vstd::prelude::*;
use vstd::slice::{slice_subrange, slice_to_vec};

verus! {

/// A key as a string, a colon, and what follows them.
#[verifier::opaque]
pub open spec fn member(key: Seq<char>, value: Seq<u8>) -> Seq<u8> {
    quoted(key) + (seq![COLON] + value)
}

/// A member that is not the last of its object: the key, a colon, the value,
/// a comma, and the rest of the object.
#[verifier::opaque]
pub open spec fn entry(key: Seq<char>, value: Seq<u8>, rest: Seq<u8>) -> Seq<u8> {
    member(key, value + (seq![COMMA] + rest))
}

/// The last member of an object and the brace that closes the object.
#[verifier::opaque]
pub open spec fn last_entry(key: Seq<char>, value: Seq<u8>) -> Seq<u8> {
    member(key, value + seq![CLOSE_BRACE])
}

/// Reads the key `key` and a colon at the head of `s`: how many bytes they
/// take.
pub open spec fn key_at(s: Seq<u8>, key: Seq<char>) -> Option<int> {
    match text_at(s) {
        Some((found, n)) => if found == key && 0 < n < s.len() && s[n] == COLON {
            Some(n + 1)
        } else {
            None
        },
        None => None,
    }
}

/// Whether a comma stands at `pos`.
pub open spec fn comma_at(s: Seq<u8>, pos: int) -> bool {
    0 <= pos < s.len() && s[pos] == COMMA
}

/// Whether `s` ends at `pos` with a closing brace.
pub open spec fn closes_at(s: Seq<u8>, pos: int) -> bool {
    0 <= pos && pos + 1 == s.len() && s[pos] == CLOSE_BRACE
}

/// Reads a member with a string for its value and the comma behind it: the
/// text, and how many bytes all of it takes.
#[verifier::opaque]
pub open spec fn text_entry_at(s: Seq<u8>, key: Seq<char>) -> Option<(Seq<char>, int)> {
    match key_at(s, key) {
        Some(k) => match text_at(s.skip(k)) {
            Some((text, n)) => if comma_at(s, k + n) {
                Some((text, k + n + 1))
            } else {
                None
            },
            None => None,
        },
        None => None,
    }
}

/// Reads a member with a list of strings or `null` for its value and the
/// comma behind it.
#[verifier::opaque]
pub open spec fn list_entry_at(s: Seq<u8>, key: Seq<char>) -> Option<
    (Option<Seq<Seq<char>>>, int),
> {
    match key_at(s, key) {
        Some(k) => match optional_list_at(s.skip(k)) {
            Some((items, n)) => if comma_at(s, k + n) {
                Some((items, k + n + 1))
            } else {
                None
            },
            None => None,
        },
        None => None,
    }
}

/// Reads a member with a nested value and the comma behind it: the text of
/// the value, and how many bytes all of it takes.
#[verifier::opaque]
pub open spec fn value_entry_at(s: Seq<u8>, key: Seq<char>) -> Option<(Seq<u8>, int)> {
    match key_at(s, key) {
        Some(k) => match value_len(s.skip(k)) {
            Some(n) => Some((s.subrange(k, k + n), k + n + 1)),
            None => None,
        },
        None => None,
    }
}

/// Reads a member with a number for its value and the comma behind it.
#[verifier::opaque]
pub open spec fn number_entry_at(s: Seq<u8>, key: Seq<char>) -> Option<(u64, int)> {
    match key_at(s, key) {
        Some(k) => match number_at(s.skip(k)) {
            Some((number, n)) => if comma_at(s, k + n) {
                Some((number, k + n + 1))
            } else {
                None
            },
            None => None,
        },
        None => None,
    }
}

/// Reads a member with a string for its value and the closing brace, with
/// which `s` must end.
#[verifier::opaque]
pub open spec fn last_text_entry_at(s: Seq<u8>, key: Seq<char>) -> Option<Seq<char>> {
    match key_at(s, key) {
        Some(k) => match text_at(s.skip(k)) {
            Some((text, n)) => if closes_at(s, k + n) {
                Some(text)
            } else {
                None
            },
            None => None,
        },
        None => None,
    }
}

/// Reads a member with a number for its value and the closing brace, with
/// which `s` must end.
#[verifier::opaque]
pub open spec fn last_number_entry_at(s: Seq<u8>, key: Seq<char>) -> Option<u64> {
    match key_at(s, key) {
        Some(k) => match number_at(s.skip(k)) {
            Some((number, n)) => if closes_at(s, k + n) {
                Some(number)
            } else {
                None
            },
            None => None,
        },
        None => None,
    }
}

/// What stands behind the first part of a joined text.
pub proof fn lemma_skip_joined(a: Seq<u8>, b: Seq<u8>)
    ensures
        (a + b).skip(a.len() as int) == b,
        (a + b).len() == a.len() + b.len(),
{
    assert((a + b).skip(a.len() as int) =~= b);
}

/// Skipping in two steps is skipping once.
pub proof fn lemma_skip_into(s: Seq<u8>, a: int, part: Seq<u8>, b: int)
    requires
        0 <= a <= s.len(),
        s.skip(a) == part,
        0 <= b <= part.len(),
    ensures
        s.skip(a + b) == part.skip(b),
        0 <= a + b <= s.len(),
        b < part.len() ==> s[a + b] == part[b],
{
    assert(s.skip(a + b) =~= part.skip(b));
}

/// Joining is associative.
pub proof fn lemma_joined(a: Seq<u8>, b: Seq<u8>, c: Seq<u8>)
    ensures
        (a + b) + c == a + (b + c),
{
    assert((a + b) + c =~= a + (b + c));
}

/// A written key is read back, and the value follows it.
pub proof fn lemma_key_at(key: Seq<char>, value: Seq<u8>)
    ensures
        key_at(member(key, value), key) == Some(member(key, value).len() - value.len()),
        member(key, value).skip(member(key, value).len() - value.len()) == value,
        member(key, value).len() > value.len(),
{
    reveal(member);
    lemma_text_at(key, seq![COLON] + value);
    let s = member(key, value);
    let n = quoted(key).len() as int;
    assert(s.skip(n) == seq![COLON] + value);
    assert(s[n] == s.skip(n)[0]);
    lemma_skip_into(s, n, seq![COLON] + value, 1);
    lemma_skip_joined(seq![COLON], value);
}

/// A written value with what follows it, behind its key: the value is read at
/// the position behind the key, and what follows the value stands behind it.
proof fn lemma_member_value(key: Seq<char>, value: Seq<u8>, after: Seq<u8>)
    ensures
        ({
            let s = member(key, value + after);
            let k = s.len() - (value + after).len();
            &&& key_at(s, key) == Some(k)
            &&& k > 0
            &&& s.skip(k) == value + after
            &&& s.skip(k + value.len()) == after
            &&& s.len() == k + value.len() + after.len()
            &&& s.subrange(k, k + value.len()) == value
        }),
{
    let s = member(key, value + after);
    lemma_key_at(key, value + after);
    let k = s.len() - (value + after).len();
    lemma_skip_joined(value, after);
    lemma_skip_into(s, k, value + after, value.len() as int);
    assert(s.subrange(k, k + value.len()) =~= value);
}

/// A written member with a string for its value is read back, whatever
/// follows its comma.
pub proof fn lemma_text_entry_at(key: Seq<char>, text: Seq<char>, rest: Seq<u8>)
    ensures
        ({
            let s = entry(key, quoted(text), rest);
            &&& text_entry_at(s, key) == Some((text, s.len() - rest.len()))
            &&& s.skip(s.len() - rest.len()) == rest
            &&& s.len() > rest.len()
        }),
{
    reveal(entry);
    reveal(text_entry_at);
    let after = seq![COMMA] + rest;
    let s = entry(key, quoted(text), rest);
    lemma_member_value(key, quoted(text), after);
    let k = s.len() - (quoted(text) + after).len();
    lemma_text_at(text, after);
    let n = quoted(text).len() as int;
    assert(s[k + n] == s.skip(k + n)[0]);
    lemma_skip_into(s, k + n, after, 1);
    lemma_skip_joined(seq![COMMA], rest);
}

/// A written member with a list for its value is read back, whatever follows
/// its comma.
pub proof fn lemma_list_entry_at(key: Seq<char>, items: Option<Seq<Seq<char>>>, rest: Seq<u8>)
    ensures
        ({
            let s = entry(key, optional_list(items), rest);
            &&& list_entry_at(s, key) == Some((items, s.len() - rest.len()))
            &&& s.skip(s.len() - rest.len()) == rest
            &&& s.len() > rest.len()
        }),
{
    reveal(entry);
    reveal(list_entry_at);
    let after = seq![COMMA] + rest;
    let s = entry(key, optional_list(items), rest);
    lemma_member_value(key, optional_list(items), after);
    let k = s.len() - (optional_list(items) + after).len();
    lemma_optional_list_at(items, after);
    let n = optional_list(items).len() as int;
    assert(s[k + n] == s.skip(k + n)[0]);
    lemma_skip_into(s, k + n, after, 1);
    lemma_skip_joined(seq![COMMA], rest);
}

/// A written member with a nested value is read back, whatever follows its
/// comma, if the text of the value ends where the value ends.
pub proof fn lemma_value_entry_at(key: Seq<char>, value: Seq<u8>, rest: Seq<u8>)
    requires
        is_delimited(value),
    ensures
        ({
            let s = entry(key, value, rest);
            &&& value_entry_at(s, key) == Some((value, s.len() - rest.len()))
            &&& s.skip(s.len() - rest.len()) == rest
            &&& s.len() > rest.len()
        }),
{
    reveal(entry);
    reveal(value_entry_at);
    let after = seq![COMMA] + rest;
    let s = entry(key, value, rest);
    lemma_member_value(key, value, after);
    let k = s.len() - (value + after).len();
    lemma_value_len(value, rest);
    let n = value.len() as int;
    lemma_skip_into(s, k + n, after, 1);
    lemma_skip_joined(seq![COMMA], rest);
}

/// A written member with a number for its value is read back, whatever
/// follows its comma.
pub proof fn lemma_number_entry_at(key: Seq<char>, number: u64, rest: Seq<u8>)
    ensures
        ({
            let s = entry(key, decimal(number as nat), rest);
            &&& number_entry_at(s, key) == Some((number, s.len() - rest.len()))
            &&& s.skip(s.len() - rest.len()) == rest
            &&& s.len() > rest.len()
        }),
{
    reveal(entry);
    reveal(number_entry_at);
    let after = seq![COMMA] + rest;
    let s = entry(key, decimal(number as nat), rest);
    lemma_member_value(key, decimal(number as nat), after);
    let k = s.len() - (decimal(number as nat) + after).len();
    assert(after[0] == COMMA);
    lemma_number_at(number, after);
    let n = decimal(number as nat).len() as int;
    assert(s[k + n] == s.skip(k + n)[0]);
    lemma_skip_into(s, k + n, after, 1);
    lemma_skip_joined(seq![COMMA], rest);
}

/// A written last member with a string for its value is read back.
pub proof fn lemma_last_text_entry_at(key: Seq<char>, text: Seq<char>)
    ensures
        last_text_entry_at(last_entry(key, quoted(text)), key) == Some(text),
{
    reveal(last_entry);
    reveal(last_text_entry_at);
    let after = seq![CLOSE_BRACE];
    let s = last_entry(key, quoted(text));
    lemma_member_value(key, quoted(text), after);
    let k = s.len() - (quoted(text) + after).len();
    lemma_text_at(text, after);
    let n = quoted(text).len() as int;
    assert(s[k + n] == s.skip(k + n)[0]);
}

/// A written last member with a number for its value is read back.
pub proof fn lemma_last_number_entry_at(key: Seq<char>, number: u64)
    ensures
        last_number_entry_at(last_entry(key, decimal(number as nat)), key) == Some(number),
{
    reveal(last_entry);
    reveal(last_number_entry_at);
    let after = seq![CLOSE_BRACE];
    let s = last_entry(key, decimal(number as nat));
    lemma_member_value(key, decimal(number as nat), after);
    let k = s.len() - (decimal(number as nat) + after).len();
    assert(after[0] == CLOSE_BRACE);
    lemma_number_at(number, after);
    let n = decimal(number as nat).len() as int;
    assert(s[k + n] == s.skip(k + n)[0]);
}

/// A member inside an object is scanned over as a whole, if its value is:
/// behind its comma the scan is where it was in front of the key.
pub proof fn lemma_scan_entry(key: Seq<char>, value: Seq<u8>, rest: Seq<u8>, depth: nat)
    requires
        depth > 0,
        scan_over(value, scan_outside(depth)) == Some(scan_outside(depth)),
    ensures
        scan_over(entry(key, value, rest), scan_outside(depth)) == scan_over(
            rest,
            scan_outside(depth),
        ),
{
    reveal(entry);
    reveal(member);
    let outside = scan_outside(depth);
    let colon = seq![COLON];
    let comma = seq![COMMA];
    lemma_scan_quoted(key, depth);
    lemma_scan_over_byte(COLON, outside);
    lemma_scan_over_byte(COMMA, outside);
    lemma_scan_over_joined(comma, rest, outside);
    lemma_scan_over_joined(value, comma + rest, outside);
    lemma_scan_over_joined(colon, value + (comma + rest), outside);
    lemma_scan_over_joined(quoted(key), colon + (value + (comma + rest)), outside);
}

/// The last member of an object and the closing brace are scanned over as a
/// whole, if the value is: behind the brace one bracket less is open.
pub proof fn lemma_scan_last_entry(key: Seq<char>, value: Seq<u8>, depth: nat)
    requires
        depth > 0,
        scan_over(value, scan_outside(depth)) == Some(scan_outside(depth)),
    ensures
        scan_over(last_entry(key, value), scan_outside(depth)) == Some(
            scan_outside((depth - 1) as nat),
        ),
{
    reveal(last_entry);
    reveal(member);
    let outside = scan_outside(depth);
    let colon = seq![COLON];
    let close = seq![CLOSE_BRACE];
    lemma_scan_quoted(key, depth);
    lemma_scan_over_byte(COLON, outside);
    lemma_scan_over_byte(CLOSE_BRACE, outside);
    lemma_scan_over_joined(value, close, outside);
    lemma_scan_over_joined(colon, value + close, outside);
    lemma_scan_over_joined(quoted(key), colon + (value + close), outside);
}

/// What has been written for a member is that member in front of the rest:
/// after `done`, the key and its colon, the value and a comma, the rest of
/// the object is all that is missing.
pub proof fn lemma_entry_written(done: Seq<u8>, key: Seq<char>, value: Seq<u8>, rest: Seq<u8>)
    ensures
        done + entry(key, value, rest) == (((done + (quoted(key) + seq![COLON])) + value)
            + seq![COMMA]) + rest,
{
    reveal(entry);
    reveal(member);
    let head = quoted(key) + seq![COLON];
    let comma = seq![COMMA];
    lemma_joined(quoted(key), seq![COLON], value + (comma + rest));
    lemma_joined(done, head, value + (comma + rest));
    lemma_joined(done + head, value, comma + rest);
    lemma_joined((done + head) + value, comma, rest);
}

/// What has been written for the last member is that member: after `done`,
/// the key and its colon, the value and the closing brace.
pub proof fn lemma_last_entry_written(done: Seq<u8>, key: Seq<char>, value: Seq<u8>)
    ensures
        done + last_entry(key, value) == ((done + (quoted(key) + seq![COLON])) + value)
            + seq![CLOSE_BRACE],
{
    reveal(last_entry);
    reveal(member);
    let head = quoted(key) + seq![COLON];
    let close = seq![CLOSE_BRACE];
    lemma_joined(quoted(key), seq![COLON], value + close);
    lemma_joined(done, head, value + close);
    lemma_joined(done + head, value, close);
}

/// Appends a key and the colon behind it.
pub(crate) fn write_key(out: &mut Vec<u8>, key: &str)
    ensures
        final(out)@ == old(out)@ + (quoted(key@) + seq![COLON]),
{
    let ghost before = out@;
    write_quoted(out, key);
    out.push(COLON);
    assert(out@ =~= before + (quoted(key@) + seq![COLON]));
}

/// Appends the comma that stands between two members.
pub(crate) fn write_comma(out: &mut Vec<u8>)
    ensures
        final(out)@ == old(out)@ + seq![COMMA],
{
    let ghost before = out@;
    out.push(COMMA);
    assert(out@ =~= before + seq![COMMA]);
}

/// Appends the brace that closes an object.
pub(crate) fn write_close(out: &mut Vec<u8>)
    ensures
        final(out)@ == old(out)@ + seq![CLOSE_BRACE],
{
    let ghost before = out@;
    out.push(CLOSE_BRACE);
    assert(out@ =~= before + seq![CLOSE_BRACE]);
}

/// Appends `bytes`.
pub(crate) fn write_bytes(out: &mut Vec<u8>, bytes: &[u8])
    ensures
        final(out)@ == old(out)@ + bytes@,
{
    let ghost before = out@;
    assert(bytes@.take(0) =~= Seq::<u8>::empty());
    let mut i: usize = 0;
    while i < bytes.len()
        invariant
            i <= bytes.len(),
            out@ =~= before + bytes@.take(i as int),
        decreases bytes.len() - i,
    {
        out.push(bytes[i]);
        i += 1;
    }
    assert(bytes@.take(i as int) =~= bytes@);
}

/// Reads the key `key` and a colon at `pos`. Returns the position behind the
/// colon.
pub(crate) fn read_key(bytes: &[u8], pos: usize, key: &str) -> (found: Option<usize>)
    requires
        pos <= bytes.len(),
    ensures
        match found {
            Some(next) => pos < next <= bytes.len() && key_at(bytes@.skip(pos as int), key@)
                == Some(next - pos),
            None => key_at(bytes@.skip(pos as int), key@) is None,
        },
{
    match read_text(bytes, pos) {
        Some((found, next)) => {
            if found == String::from_str(key) && next < bytes.len() && bytes[next] == COLON {
                Some(next + 1)
            } else {
                None
            }
        },
        None => None,
    }
}

/// Whether a comma stands at `pos`, `pos` being a position in what starts at
/// `start`.
fn has_comma(bytes: &[u8], start: usize, pos: usize) -> (found: bool)
    requires
        start <= pos,
        start <= bytes.len(),
    ensures
        found == comma_at(bytes@.skip(start as int), pos - start),
{
    pos < bytes.len() && bytes[pos] == COMMA
}

/// Whether the bytes end at `pos` with a closing brace.
fn has_close(bytes: &[u8], start: usize, pos: usize) -> (found: bool)
    requires
        start <= pos,
        start <= bytes.len(),
    ensures
        found == closes_at(bytes@.skip(start as int), pos - start),
{
    pos < bytes.len() && pos + 1 == bytes.len() && bytes[pos] == CLOSE_BRACE
}

/// Reads a member with a string for its value and the comma behind it, at
/// `pos`. Returns the text and the position behind the comma.
pub(crate) fn read_text_entry(bytes: &[u8], pos: usize, key: &str) -> (found: Option<(String, usize)>)
    requires
        pos <= bytes.len(),
    ensures
        match found {
            Some((text, next)) => pos < next <= bytes.len() && text_entry_at(
                bytes@.skip(pos as int),
                key@,
            ) == Some((text@, next - pos)),
            None => text_entry_at(bytes@.skip(pos as int), key@) is None,
        },
{
    reveal(text_entry_at);
    let ghost s = bytes@.skip(pos as int);
    let at_value = match read_key(bytes, pos, key) {
        Some(next) => next,
        None => {
            return None;
        },
    };
    proof {
        lemma_skip_into(bytes@, pos as int, s, at_value - pos);
    }
    let (text, end) = match read_text(bytes, at_value) {
        Some(found) => found,
        None => {
            return None;
        },
    };
    if has_comma(bytes, pos, end) {
        Some((text, end + 1))
    } else {
        None
    }
}

/// Reads a member with a list of strings or `null` for its value and the
/// comma behind it, at `pos`.
pub(crate) fn read_list_entry(bytes: &[u8], pos: usize, key: &str) -> (found: Option<
    (Option<Vec<String>>, usize),
>)
    requires
        pos <= bytes.len(),
    ensures
        match found {
            Some((items, next)) => pos < next <= bytes.len() && list_entry_at(
                bytes@.skip(pos as int),
                key@,
            ) == Some(
                (
                    match items {
                        Some(list) => Some(texts(list@)),
                        None => None,
                    },
                    next - pos,
                ),
            ),
            None => list_entry_at(bytes@.skip(pos as int), key@) is None,
        },
{
    reveal(list_entry_at);
    let ghost s = bytes@.skip(pos as int);
    let at_value = match read_key(bytes, pos, key) {
        Some(next) => next,
        None => {
            return None;
        },
    };
    proof {
        lemma_skip_into(bytes@, pos as int, s, at_value - pos);
    }
    let (items, end) = match read_optional_list(bytes, at_value) {
        Some(found) => found,
        None => {
            return None;
        },
    };
    if has_comma(bytes, pos, end) {
        Some((items, end + 1))
    } else {
        None
    }
}

/// Reads a member with a nested value and the comma behind it, at `pos`.
/// Returns the text of the value, which ends where the value ends, and the
/// position behind the comma.
pub(crate) fn read_value_entry(bytes: &[u8], pos: usize, key: &str) -> (found: Option<(Vec<u8>, usize)>)
    requires
        pos <= bytes.len(),
    ensures
        match found {
            Some((value, next)) => pos < next <= bytes.len() && is_delimited(value@)
                && value_entry_at(bytes@.skip(pos as int), key@) == Some((value@, next - pos)),
            None => value_entry_at(bytes@.skip(pos as int), key@) is None,
        },
{
    reveal(value_entry_at);
    let ghost s = bytes@.skip(pos as int);
    let at_value = match read_key(bytes, pos, key) {
        Some(next) => next,
        None => {
            return None;
        },
    };
    proof {
        lemma_skip_into(bytes@, pos as int, s, at_value - pos);
    }
    let end = match read_value(bytes, at_value) {
        Some(next) => next,
        None => {
            return None;
        },
    };
    let value = slice_to_vec(slice_subrange(bytes, at_value, end));
    proof {
        assert(s.subrange(at_value - pos, end - pos) =~= value@);
        lemma_value_len_cut(bytes@.skip(at_value as int));
        assert(bytes@.skip(at_value as int).take(end - at_value) =~= value@);
    }
    Some((value, end + 1))
}

/// Reads a member with a number for its value and the comma behind it, at
/// `pos`.
pub(crate) fn read_number_entry(bytes: &[u8], pos: usize, key: &str) -> (found: Option<(u64, usize)>)
    requires
        pos <= bytes.len(),
    ensures
        match found {
            Some((number, next)) => pos < next <= bytes.len() && number_entry_at(
                bytes@.skip(pos as int),
                key@,
            ) == Some((number, next - pos)),
            None => number_entry_at(bytes@.skip(pos as int), key@) is None,
        },
{
    reveal(number_entry_at);
    let ghost s = bytes@.skip(pos as int);
    let at_value = match read_key(bytes, pos, key) {
        Some(next) => next,
        None => {
            return None;
        },
    };
    proof {
        lemma_skip_into(bytes@, pos as int, s, at_value - pos);
    }
    let (number, end) = match read_number(bytes, at_value) {
        Some(found) => found,
        None => {
            return None;
        },
    };
    if has_comma(bytes, pos, end) {
        Some((number, end + 1))
    } else {
        None
    }
}

/// Reads a member with a string for its value, at `pos`, and the closing
/// brace, which must be the last byte.
pub(crate) fn read_last_text_entry(bytes: &[u8], pos: usize, key: &str) -> (found: Option<String>)
    requires
        pos <= bytes.len(),
    ensures
        match found {
            Some(text) => last_text_entry_at(bytes@.skip(pos as int), key@) == Some(text@),
            None => last_text_entry_at(bytes@.skip(pos as int), key@) is None,
        },
{
    reveal(last_text_entry_at);
    let ghost s = bytes@.skip(pos as int);
    let at_value = match read_key(bytes, pos, key) {
        Some(next) => next,
        None => {
            return None;
        },
    };
    proof {
        lemma_skip_into(bytes@, pos as int, s, at_value - pos);
    }
    let (text, end) = match read_text(bytes, at_value) {
        Some(found) => found,
        None => {
            return None;
        },
    };
    if has_close(bytes, pos, end) {
        Some(text)
    } else {
        None
    }
}

/// Reads a member with a number for its value, at `pos`, and the closing
/// brace, which must be the last byte.
pub(crate) fn read_last_number_entry(bytes: &[u8], pos: usize, key: &str) -> (found: Option<u64>)
    requires
        pos <= bytes.len(),
    ensures
        match found {
            Some(number) => last_number_entry_at(bytes@.skip(pos as int), key@) == Some(number),
            None => last_number_entry_at(bytes@.skip(pos as int), key@) is None,
        },
{
    reveal(last_number_entry_at);
    let ghost s = bytes@.skip(pos as int);
    let at_value = match read_key(bytes, pos, key) {
        Some(next) => next,
        None => {
            return None;
        },
    };
    proof {
        lemma_skip_into(bytes@, pos as int, s, at_value - pos);
    }
    let (number, end) = match read_number(bytes, at_value) {
        Some(found) => found,
        None => {
            return None;
        },
    };
    if has_close(bytes, pos, end) {
        Some(number)
    } else {
        None
    }
}

} // verus!
