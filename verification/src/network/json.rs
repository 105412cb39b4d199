//! The pieces of JSON text that messages are written in: strings, unsigned
//! numbers, lists of strings, and the extent of a nested value.
//!
//! Each piece has a function that says what its text is, a writer that
//! produces exactly that text, and a reader. A reader works on what is left of
//! the input and says how much of it the piece took. Readers accept a little
//! more than writers produce (a control character may come as any `\u00XX`, a
//! number may start with zeros); whoever needs the written form alone compares
//! with what the writer gives. For each piece a lemma shows that the reader
//! takes back what the writer wrote.

use crate::foreign::string_from_utf8;
use vstd::prelude::*;
use vstd::slice::slice_to_vec;
use vstd::utf8::*;

verus! {

/// The double quote that opens and closes a string.
pub const QUOTE: u8 = 0x22;

/// The backslash that starts an escape inside a string.
pub const BACKSLASH: u8 = 0x5c;

/// The comma between two members or two items.
pub const COMMA: u8 = 0x2c;

/// The colon between a key and its value.
pub const COLON: u8 = 0x3a;

/// The brace that opens an object.
pub const OPEN_BRACE: u8 = 0x7b;

/// The brace that closes an object.
pub const CLOSE_BRACE: u8 = 0x7d;

/// The bracket that opens a list.
pub const OPEN_BRACKET: u8 = 0x5b;

/// The bracket that closes a list.
pub const CLOSE_BRACKET: u8 = 0x5d;

/// The lower-case hexadecimal digit for a value below 16.
pub open spec fn hex_digit(n: u8) -> u8 {
    if n < 10 {
        (0x30 + n) as u8
    } else {
        (0x57 + n) as u8
    }
}

/// How one byte of a string's content is written between the quotes: the
/// quote and the backslash behind a backslash, the control characters as
/// `\b \t \n \f \r` or `\u00XX`, every other byte as it is.
pub open spec fn escaped_byte(b: u8) -> Seq<u8> {
    if b == QUOTE || b == BACKSLASH {
        seq![BACKSLASH, b]
    } else if b == 0x08 {
        seq![BACKSLASH, 0x62u8]
    } else if b == 0x09 {
        seq![BACKSLASH, 0x74u8]
    } else if b == 0x0a {
        seq![BACKSLASH, 0x6eu8]
    } else if b == 0x0c {
        seq![BACKSLASH, 0x66u8]
    } else if b == 0x0d {
        seq![BACKSLASH, 0x72u8]
    } else if b < 0x20 {
        seq![BACKSLASH, 0x75u8, 0x30u8, 0x30u8, hex_digit(b / 16), hex_digit(b % 16)]
    } else {
        seq![b]
    }
}

/// The content of a string as it is written between the quotes.
pub open spec fn escaped(content: Seq<u8>) -> Seq<u8>
    decreases content.len(),
{
    if content.len() == 0 {
        Seq::empty()
    } else {
        escaped_byte(content[0]) + escaped(content.skip(1))
    }
}

/// The JSON string whose content is the given bytes.
pub open spec fn quoted_bytes(content: Seq<u8>) -> Seq<u8> {
    seq![QUOTE] + (escaped(content) + seq![QUOTE])
}

/// The JSON string for a text.
#[verifier::opaque]
pub open spec fn quoted(text: Seq<char>) -> Seq<u8> {
    quoted_bytes(encode_utf8(text))
}

/// The value of a lower-case hexadecimal digit.
pub open spec fn hex_value(d: u8) -> Option<u8> {
    if 0x30 <= d <= 0x39 {
        Some((d - 0x30) as u8)
    } else if 0x61 <= d <= 0x66 {
        Some((d - 0x57) as u8)
    } else {
        None
    }
}

/// Reads one content byte at the head of `s`: the byte, and how many bytes of
/// `s` stand for it. A quote and a bare control character stand for nothing.
pub open spec fn unit_at(s: Seq<u8>) -> Option<(u8, int)> {
    if s.len() == 0 {
        None
    } else if s[0] == BACKSLASH {
        if s.len() < 2 {
            None
        } else if s[1] == QUOTE || s[1] == BACKSLASH {
            Some((s[1], 2))
        } else if s[1] == 0x62 {
            Some((0x08u8, 2))
        } else if s[1] == 0x74 {
            Some((0x09u8, 2))
        } else if s[1] == 0x6e {
            Some((0x0au8, 2))
        } else if s[1] == 0x66 {
            Some((0x0cu8, 2))
        } else if s[1] == 0x72 {
            Some((0x0du8, 2))
        } else if s[1] == 0x75 && s.len() >= 6 && s[2] == 0x30 && s[3] == 0x30 && (s[4] == 0x30
            || s[4] == 0x31) && hex_value(s[5]) is Some {
            Some((((s[4] - 0x30) * 16 + hex_value(s[5])->0) as u8, 6))
        } else {
            None
        }
    } else if s[0] < 0x20 || s[0] == QUOTE {
        None
    } else {
        Some((s[0], 1))
    }
}

/// Reads the rest of a string, the opening quote having been taken: the
/// content, and how many bytes of `s` it took, the closing quote included.
pub open spec fn unescaped(s: Seq<u8>) -> Option<(Seq<u8>, int)>
    decreases s.len(),
{
    if s.len() == 0 {
        None
    } else if s[0] == QUOTE {
        Some((Seq::empty(), 1))
    } else {
        match unit_at(s) {
            None => None,
            Some((b, w)) => {
                if 0 < w <= s.len() {
                    match unescaped(s.skip(w)) {
                        None => None,
                        Some((rest, n)) => Some((seq![b] + rest, w + n)),
                    }
                } else {
                    None
                }
            },
        }
    }
}

/// Reads a JSON string at the head of `s`: its content, and its length in `s`.
pub open spec fn string_at(s: Seq<u8>) -> Option<(Seq<u8>, int)> {
    if s.len() > 0 && s[0] == QUOTE {
        match unescaped(s.skip(1)) {
            Some((content, n)) => Some((content, n + 1)),
            None => None,
        }
    } else {
        None
    }
}

/// Reads a JSON string at the head of `s` as text.
#[verifier::opaque]
pub open spec fn text_at(s: Seq<u8>) -> Option<(Seq<char>, int)> {
    match string_at(s) {
        Some((content, n)) => if valid_utf8(content) {
            Some((decode_utf8(content), n))
        } else {
            None
        },
        None => None,
    }
}

/// One written byte is read back as that byte.
proof fn lemma_unit_at(b: u8, rest: Seq<u8>)
    ensures
        unit_at(escaped_byte(b) + rest) == Some((b, escaped_byte(b).len() as int)),
        escaped_byte(b).len() > 0,
        escaped_byte(b)[0] != QUOTE,
{
    let s = escaped_byte(b) + rest;
    if b == QUOTE || b == BACKSLASH {
        assert(s[0] == BACKSLASH && s[1] == b);
    } else if b == 0x08 || b == 0x09 || b == 0x0a || b == 0x0c || b == 0x0d {
        assert(s[0] == BACKSLASH);
        assert(s[1] == escaped_byte(b)[1]);
    } else if b < 0x20 {
        assert(s[0] == BACKSLASH && s[1] == 0x75 && s[2] == 0x30 && s[3] == 0x30);
        assert(s[4] == hex_digit(b / 16) && s[5] == hex_digit(b % 16));
        assert(s.len() >= 6);
    } else {
        assert(s[0] == b);
    }
}

/// Written content, closed by a quote, is read back as that content.
pub proof fn lemma_unescaped(content: Seq<u8>, rest: Seq<u8>)
    ensures
        unescaped(escaped(content) + (seq![QUOTE] + rest)) == Some(
            (content, escaped(content).len() as int + 1),
        ),
    decreases content.len(),
{
    let s = escaped(content) + (seq![QUOTE] + rest);
    if content.len() == 0 {
        assert(s[0] == QUOTE);
    } else {
        let head = escaped_byte(content[0]);
        let tail = content.skip(1);
        let after = escaped(tail) + (seq![QUOTE] + rest);
        lemma_unit_at(content[0], after);
        assert(s =~= head + after);
        assert(s[0] == head[0]);
        assert(s.skip(head.len() as int) =~= after);
        lemma_unescaped(tail, rest);
        assert(seq![content[0]] + tail =~= content);
    }
}

/// A written string is read back: its content, and all of its length.
pub proof fn lemma_string_at(content: Seq<u8>, rest: Seq<u8>)
    ensures
        string_at(quoted_bytes(content) + rest) == Some(
            (content, quoted_bytes(content).len() as int),
        ),
        quoted_bytes(content).len() >= 2,
        (quoted_bytes(content) + rest)[0] == QUOTE,
        (quoted_bytes(content) + rest).skip(quoted_bytes(content).len() as int) =~= rest,
{
    let s = quoted_bytes(content) + rest;
    assert(s[0] == QUOTE);
    assert(s.skip(1) =~= escaped(content) + (seq![QUOTE] + rest));
    lemma_unescaped(content, rest);
}

/// A written text is read back: the text, and all of its length.
pub proof fn lemma_text_at(text: Seq<char>, rest: Seq<u8>)
    ensures
        text_at(quoted(text) + rest) == Some((text, quoted(text).len() as int)),
        quoted(text).len() >= 2,
        (quoted(text) + rest)[0] == QUOTE,
        (quoted(text) + rest).skip(quoted(text).len() as int) =~= rest,
{
    reveal(quoted);
    reveal(text_at);
    lemma_string_at(encode_utf8(text), rest);
    encode_utf8_valid_utf8(text);
    encode_utf8_decode_utf8(text);
}

/// The byte that stands for a value below 16 as a hexadecimal digit.
fn hex_digit_of(n: u8) -> (d: u8)
    requires
        n < 16,
    ensures
        d == hex_digit(n),
{
    if n < 10 {
        0x30 + n
    } else {
        0x57 + n
    }
}

/// Appends one content byte as it is written between the quotes.
fn write_escaped_byte(out: &mut Vec<u8>, b: u8)
    ensures
        final(out)@ == old(out)@ + escaped_byte(b),
{
    let ghost before = out@;
    if b == QUOTE || b == BACKSLASH {
        out.push(BACKSLASH);
        out.push(b);
    } else if b == 0x08 {
        out.push(BACKSLASH);
        out.push(0x62);
    } else if b == 0x09 {
        out.push(BACKSLASH);
        out.push(0x74);
    } else if b == 0x0a {
        out.push(BACKSLASH);
        out.push(0x6e);
    } else if b == 0x0c {
        out.push(BACKSLASH);
        out.push(0x66);
    } else if b == 0x0d {
        out.push(BACKSLASH);
        out.push(0x72);
    } else if b < 0x20 {
        out.push(BACKSLASH);
        out.push(0x75);
        out.push(0x30);
        out.push(0x30);
        out.push(hex_digit_of(b / 16));
        out.push(hex_digit_of(b % 16));
    } else {
        out.push(b);
    }
    assert(out@ =~= before + escaped_byte(b));
}

/// Appends the JSON string whose content is `content`.
pub(crate) fn write_quoted_bytes(out: &mut Vec<u8>, content: &[u8])
    ensures
        final(out)@ == old(out)@ + quoted_bytes(content@),
{
    let ghost before = out@;
    out.push(QUOTE);
    assert(content@.skip(0) =~= content@);
    let mut i: usize = 0;
    while i < content.len()
        invariant
            i <= content.len(),
            out@ + escaped(content@.skip(i as int)) =~= before + seq![QUOTE] + escaped(content@),
        decreases content.len() - i,
    {
        let ghost so_far = out@;
        assert(content@.skip(i as int).skip(1) =~= content@.skip(i + 1));
        write_escaped_byte(out, content[i]);
        assert(out@ + escaped(content@.skip(i + 1)) =~= so_far + escaped(content@.skip(i as int)));
        i += 1;
    }
    assert(escaped(content@.skip(i as int)) =~= Seq::<u8>::empty());
    out.push(QUOTE);
    assert(out@ =~= before + quoted_bytes(content@));
}

/// Appends the JSON string for `text`.
pub(crate) fn write_quoted(out: &mut Vec<u8>, text: &str)
    ensures
        final(out)@ == old(out)@ + quoted(text@),
{
    reveal(quoted);
    write_quoted_bytes(out, text.as_bytes());
}

/// Reads a JSON string that starts at `pos`. Returns its content and the
/// position behind its closing quote, or `None` where no string stands.
pub(crate) fn read_string(bytes: &[u8], pos: usize) -> (found: Option<(Vec<u8>, usize)>)
    requires
        pos <= bytes.len(),
    ensures
        match found {
            Some((content, next)) => pos < next <= bytes.len() && string_at(bytes@.skip(pos as int))
                == Some((content@, next - pos)),
            None => string_at(bytes@.skip(pos as int)) is None,
        },
{
    if pos >= bytes.len() || bytes[pos] != QUOTE {
        return None;
    }
    let ghost body = bytes@.skip(pos as int).skip(1);
    assert(body =~= bytes@.skip(pos + 1));
    let mut content: Vec<u8> = Vec::new();
    let mut i: usize = pos + 1;
    loop
        invariant
            pos < i <= bytes.len(),
            bytes@[pos as int] == QUOTE,
            body == bytes@.skip(pos as int).skip(1),
            unescaped(body) == match unescaped(bytes@.skip(i as int)) {
                Some((rest, n)) => Some((content@ + rest, (i - pos - 1) + n)),
                None => None,
            },
        decreases bytes.len() - i,
    {
        let ghost here = bytes@.skip(i as int);
        if i >= bytes.len() {
            return None;
        }
        let b = bytes[i];
        assert(here[0] == b);
        if b == QUOTE {
            assert(content@ + Seq::<u8>::empty() =~= content@);
            return Some((content, i + 1));
        }
        let unit: u8;
        let width: usize;
        if b == BACKSLASH {
            if i + 1 >= bytes.len() {
                return None;
            }
            let e = bytes[i + 1];
            assert(here[1] == e);
            if e == QUOTE || e == BACKSLASH {
                unit = e;
                width = 2;
            } else if e == 0x62 {
                unit = 0x08;
                width = 2;
            } else if e == 0x74 {
                unit = 0x09;
                width = 2;
            } else if e == 0x6e {
                unit = 0x0a;
                width = 2;
            } else if e == 0x66 {
                unit = 0x0c;
                width = 2;
            } else if e == 0x72 {
                unit = 0x0d;
                width = 2;
            } else if e == 0x75 && bytes.len() - i >= 6 {
                assert(here[2] == bytes@[i + 2] && here[3] == bytes@[i + 3] && here[4] == bytes@[i
                    + 4] && here[5] == bytes@[i + 5]);
                let high = bytes[i + 4];
                let low = bytes[i + 5];
                if bytes[i + 2] != 0x30 || bytes[i + 3] != 0x30 || (high != 0x30 && high != 0x31) {
                    return None;
                }
                let low_value: u8 = if 0x30 <= low && low <= 0x39 {
                    low - 0x30
                } else if 0x61 <= low && low <= 0x66 {
                    low - 0x57
                } else {
                    return None;
                };
                unit = (high - 0x30) * 16 + low_value;
                width = 6;
            } else {
                return None;
            }
        } else if b < 0x20 {
            return None;
        } else {
            unit = b;
            width = 1;
        }
        assert(unit_at(here) == Some((unit, width as int)));
        assert(here.skip(width as int) =~= bytes@.skip(i + width));
        proof {
            match unescaped(bytes@.skip(i + width)) {
                Some((rest, n)) => {
                    assert(content@.push(unit) + rest =~= content@ + (seq![unit] + rest));
                },
                None => {},
            }
        }
        content.push(unit);
        i += width;
    }
}

/// Reads a JSON string that starts at `pos` as text. Returns the text and the
/// position behind the closing quote, or `None` where no string stands or its
/// content is not UTF-8.
pub(crate) fn read_text(bytes: &[u8], pos: usize) -> (found: Option<(String, usize)>)
    requires
        pos <= bytes.len(),
    ensures
        match found {
            Some((text, next)) => pos < next <= bytes.len() && text_at(bytes@.skip(pos as int))
                == Some((text@, next - pos)),
            None => text_at(bytes@.skip(pos as int)) is None,
        },
{
    reveal(text_at);
    match read_string(bytes, pos) {
        Some((content, next)) => match string_from_utf8(content) {
            Some(text) => Some((text, next)),
            None => None,
        },
        None => None,
    }
}

/// Whether a byte is a decimal digit.
pub open spec fn is_digit(b: u8) -> bool {
    0x30 <= b <= 0x39
}

/// A number in decimal digits, without leading zeros.
pub open spec fn decimal(n: nat) -> Seq<u8>
    decreases n,
{
    if n < 10 {
        seq![(0x30 + n) as u8]
    } else {
        decimal(n / 10).push((0x30 + n % 10) as u8)
    }
}

/// How many digits stand at the head of `s`.
pub open spec fn digits_len(s: Seq<u8>) -> int
    decreases s.len(),
{
    if s.len() > 0 && is_digit(s[0]) {
        1 + digits_len(s.skip(1))
    } else {
        0
    }
}

/// The number that a run of digits stands for.
pub open spec fn digits_value(digits: Seq<u8>) -> nat
    decreases digits.len(),
{
    if digits.len() == 0 {
        0
    } else {
        digits_value(digits.drop_last()) * 10 + (digits.last() - 0x30) as nat
    }
}

/// Reads the digits at the head of `s` as a number of 64 bits: the number,
/// and how many digits there are.
pub open spec fn number_at(s: Seq<u8>) -> Option<(u64, int)> {
    let n = digits_len(s);
    if n == 0 || digits_value(s.take(n)) > u64::MAX {
        None
    } else {
        Some((digits_value(s.take(n)) as u64, n))
    }
}

/// Whether every byte is a digit.
pub open spec fn all_digits(digits: Seq<u8>) -> bool {
    forall|i: int| 0 <= i < digits.len() ==> is_digit(#[trigger] digits[i])
}

/// A run of digits that is followed by something else, or by nothing, is the
/// whole run at the head.
proof fn lemma_digits_run(digits: Seq<u8>, rest: Seq<u8>)
    requires
        all_digits(digits),
        rest.len() == 0 || !is_digit(rest[0]),
    ensures
        digits_len(digits + rest) == digits.len(),
    decreases digits.len(),
{
    let s = digits + rest;
    if digits.len() == 0 {
        assert(s =~= rest);
    } else {
        assert(s[0] == digits[0]);
        assert(s.skip(1) =~= digits.skip(1) + rest);
        assert forall|i: int| 0 <= i < digits.skip(1).len() implies is_digit(
            #[trigger] digits.skip(1)[i],
        ) by {
            assert(digits.skip(1)[i] == digits[i + 1]);
        }
        lemma_digits_run(digits.skip(1), rest);
    }
}

/// The digits at the head are at least the first `k` bytes, if these are
/// digits.
proof fn lemma_digits_len_at_least(s: Seq<u8>, k: int)
    requires
        0 <= k <= s.len(),
        all_digits(s.take(k)),
    ensures
        k <= digits_len(s) <= s.len(),
    decreases s.len(),
{
    if s.len() > 0 && is_digit(s[0]) {
        if k > 0 {
            assert forall|i: int| 0 <= i < k - 1 implies is_digit(
                #[trigger] s.skip(1).take(k - 1)[i],
            ) by {
                assert(s.skip(1).take(k - 1)[i] == s.take(k)[i + 1]);
            }
            lemma_digits_len_at_least(s.skip(1), k - 1);
        } else {
            assert(all_digits(s.skip(1).take(0)));
            lemma_digits_len_at_least(s.skip(1), 0);
        }
    } else if k > 0 {
        assert(s.take(k)[0] == s[0]);
    }
}

/// More digits do not stand for less.
proof fn lemma_digits_value_grows(digits: Seq<u8>, k: int)
    requires
        0 <= k <= digits.len(),
    ensures
        digits_value(digits.take(k)) <= digits_value(digits),
    decreases digits.len(),
{
    if k == digits.len() {
        assert(digits.take(k) =~= digits);
    } else {
        assert(digits.drop_last().take(k) =~= digits.take(k));
        lemma_digits_value_grows(digits.drop_last(), k);
    }
}

/// The digits of a number are digits, and stand for the number.
pub proof fn lemma_decimal(n: nat)
    ensures
        decimal(n).len() >= 1,
        all_digits(decimal(n)),
        digits_value(decimal(n)) == n,
    decreases n,
{
    if n < 10 {
        assert(decimal(n).drop_last() =~= Seq::<u8>::empty());
        assert(digits_value(decimal(n).drop_last()) == 0);
    } else {
        lemma_decimal(n / 10);
        assert(decimal(n).drop_last() =~= decimal(n / 10));
    }
}

/// A written number is read back, where no digit follows it.
pub proof fn lemma_number_at(n: u64, rest: Seq<u8>)
    requires
        rest.len() == 0 || !is_digit(rest[0]),
    ensures
        number_at(decimal(n as nat) + rest) == Some((n, decimal(n as nat).len() as int)),
        (decimal(n as nat) + rest).skip(decimal(n as nat).len() as int) =~= rest,
{
    let digits = decimal(n as nat);
    lemma_decimal(n as nat);
    lemma_digits_run(digits, rest);
    assert((digits + rest).take(digits.len() as int) =~= digits);
}

/// Appends `n` in decimal digits.
pub(crate) fn write_decimal(out: &mut Vec<u8>, n: u64)
    ensures
        final(out)@ == old(out)@ + decimal(n as nat),
    decreases n,
{
    let ghost before = out@;
    if n >= 10 {
        write_decimal(out, n / 10);
    }
    out.push(0x30 + (n % 10) as u8);
    assert(out@ =~= before + decimal(n as nat));
}

/// Reads the digits that start at `pos` as a number. Returns the number and
/// the position behind the last digit, or `None` where no digit stands or the
/// number does not fit in 64 bits.
pub(crate) fn read_number(bytes: &[u8], pos: usize) -> (found: Option<(u64, usize)>)
    requires
        pos <= bytes.len(),
    ensures
        match found {
            Some((n, next)) => pos < next <= bytes.len() && number_at(bytes@.skip(pos as int))
                == Some((n, next - pos)),
            None => number_at(bytes@.skip(pos as int)) is None,
        },
{
    let ghost s = bytes@.skip(pos as int);
    let mut value: u64 = 0;
    let mut i: usize = pos;
    assert(s.take(0) =~= Seq::<u8>::empty());
    while i < bytes.len() && 0x30 <= bytes[i] && bytes[i] <= 0x39
        invariant
            pos <= i <= bytes.len(),
            s == bytes@.skip(pos as int),
            all_digits(s.take(i - pos)),
            value == digits_value(s.take(i - pos)),
        decreases bytes.len() - i,
    {
        let digit: u64 = (bytes[i] - 0x30) as u64;
        proof {
            assert(s.take(i + 1 - pos).drop_last() =~= s.take(i - pos));
            assert(s.take(i + 1 - pos).last() == bytes@[i as int]);
            assert forall|j: int| 0 <= j < i + 1 - pos implies is_digit(
                #[trigger] s.take(i + 1 - pos)[j],
            ) by {
                if j < i - pos {
                    assert(s.take(i + 1 - pos)[j] == s.take(i - pos)[j]);
                }
            }
        }
        if value > (u64::MAX - digit) / 10 {
            proof {
                lemma_digits_len_at_least(s, i + 1 - pos);
                let n = digits_len(s);
                lemma_digits_value_grows(s.take(n), i + 1 - pos);
                assert(s.take(n).take(i + 1 - pos) =~= s.take(i + 1 - pos));
            }
            return None;
        }
        value = value * 10 + digit;
        i += 1;
    }
    proof {
        assert(s =~= s.take(i - pos) + bytes@.skip(i as int));
        lemma_digits_run(s.take(i - pos), bytes@.skip(i as int));
    }
    if i == pos {
        None
    } else {
        Some((value, i))
    }
}

/// The texts of a list of strings.
pub open spec fn texts(items: Seq<String>) -> Seq<Seq<char>> {
    items.map_values(|s: String| s@)
}

/// What follows the first string of a list: each further string behind a
/// comma, and the closing bracket.
pub open spec fn list_tail(items: Seq<Seq<char>>) -> Seq<u8>
    decreases items.len(),
{
    if items.len() == 0 {
        seq![CLOSE_BRACKET]
    } else {
        seq![COMMA] + (quoted(items[0]) + list_tail(items.skip(1)))
    }
}

/// A list of strings in brackets, with commas between the strings.
pub open spec fn list(items: Seq<Seq<char>>) -> Seq<u8> {
    if items.len() == 0 {
        seq![OPEN_BRACKET, CLOSE_BRACKET]
    } else {
        seq![OPEN_BRACKET] + (quoted(items[0]) + list_tail(items.skip(1)))
    }
}

/// The word `null`.
pub open spec fn null() -> Seq<u8> {
    seq![0x6eu8, 0x75u8, 0x6cu8, 0x6cu8]
}

/// A list of strings that may be absent: `null`, or the list.
pub open spec fn optional_list(items: Option<Seq<Seq<char>>>) -> Seq<u8> {
    match items {
        None => null(),
        Some(items) => list(items),
    }
}

/// Reads what follows the first string of a list.
pub open spec fn list_tail_at(s: Seq<u8>) -> Option<(Seq<Seq<char>>, int)>
    decreases s.len(),
{
    if s.len() == 0 {
        None
    } else if s[0] == CLOSE_BRACKET {
        Some((Seq::empty(), 1))
    } else if s[0] == COMMA {
        match text_at(s.skip(1)) {
            Some((item, n)) => if 0 < n && 1 + n <= s.len() {
                match list_tail_at(s.skip(1 + n)) {
                    Some((rest, m)) => Some((seq![item] + rest, 1 + n + m)),
                    None => None,
                }
            } else {
                None
            },
            None => None,
        }
    } else {
        None
    }
}

/// Reads a list of strings at the head of `s`: the texts, and the length of
/// the list in `s`.
pub open spec fn list_at(s: Seq<u8>) -> Option<(Seq<Seq<char>>, int)> {
    if s.len() < 2 || s[0] != OPEN_BRACKET {
        None
    } else if s[1] == CLOSE_BRACKET {
        Some((Seq::empty(), 2))
    } else {
        match text_at(s.skip(1)) {
            Some((item, n)) => match list_tail_at(s.skip(1 + n)) {
                Some((rest, m)) => Some((seq![item] + rest, 1 + n + m)),
                None => None,
            },
            None => None,
        }
    }
}

/// Reads `null` or a list of strings at the head of `s`.
pub open spec fn optional_list_at(s: Seq<u8>) -> Option<(Option<Seq<Seq<char>>>, int)> {
    if s.len() >= 4 && s.take(4) == null() {
        Some((None, 4))
    } else {
        match list_at(s) {
            Some((items, n)) => Some((Some(items), n)),
            None => None,
        }
    }
}

/// The written tail of a list is read back.
proof fn lemma_list_tail_at(items: Seq<Seq<char>>, rest: Seq<u8>)
    ensures
        list_tail_at(list_tail(items) + rest) == Some((items, list_tail(items).len() as int)),
        (list_tail(items) + rest).skip(list_tail(items).len() as int) =~= rest,
    decreases items.len(),
{
    let s = list_tail(items) + rest;
    if items.len() == 0 {
        assert(s[0] == CLOSE_BRACKET);
    } else {
        let after = list_tail(items.skip(1)) + rest;
        assert(s[0] == COMMA);
        assert(s.skip(1) =~= quoted(items[0]) + after);
        lemma_text_at(items[0], after);
        let n = quoted(items[0]).len() as int;
        assert(s.skip(1 + n) =~= s.skip(1).skip(n));
        lemma_list_tail_at(items.skip(1), rest);
        assert(seq![items[0]] + items.skip(1) =~= items);
    }
}

/// A written list, absent or not, is read back.
pub proof fn lemma_optional_list_at(items: Option<Seq<Seq<char>>>, rest: Seq<u8>)
    ensures
        optional_list_at(optional_list(items) + rest) == Some(
            (items, optional_list(items).len() as int),
        ),
        (optional_list(items) + rest).skip(optional_list(items).len() as int) =~= rest,
{
    let s = optional_list(items) + rest;
    match items {
        None => {
            assert(s.take(4) =~= null());
        },
        Some(list_items) => {
            assert(s[0] == OPEN_BRACKET);
            if s.len() >= 4 {
                assert(s.take(4)[0] == s[0]);
            }
            if list_items.len() == 0 {
                assert(s[1] == CLOSE_BRACKET);
            } else {
                let after = list_tail(list_items.skip(1)) + rest;
                assert(s.skip(1) =~= quoted(list_items[0]) + after);
                lemma_text_at(list_items[0], after);
                assert(s[1] == QUOTE);
                let n = quoted(list_items[0]).len() as int;
                assert(s.skip(1 + n) =~= s.skip(1).skip(n));
                lemma_list_tail_at(list_items.skip(1), rest);
                assert(seq![list_items[0]] + list_items.skip(1) =~= list_items);
            }
        },
    }
}

/// Appends a list of strings, or `null` for an absent one.
pub(crate) fn write_optional_list(out: &mut Vec<u8>, items: &Option<Vec<String>>)
    ensures
        final(out)@ == old(out)@ + optional_list(
            match *items {
                Some(list_items) => Some(texts(list_items@)),
                None => None,
            },
        ),
{
    let ghost before = out@;
    match items {
        None => {
            out.push(0x6e);
            out.push(0x75);
            out.push(0x6c);
            out.push(0x6c);
            assert(out@ =~= before + null());
        },
        Some(list_items) => {
            let ghost all = texts(list_items@);
            out.push(OPEN_BRACKET);
            if list_items.len() == 0 {
                out.push(CLOSE_BRACKET);
                assert(out@ =~= before + list(all));
                return ;
            }
            write_quoted(out, list_items[0].as_str());
            let mut i: usize = 1;
            while i < list_items.len()
                invariant
                    1 <= i <= list_items.len(),
                    all == texts(list_items@),
                    out@ + list_tail(all.skip(i as int)) =~= before + list(all),
                decreases list_items.len() - i,
            {
                let ghost so_far = out@;
                assert(all.skip(i as int).skip(1) =~= all.skip(i + 1));
                out.push(COMMA);
                write_quoted(out, list_items[i].as_str());
                assert(out@ + list_tail(all.skip(i + 1)) =~= so_far + list_tail(
                    all.skip(i as int),
                ));
                i += 1;
            }
            assert(all.skip(i as int) =~= Seq::<Seq<char>>::empty());
            out.push(CLOSE_BRACKET);
            assert(out@ =~= before + list(all));
        },
    }
}

/// Reads `null` or a list of strings that starts at `pos`. Returns the list
/// and the position behind it, or `None` where neither stands.
pub(crate) fn read_optional_list(bytes: &[u8], pos: usize) -> (found: Option<(Option<Vec<String>>, usize)>)
    requires
        pos <= bytes.len(),
    ensures
        match found {
            Some((items, next)) => pos < next <= bytes.len() && optional_list_at(
                bytes@.skip(pos as int),
            ) == Some(
                (
                    match items {
                        Some(list_items) => Some(texts(list_items@)),
                        None => None,
                    },
                    next - pos,
                ),
            ),
            None => optional_list_at(bytes@.skip(pos as int)) is None,
        },
{
    let ghost s = bytes@.skip(pos as int);
    if bytes.len() - pos >= 4 && bytes[pos] == 0x6e && bytes[pos + 1] == 0x75 && bytes[pos + 2]
        == 0x6c && bytes[pos + 3] == 0x6c {
        assert(s.take(4) =~= null());
        return Some((None, pos + 4));
    }
    proof {
        if s.len() >= 4 && s.take(4) == null() {
            assert(s.take(4)[0] == s[0] && s.take(4)[1] == s[1] && s.take(4)[2] == s[2]
                && s.take(4)[3] == s[3]);
        }
    }
    if bytes.len() - pos < 2 || bytes[pos] != OPEN_BRACKET {
        return None;
    }
    let mut items: Vec<String> = Vec::new();
    if bytes[pos + 1] == CLOSE_BRACKET {
        assert(texts(items@) =~= Seq::<Seq<char>>::empty());
        return Some((Some(items), pos + 2));
    }
    assert(s.skip(1) =~= bytes@.skip(pos + 1));
    let (first, start) = match read_text(bytes, pos + 1) {
        Some(found) => found,
        None => {
            return None;
        },
    };
    let ghost first_text = first@;
    items.push(first);
    assert(s.skip(1 + (start - pos - 1)) =~= bytes@.skip(start as int));
    assert(texts(items@).skip(1) =~= Seq::<Seq<char>>::empty());
    let mut i: usize = start;
    loop
        invariant
            pos < start <= i <= bytes.len(),
            s == bytes@.skip(pos as int),
            s.len() >= 2 && s[0] == OPEN_BRACKET && s[1] != CLOSE_BRACKET,
            !(s.len() >= 4 && s.take(4) == null()),
            text_at(s.skip(1)) == Some((first_text, start - pos - 1)),
            items@.len() >= 1,
            texts(items@)[0] == first_text,
            list_tail_at(bytes@.skip(start as int)) == match list_tail_at(bytes@.skip(i as int)) {
                Some((rest, m)) => Some((texts(items@).skip(1) + rest, (i - start) + m)),
                None => None,
            },
        decreases bytes.len() - i,
    {
        let ghost here = bytes@.skip(i as int);
        assert(s.skip(1 + (start - pos - 1)) =~= bytes@.skip(start as int));
        if i >= bytes.len() {
            return None;
        }
        assert(here[0] == bytes@[i as int]);
        if bytes[i] == CLOSE_BRACKET {
            assert(texts(items@).skip(1) + Seq::<Seq<char>>::empty() =~= texts(items@).skip(1));
            assert(seq![first_text] + texts(items@).skip(1) =~= texts(items@));
            return Some((Some(items), i + 1));
        }
        if bytes[i] != COMMA {
            return None;
        }
        assert(here.skip(1) =~= bytes@.skip(i + 1));
        let (item, next) = match read_text(bytes, i + 1) {
            Some(found) => found,
            None => {
                return None;
            },
        };
        proof {
            assert(here.skip(1 + (next - i - 1)) =~= bytes@.skip(next as int));
            let so_far = texts(items@);
            match list_tail_at(bytes@.skip(next as int)) {
                Some((rest, m)) => {
                    assert(so_far.push(item@).skip(1) + rest =~= so_far.skip(1) + (seq![item@]
                        + rest));
                },
                None => {},
            }
            assert(texts(items@.push(item)) =~= so_far.push(item@));
        }
        items.push(item);
        i = next;
    }
}

/// What a scan over a nested value has seen: how many brackets are open,
/// whether it is inside a string, and whether the last byte was a backslash
/// that takes the next byte with it.
pub struct Scan {
    pub depth: nat,
    pub in_string: bool,
    pub escape: bool,
}

/// The scan before the first byte.
pub open spec fn scan_start() -> Scan {
    Scan { depth: 0, in_string: false, escape: false }
}

/// Whether `b` is the comma behind the value: one that stands outside every
/// string and bracket.
pub open spec fn ends_value(scan: Scan, b: u8) -> bool {
    !scan.in_string && scan.depth == 0 && b == COMMA
}

/// The scan after one more byte, or `None` for a closing bracket where none is
/// open.
pub open spec fn scan_step(scan: Scan, b: u8) -> Option<Scan> {
    if scan.in_string {
        if scan.escape {
            Some(Scan { escape: false, ..scan })
        } else if b == BACKSLASH {
            Some(Scan { escape: true, ..scan })
        } else if b == QUOTE {
            Some(Scan { in_string: false, ..scan })
        } else {
            Some(scan)
        }
    } else if b == QUOTE {
        Some(Scan { in_string: true, ..scan })
    } else if b == OPEN_BRACE || b == OPEN_BRACKET {
        Some(Scan { depth: scan.depth + 1, ..scan })
    } else if b == CLOSE_BRACE || b == CLOSE_BRACKET {
        if scan.depth == 0 {
            None
        } else {
            Some(Scan { depth: (scan.depth - 1) as nat, ..scan })
        }
    } else {
        Some(scan)
    }
}

/// How many bytes of `s` stand before the comma that ends the value, for a
/// scan that has come as far as `scan`.
pub open spec fn value_len_from(s: Seq<u8>, scan: Scan) -> Option<int>
    decreases s.len(),
{
    if s.len() == 0 {
        None
    } else if ends_value(scan, s[0]) {
        Some(0)
    } else {
        match scan_step(scan, s[0]) {
            Some(next) => match value_len_from(s.skip(1), next) {
                Some(n) => Some(n + 1),
                None => None,
            },
            None => None,
        }
    }
}

/// The length of the nested value at the head of `s`: the bytes before the
/// first comma that stands outside every string and bracket. There is no
/// such value where that comma is missing or comes first.
pub open spec fn value_len(s: Seq<u8>) -> Option<int> {
    match value_len_from(s, scan_start()) {
        Some(n) => if n > 0 {
            Some(n)
        } else {
            None
        },
        None => None,
    }
}

/// Whether a text can stand as a nested value: with a comma behind it, the
/// value ends at that comma and not before.
pub open spec fn is_delimited(text: Seq<u8>) -> bool {
    value_len(text + seq![COMMA]) == Some(text.len() as int)
}

/// The comma that ends a value is there.
pub proof fn lemma_value_len_bounds(s: Seq<u8>, scan: Scan)
    ensures
        value_len_from(s, scan) matches Some(n) ==> 0 <= n < s.len() && s[n] == COMMA,
    decreases s.len(),
{
    if s.len() > 0 && !ends_value(scan, s[0]) {
        match scan_step(scan, s[0]) {
            Some(next) => {
                lemma_value_len_bounds(s.skip(1), next);
            },
            None => {},
        }
    }
}

/// Where a value ends does not depend on what follows its comma.
proof fn lemma_value_len_from_prefix(s: Seq<u8>, rest: Seq<u8>, scan: Scan)
    requires
        value_len_from(s, scan) is Some,
    ensures
        value_len_from(s + rest, scan) == value_len_from(s, scan),
    decreases s.len(),
{
    let whole = s + rest;
    assert(whole[0] == s[0]);
    if !ends_value(scan, s[0]) {
        let next = scan_step(scan, s[0])->0;
        assert(whole.skip(1) =~= s.skip(1) + rest);
        lemma_value_len_from_prefix(s.skip(1), rest, next);
    }
}

/// Where a value ends does not depend on what follows its comma: what is cut
/// off behind the comma is not missed.
proof fn lemma_value_len_from_cut(s: Seq<u8>, k: int, scan: Scan)
    requires
        value_len_from(s, scan) matches Some(n) && n < k <= s.len(),
    ensures
        value_len_from(s.take(k), scan) == value_len_from(s, scan),
    decreases s.len(),
{
    lemma_value_len_bounds(s, scan);
    let cut = s.take(k);
    assert(cut[0] == s[0]);
    if !ends_value(scan, s[0]) {
        let next = scan_step(scan, s[0])->0;
        assert(cut.skip(1) =~= s.skip(1).take(k - 1));
        lemma_value_len_from_cut(s.skip(1), k - 1, next);
    }
}

/// The value that is read at the head of a byte string is a delimited text.
pub proof fn lemma_value_len_cut(s: Seq<u8>)
    requires
        value_len(s) is Some,
    ensures
        is_delimited(s.take(value_len(s)->0)),
        0 < value_len(s)->0 < s.len(),
{
    let n = value_len(s)->0;
    lemma_value_len_bounds(s, scan_start());
    lemma_value_len_from_cut(s, n + 1, scan_start());
    assert(s.take(n + 1) =~= s.take(n) + seq![COMMA]);
}

/// A delimited text is read back as the value before the comma that follows
/// it, whatever comes behind that comma.
pub proof fn lemma_value_len(text: Seq<u8>, rest: Seq<u8>)
    requires
        is_delimited(text),
    ensures
        value_len(text + (seq![COMMA] + rest)) == Some(text.len() as int),
        (text + (seq![COMMA] + rest)).skip(text.len() as int) =~= seq![COMMA] + rest,
{
    lemma_value_len_from_prefix(text + seq![COMMA], rest, scan_start());
    assert((text + seq![COMMA]) + rest =~= text + (seq![COMMA] + rest));
}

/// The scan outside every string, with `depth` brackets open.
pub open spec fn scan_outside(depth: nat) -> Scan {
    Scan { depth, in_string: false, escape: false }
}

/// The scan inside a string, with `depth` brackets open around it.
pub open spec fn scan_inside(depth: nat) -> Scan {
    Scan { depth, in_string: true, escape: false }
}

/// The scan after all of `block`, for a scan that has come as far as `scan`;
/// `None` where the value ends inside the block, or a bracket closes that
/// was not opened.
pub open spec fn scan_over(block: Seq<u8>, scan: Scan) -> Option<Scan>
    decreases block.len(),
{
    if block.len() == 0 {
        Some(scan)
    } else if ends_value(scan, block[0]) {
        None
    } else {
        match scan_step(scan, block[0]) {
            Some(next) => scan_over(block.skip(1), next),
            None => None,
        }
    }
}

/// Scanning over two blocks is scanning over the first and then over the
/// second.
pub proof fn lemma_scan_over_joined(a: Seq<u8>, b: Seq<u8>, scan: Scan)
    requires
        scan_over(a, scan) is Some,
    ensures
        scan_over(a + b, scan) == scan_over(b, scan_over(a, scan)->0),
    decreases a.len(),
{
    if a.len() == 0 {
        assert(a + b =~= b);
    } else {
        assert((a + b)[0] == a[0]);
        assert((a + b).skip(1) =~= a.skip(1) + b);
        lemma_scan_over_joined(a.skip(1), b, scan_step(scan, a[0])->0);
    }
}

/// Scanning over one byte is one step.
pub proof fn lemma_scan_over_byte(b: u8, scan: Scan)
    ensures
        scan_over(seq![b], scan) == if ends_value(scan, b) {
            None
        } else {
            scan_step(scan, b)
        },
{
    let block = seq![b];
    assert(block[0] == b);
    assert(block.skip(1) =~= Seq::<u8>::empty());
    if !ends_value(scan, b) && scan_step(scan, b) is Some {
        assert(scan_over(block.skip(1), scan_step(scan, b)->0) == scan_step(scan, b));
    }
}

/// A value does not end inside a block that can be scanned over.
proof fn lemma_value_len_behind(block: Seq<u8>, rest: Seq<u8>, scan: Scan)
    requires
        scan_over(block, scan) is Some,
    ensures
        value_len_from(block + rest, scan) == match value_len_from(
            rest,
            scan_over(block, scan)->0,
        ) {
            Some(n) => Some(n + block.len()),
            None => None,
        },
    decreases block.len(),
{
    if block.len() == 0 {
        assert(block + rest =~= rest);
    } else {
        assert((block + rest)[0] == block[0]);
        assert((block + rest).skip(1) =~= block.skip(1) + rest);
        lemma_value_len_behind(block.skip(1), rest, scan_step(scan, block[0])->0);
    }
}

/// A text that is scanned from the start to the start, with every string and
/// bracket closed again, can stand as a nested value.
pub proof fn lemma_delimited(text: Seq<u8>)
    requires
        text.len() > 0,
        scan_over(text, scan_start()) == Some(scan_start()),
    ensures
        is_delimited(text),
{
    let comma = seq![COMMA];
    lemma_value_len_behind(text, comma, scan_start());
    assert(comma[0] == COMMA);
    assert(value_len_from(comma, scan_start()) == Some(0int));
}

/// The written form of one content byte leaves a scan inside its string.
proof fn lemma_scan_escaped_byte(b: u8, depth: nat)
    ensures
        scan_over(escaped_byte(b), scan_inside(depth)) == Some(scan_inside(depth)),
{
    let inside = scan_inside(depth);
    let behind = Scan { depth, in_string: true, escape: true };
    let block = escaped_byte(b);
    if block.len() == 1 {
        lemma_scan_over_byte(b, inside);
        assert(block =~= seq![b]);
    } else {
        assert(block[0] == BACKSLASH);
        lemma_scan_over_byte(BACKSLASH, inside);
        lemma_scan_over_byte(block[1], behind);
        if block.len() == 2 {
            assert(block =~= seq![BACKSLASH] + seq![block[1]]);
            lemma_scan_over_joined(seq![BACKSLASH], seq![block[1]], inside);
        } else {
            let digits = seq![block[2]] + (seq![block[3]] + (seq![block[4]] + seq![block[5]]));
            assert(block =~= seq![BACKSLASH] + (seq![block[1]] + digits));
            lemma_scan_over_byte(block[2], inside);
            lemma_scan_over_byte(block[3], inside);
            lemma_scan_over_byte(block[4], inside);
            lemma_scan_over_byte(block[5], inside);
            lemma_scan_over_joined(seq![block[4]], seq![block[5]], inside);
            lemma_scan_over_joined(seq![block[3]], seq![block[4]] + seq![block[5]], inside);
            lemma_scan_over_joined(seq![block[2]], seq![block[3]] + (seq![block[4]] + seq![block[5]]), inside);
            lemma_scan_over_joined(seq![block[1]], digits, behind);
            lemma_scan_over_joined(seq![BACKSLASH], seq![block[1]] + digits, inside);
        }
    }
}

/// The written content of a string leaves a scan inside the string.
proof fn lemma_scan_escaped(content: Seq<u8>, depth: nat)
    ensures
        scan_over(escaped(content), scan_inside(depth)) == Some(scan_inside(depth)),
    decreases content.len(),
{
    if content.len() > 0 {
        lemma_scan_escaped_byte(content[0], depth);
        lemma_scan_escaped(content.skip(1), depth);
        lemma_scan_over_joined(
            escaped_byte(content[0]),
            escaped(content.skip(1)),
            scan_inside(depth),
        );
    }
}

/// A written string is scanned over as a whole: behind it the scan is where
/// it was in front of it.
pub proof fn lemma_scan_quoted(text: Seq<char>, depth: nat)
    ensures
        scan_over(quoted(text), scan_outside(depth)) == Some(scan_outside(depth)),
{
    reveal(quoted);
    let content = encode_utf8(text);
    let quote = seq![QUOTE];
    lemma_scan_over_byte(QUOTE, scan_outside(depth));
    lemma_scan_over_byte(QUOTE, scan_inside(depth));
    lemma_scan_escaped(content, depth);
    lemma_scan_over_joined(escaped(content), quote, scan_inside(depth));
    lemma_scan_over_joined(quote, escaped(content) + quote, scan_outside(depth));
}

/// A block of digits is scanned over with no effect.
proof fn lemma_scan_digits(digits: Seq<u8>, depth: nat)
    requires
        all_digits(digits),
    ensures
        scan_over(digits, scan_outside(depth)) == Some(scan_outside(depth)),
    decreases digits.len(),
{
    if digits.len() > 0 {
        assert(is_digit(digits[0]));
        assert forall|i: int| 0 <= i < digits.skip(1).len() implies is_digit(
            #[trigger] digits.skip(1)[i],
        ) by {
            assert(digits.skip(1)[i] == digits[i + 1]);
        }
        lemma_scan_digits(digits.skip(1), depth);
    }
}

/// A written number is scanned over with no effect.
pub proof fn lemma_scan_decimal(n: nat, depth: nat)
    ensures
        scan_over(decimal(n), scan_outside(depth)) == Some(scan_outside(depth)),
{
    lemma_decimal(n);
    lemma_scan_digits(decimal(n), depth);
}

/// Finds the end of the nested value that starts at `pos`: the position of
/// the first comma outside every string and bracket. Returns `None` where
/// there is no such comma, where it stands at `pos`, or where a bracket closes
/// that was not opened.
pub(crate) fn read_value(bytes: &[u8], pos: usize) -> (end: Option<usize>)
    requires
        pos <= bytes.len(),
    ensures
        match end {
            Some(next) => pos < next < bytes.len() && value_len(bytes@.skip(pos as int)) == Some(
                next - pos,
            ),
            None => value_len(bytes@.skip(pos as int)) is None,
        },
{
    let mut depth: usize = 0;
    let mut in_string = false;
    let mut escape = false;
    let mut i: usize = pos;
    loop
        invariant
            pos <= i <= bytes.len(),
            depth <= i - pos,
            value_len_from(bytes@.skip(pos as int), scan_start()) == match value_len_from(
                bytes@.skip(i as int),
                Scan { depth: depth as nat, in_string, escape },
            ) {
                Some(n) => Some(n + (i - pos)),
                None => None,
            },
        decreases bytes.len() - i,
    {
        let ghost here = bytes@.skip(i as int);
        let ghost scan = Scan { depth: depth as nat, in_string, escape };
        if i >= bytes.len() {
            return None;
        }
        let b = bytes[i];
        assert(here[0] == b);
        assert(here.skip(1) =~= bytes@.skip(i + 1));
        if in_string {
            if escape {
                escape = false;
            } else if b == BACKSLASH {
                escape = true;
            } else if b == QUOTE {
                in_string = false;
            }
        } else if b == QUOTE {
            in_string = true;
        } else if b == OPEN_BRACE || b == OPEN_BRACKET {
            depth += 1;
        } else if b == CLOSE_BRACE || b == CLOSE_BRACKET {
            if depth == 0 {
                return None;
            }
            depth -= 1;
        } else if b == COMMA && depth == 0 {
            if i == pos {
                return None;
            }
            return Some(i);
        }
        assert(scan_step(scan, b) == Some(Scan { depth: depth as nat, in_string, escape }));
        i += 1;
    }
}

/// Whether a text can stand as a nested value.
pub(crate) fn check_delimited(text: &[u8]) -> (ok: bool)
    ensures
        ok == is_delimited(text@),
{
    let mut probe = slice_to_vec(text);
    probe.push(COMMA);
    assert(probe@ =~= text@ + seq![COMMA]);
    assert(probe@.skip(0) =~= probe@);
    match read_value(probe.as_slice(), 0) {
        Some(end) => end == text.len(),
        None => false,
    }
}

/// Whether two byte strings are the same.
pub(crate) fn same_bytes(a: &[u8], b: &[u8]) -> (same: bool)
    ensures
        same == (a@ == b@),
{
    if a.len() != b.len() {
        return false;
    }
    let mut i: usize = 0;
    while i < a.len()
        invariant
            i <= a.len(),
            a.len() == b.len(),
            forall|j: int| 0 <= j < i ==> a@[j] == b@[j],
        decreases a.len() - i,
    {
        if a[i] != b[i] {
            return false;
        }
        i += 1;
    }
    assert(a@ =~= b@);
    true
}

} // verus!
