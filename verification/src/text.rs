//! Byte-string helpers shared by the XML and style code.
//!
//! The parts of a package are UTF-8 text, and everything the library looks
//! for in them is ASCII, so the logic works on bytes and the contracts speak
//! of byte sequences.

use vstd::prelude::*;
use vstd::slice::slice_subrange;
use vstd::utf8::*;

verus! {

/// The bytes that encode a string.
pub open spec fn utf8(chars: Seq<char>) -> Seq<u8> {
    encode_utf8(chars)
}

/// Whether every byte is ASCII.
pub open spec fn all_ascii(bytes: Seq<u8>) -> bool {
    forall|i: int| 0 <= i < bytes.len() ==> #[trigger] bytes[i] < 0x80
}

/// Whether `needle` stands in `hay` at index `at`.
pub open spec fn occurs_at(hay: Seq<u8>, needle: Seq<u8>, at: int) -> bool {
    &&& 0 <= at
    &&& at + needle.len() <= hay.len()
    &&& hay.subrange(at, at + needle.len()) =~= needle
}

/// The first index at or after `from` where `needle` stands in `hay`.
pub open spec fn first_occurrence(hay: Seq<u8>, needle: Seq<u8>, from: int) -> Option<int>
    decreases hay.len() - from,
{
    if from < 0 || from + needle.len() > hay.len() {
        None
    } else if occurs_at(hay, needle, from) {
        Some(from)
    } else {
        first_occurrence(hay, needle, from + 1)
    }
}

/// What a first occurrence is: the needle stands there, and nowhere between
/// `from` and there.
pub proof fn lemma_first_occurrence(hay: Seq<u8>, needle: Seq<u8>, from: int)
    ensures
        match first_occurrence(hay, needle, from) {
            Some(at) => {
                &&& 0 <= from <= at
                &&& occurs_at(hay, needle, at)
                &&& forall|k: int| from <= k < at ==> !occurs_at(hay, needle, k)
            },
            None => forall|k: int| 0 <= from <= k ==> !occurs_at(hay, needle, k),
        },
    decreases hay.len() - from,
{
    if from < 0 || from + needle.len() > hay.len() {
    } else if occurs_at(hay, needle, from) {
    } else {
        lemma_first_occurrence(hay, needle, from + 1);
    }
}

/// The bytes of ASCII text are its characters, one byte each.
pub proof fn lemma_ascii_text(chars: Seq<char>)
    requires
        vstd::utf8::is_ascii_chars(chars),
    ensures
        utf8(chars).len() == chars.len(),
        forall|i: int| 0 <= i < chars.len() ==> (#[trigger] utf8(chars)[i]) == chars[i] as u8,
        all_ascii(utf8(chars)),
{
    vstd::utf8::is_ascii_chars_encode_utf8(chars);
    assert forall|i: int| 0 <= i < chars.len() implies (#[trigger] utf8(chars)[i])
        == chars[i] as u8 by {
        assert(chars[i] as u8 == encode_utf8(chars)[i]);
    }
    assert forall|i: int| 0 <= i < utf8(chars).len() implies #[trigger] utf8(chars)[i] < 0x80 by {
        assert(utf8(chars)[i] == chars[i] as u8);
        assert('\0' <= chars[i] <= '\u{7f}');
    }
}

/// Compares two byte strings.
pub fn bytes_eq(a: &[u8], b: &[u8]) -> (same: bool)
    ensures
        same == (a@ == b@),
{
    if a.len() != b.len() {
        return false;
    }
    let mut i: usize = 0;
    while i < a.len()
        invariant
            a.len() == b.len(),
            i <= a.len(),
            a@.subrange(0, i as int) == b@.subrange(0, i as int),
        decreases a.len() - i,
    {
        if a[i] != b[i] {
            return false;
        }
        assert(a@.subrange(0, i + 1) == a@.subrange(0, i as int).push(a@[i as int]));
        assert(b@.subrange(0, i + 1) == b@.subrange(0, i as int).push(b@[i as int]));
        i += 1;
    }
    assert(a@.subrange(0, a.len() as int) == a@);
    assert(b@.subrange(0, b.len() as int) == b@);
    true
}

/// Whether `needle` stands in `hay` at index `at`.
pub fn matches_at(hay: &[u8], needle: &[u8], at: usize) -> (found: bool)
    ensures
        found == occurs_at(hay@, needle@, at as int),
{
    if needle.len() > hay.len() || at > hay.len() - needle.len() {
        return false;
    }
    bytes_eq(slice_subrange(hay, at, at + needle.len()), needle)
}

/// Finds the first place at or after `from` where `needle` stands in `hay`.
pub fn find_from(hay: &[u8], needle: &[u8], from: usize) -> (found: Option<usize>)
    ensures
        match found {
            Some(at) => first_occurrence(hay@, needle@, from as int) == Some(at as int),
            None => first_occurrence(hay@, needle@, from as int).is_none(),
        },
{
    if needle.len() > hay.len() || from > hay.len() - needle.len() {
        return None;
    }
    let last = hay.len() - needle.len();
    let mut i: usize = from;
    while i < last
        invariant
            from <= i <= last,
            last == hay.len() - needle.len(),
            first_occurrence(hay@, needle@, from as int) == first_occurrence(
                hay@,
                needle@,
                i as int,
            ),
        decreases last - i,
    {
        if matches_at(hay, needle, i) {
            return Some(i);
        }
        i += 1;
    }
    if matches_at(hay, needle, last) {
        Some(last)
    } else {
        assert(first_occurrence(hay@, needle@, last + 1).is_none());
        None
    }
}

/// Appends the bytes of `text` to `out`.
pub fn push_text(out: &mut Vec<u8>, text: &str)
    ensures
        final(out)@ == old(out)@ + utf8(text@),
        valid_utf8(old(out)@) ==> valid_utf8(final(out)@),
{
    out.extend_from_slice(text.as_bytes());
    assert(out@ =~= old(out)@ + utf8(text@));
    proof {
        encode_utf8_valid_utf8(text@);
        if valid_utf8(old(out)@) {
            valid_utf8_concat(old(out)@, utf8(text@));
        }
    }
}

/// Appends `bytes` to `out`.
pub fn push_bytes(out: &mut Vec<u8>, bytes: &[u8])
    ensures
        final(out)@ == old(out)@ + bytes@,
        valid_utf8(old(out)@) && valid_utf8(bytes@) ==> valid_utf8(final(out)@),
{
    out.extend_from_slice(bytes);
    assert(out@ =~= old(out)@ + bytes@);
    proof {
        if valid_utf8(old(out)@) && valid_utf8(bytes@) {
            valid_utf8_concat(old(out)@, bytes@);
        }
    }
}

/// ASCII text is valid UTF-8.
pub proof fn lemma_ascii_is_utf8(bytes: Seq<u8>)
    requires
        all_ascii(bytes),
    ensures
        valid_utf8(bytes),
{
    assert(bytes.subrange(0, 0) =~= Seq::<u8>::empty());
    assert(partial_valid_utf8(bytes, 0));
    assert forall|i: int| 0 <= i < bytes.len() implies #[trigger] is_leading_byte_width_1(
        bytes[i],
    ) by {
        assert(bytes[i] < 0x80);
    }
    partial_valid_utf8_extend_ascii_block(bytes, 0, bytes.len() as int);
    assert(bytes.subrange(0, bytes.len() as int) =~= bytes);
}

/// In valid UTF-8, a byte that no character continues begins a character.
pub proof fn lemma_boundary_at(bytes: Seq<u8>, at: int)
    requires
        valid_utf8(bytes),
        0 <= at <= bytes.len(),
        at < bytes.len() ==> !is_continuation_byte(bytes[at]),
    ensures
        is_char_boundary(bytes, at),
{
    if at < bytes.len() {
        is_char_boundary_iff_not_is_continuation_byte(bytes, at);
    } else {
        is_char_boundary_start_end_of_seq(bytes);
    }
}

/// In valid UTF-8, a character begins after every ASCII byte.
pub proof fn lemma_boundary_after_ascii(bytes: Seq<u8>, at: int)
    requires
        valid_utf8(bytes),
        0 <= at < bytes.len(),
        bytes[at] < 0x80,
    ensures
        is_char_boundary(bytes, at + 1),
{
    lemma_boundary_at(bytes, at);
    valid_utf8_split(bytes, at);
    let rest = bytes.subrange(at, bytes.len() as int);
    assert(rest[0] == bytes[at]);
    assert(valid_first_scalar(rest) && valid_utf8(pop_first_scalar(rest)));
    assert(length_of_first_scalar(rest) == 1);
    let after = pop_first_scalar(rest);
    assert(after =~= bytes.subrange(at + 1, bytes.len() as int));
    if at + 1 < bytes.len() {
        assert(after[0] == bytes[at + 1]);
        assert(is_char_boundary(after, 0));
        is_char_boundary_iff_not_is_continuation_byte(after, 0);
        lemma_boundary_at(bytes, at + 1);
    } else {
        is_char_boundary_start_end_of_seq(bytes);
    }
}

/// A piece of valid UTF-8 that is cut at character boundaries is valid.
pub proof fn lemma_piece_is_utf8(bytes: Seq<u8>, from: int, to: int)
    requires
        valid_utf8(bytes),
        0 <= from <= to <= bytes.len(),
        is_char_boundary(bytes, from),
        is_char_boundary(bytes, to),
    ensures
        valid_utf8(bytes.subrange(from, to)),
{
    valid_utf8_split(bytes, to);
    let head = bytes.subrange(0, to);
    if from < to {
        is_char_boundary_iff_not_is_continuation_byte(bytes, from);
        assert(head[from] == bytes[from]);
        is_char_boundary_iff_not_is_continuation_byte(head, from);
    } else {
        is_char_boundary_start_end_of_seq(head);
    }
    valid_utf8_split(head, from);
    assert(head.subrange(from, head.len() as int) =~= bytes.subrange(from, to));
}

/// Where a non-empty string stands in valid UTF-8, a character begins.
pub proof fn lemma_boundary_at_match(hay: Seq<u8>, needle: Seq<char>, at: int)
    requires
        valid_utf8(hay),
        needle.len() > 0,
        occurs_at(hay, utf8(needle), at),
    ensures
        at < hay.len(),
        is_char_boundary(hay, at),
{
    let n = utf8(needle);
    encode_utf8_valid_utf8(needle);
    encode_utf8_first_scalar(needle);
    assert(n.len() > 0);
    assert(is_char_boundary(n, 0));
    is_char_boundary_iff_not_is_continuation_byte(n, 0);
    assert(hay.subrange(at, at + n.len())[0] == n[0]);
    lemma_boundary_at(hay, at);
}

/// `String::from_utf8`: the string that `bytes` encode, if they are valid
/// UTF-8.
#[verifier::external_body]
pub(crate) fn string_from_utf8(bytes: Vec<u8>) -> (text: Option<String>)
    ensures
        text.is_some() == valid_utf8(bytes@),
        text matches Some(s) ==> utf8(s@) == bytes@,
{
    String::from_utf8(bytes).ok()
}

/// Turns bytes that are known to be valid UTF-8 into a string.
pub(crate) fn into_text(bytes: Vec<u8>) -> (text: String)
    requires
        valid_utf8(bytes@),
    ensures
        utf8(text@) == bytes@,
{
    match string_from_utf8(bytes) {
        Some(text) => text,
        None => String::new(),
    }
}

/// Whether a byte is an ASCII digit.
pub open spec fn is_digit(b: u8) -> bool {
    48 <= b <= 57
}

/// The decimal digits of a number, without leading zeros.
pub open spec fn decimal(n: nat) -> Seq<u8>
    decreases n,
{
    if n < 10 {
        seq![(48 + n) as u8]
    } else {
        decimal(n / 10).push((48 + n % 10) as u8)
    }
}

/// A decimal numeral consists of digits.
pub proof fn lemma_decimal_is_digits(n: nat)
    ensures
        decimal(n).len() > 0,
        forall|i: int| 0 <= i < decimal(n).len() ==> is_digit(#[trigger] decimal(n)[i]),
        all_ascii(decimal(n)),
        valid_utf8(decimal(n)),
    decreases n,
{
    if n >= 10 {
        lemma_decimal_is_digits(n / 10);
    }
    assert(all_ascii(decimal(n))) by {
        assert forall|i: int| 0 <= i < decimal(n).len() implies #[trigger] decimal(n)[i]
            < 0x80 by {
            assert(is_digit(decimal(n)[i]));
        }
    }
    lemma_ascii_is_utf8(decimal(n));
}

/// Appends the decimal digits of `n` to `out`.
pub fn push_decimal(out: &mut Vec<u8>, n: u64)
    ensures
        final(out)@ == old(out)@ + decimal(n as nat),
        valid_utf8(old(out)@) ==> valid_utf8(final(out)@),
    decreases n,
{
    proof {
        lemma_decimal_is_digits(n as nat);
        if valid_utf8(old(out)@) {
            valid_utf8_concat(old(out)@, decimal(n as nat));
        }
    }
    if n >= 10 {
        push_decimal(out, n / 10);
    }
    out.push(48 + (n % 10) as u8);
    assert(out@ =~= old(out)@ + decimal(n as nat));
}

/// The number that a string of digits denotes.
pub open spec fn digits_value(digits: Seq<u8>) -> nat
    decreases digits.len(),
{
    if digits.len() == 0 {
        0
    } else {
        digits_value(digits.drop_last()) * 10 + (digits.last() - 48) as nat
    }
}

/// Whether a string is made of digits, and of at least one.
pub open spec fn is_numeral(digits: Seq<u8>) -> bool {
    &&& digits.len() > 0
    &&& forall|i: int| 0 <= i < digits.len() ==> is_digit(#[trigger] digits[i])
}

/// The digits of an unsigned number: the string itself, but for a leading
/// plus sign.
pub open spec fn unsigned_digits(text: Seq<u8>) -> Seq<u8> {
    if text.len() > 0 && text[0] == 43 {
        text.drop_first()
    } else {
        text
    }
}

/// The 32-bit number that a string denotes: a numeral, which a plus sign may
/// precede, of a value that fits.
pub open spec fn parsed_u32(text: Seq<u8>) -> Option<u32> {
    let digits = unsigned_digits(text);
    if is_numeral(digits) && digits_value(digits) <= u32::MAX {
        Some(digits_value(digits) as u32)
    } else {
        None
    }
}

/// A longer numeral has no smaller value than the one it begins with.
pub proof fn lemma_digits_value_grows(digits: Seq<u8>, len: int)
    requires
        0 <= len <= digits.len(),
    ensures
        digits_value(digits.subrange(0, len)) <= digits_value(digits),
    decreases digits.len() - len,
{
    if len < digits.len() {
        lemma_digits_value_grows(digits, len + 1);
        let longer = digits.subrange(0, len + 1);
        assert(longer.drop_last() =~= digits.subrange(0, len));
    } else {
        assert(digits.subrange(0, len) =~= digits);
    }
}

/// Reads a 32-bit number, as `parsed_u32` defines it.
pub fn parse_u32(text: &[u8]) -> (value: Option<u32>)
    ensures
        value == parsed_u32(text@),
{
    let start: usize = if text.len() > 0 && text[0] == 43 {
        1
    } else {
        0
    };
    let ghost digits = unsigned_digits(text@);
    assert(digits =~= text@.subrange(start as int, text.len() as int));
    if start == text.len() {
        return None;
    }
    let mut value: u64 = 0;
    let mut i: usize = start;
    while i < text.len()
        invariant
            start <= i <= text.len(),
            digits == text@.subrange(start as int, text.len() as int),
            digits == unsigned_digits(text@),
            value == digits_value(digits.subrange(0, i - start)),
            value <= u32::MAX,
            forall|k: int| 0 <= k < i - start ==> is_digit(#[trigger] digits[k]),
        decreases text.len() - i,
    {
        let b = text[i];
        assert(digits[i - start] == b);
        if b < 48 || b > 57 {
            assert(!is_digit(digits[i - start]));
            return None;
        }
        let ghost longer = digits.subrange(0, i - start + 1);
        assert(longer.drop_last() =~= digits.subrange(0, i - start));
        assert(longer.last() == b);
        assert(digits_value(longer) == value * 10 + (b - 48));
        value = value * 10 + (b - 48) as u64;
        if value > 0xffff_ffff {
            proof {
                lemma_digits_value_grows(digits, i - start + 1);
            }
            return None;
        }
        i += 1;
    }
    assert(digits.subrange(0, digits.len() as int) =~= digits);
    Some(value as u32)
}

/// Appends the piece of `source` from `from` up to `to` to `out`.
pub(crate) fn push_piece(out: &mut Vec<u8>, source: &[u8], from: usize, to: usize)
    requires
        from <= to <= source.len(),
    ensures
        final(out)@ == old(out)@ + source@.subrange(from as int, to as int),
        valid_utf8(old(out)@) && valid_utf8(source@) && is_char_boundary(source@, from as int)
            && is_char_boundary(source@, to as int) ==> valid_utf8(final(out)@),
{
    proof {
        if valid_utf8(old(out)@) && valid_utf8(source@) && is_char_boundary(source@, from as int)
            && is_char_boundary(source@, to as int) {
            lemma_piece_is_utf8(source@, from as int, to as int);
            valid_utf8_concat(old(out)@, source@.subrange(from as int, to as int));
        }
    }
    out.extend_from_slice(slice_subrange(source, from, to));
    assert(out@ =~= old(out)@ + source@.subrange(from as int, to as int));
}

} // verus!
