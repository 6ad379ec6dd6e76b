//! Cell references in A1 notation: column letters followed by a row number.

use crate::text::{
    all_ascii, decimal, is_digit, lemma_ascii_is_utf8, lemma_decimal_is_digits, parse_u32,
    parsed_u32, push_decimal, utf8,
};
use vstd::prelude::*;
use vstd::utf8::valid_utf8;

verus! {

/// Whether a byte is an ASCII letter.
pub open spec fn is_letter(b: u8) -> bool {
    (65 <= b <= 90) || (97 <= b <= 122)
}

/// The value of a letter as a column digit: 1 for `A` or `a`, 26 for `Z` or
/// `z`.
pub open spec fn letter_value(b: u8) -> int {
    if b >= 97 {
        b - 96
    } else {
        b - 64
    }
}

/// The letters of a 1-based column number: `A` for 1, `Z` for 26, `AA` for
/// 27.  Column 0 has no letters.
pub open spec fn column_letters(col: nat) -> Seq<u8>
    decreases col,
{
    if col == 0 {
        Seq::empty()
    } else {
        column_letters(((col - 1) / 26) as nat).push((65 + (col - 1) % 26) as u8)
    }
}

/// The A1 reference of a cell, from its 1-based column and row.
pub open spec fn a1_of(col: nat, row: nat) -> Seq<u8> {
    column_letters(col) + decimal(row)
}

/// The digits of a reference, in order, with everything else left out.
pub open spec fn ref_digits(text: Seq<u8>) -> Seq<u8>
    decreases text.len(),
{
    if text.len() == 0 {
        Seq::empty()
    } else if is_digit(text.last()) {
        ref_digits(text.drop_last()).push(text.last())
    } else {
        ref_digits(text.drop_last())
    }
}

/// The column that the letters of a reference spell, read as a number in
/// base 26 and cut to 32 bits; everything but letters is passed over.
pub open spec fn ref_column(text: Seq<u8>) -> int
    decreases text.len(),
{
    if text.len() == 0 {
        0
    } else if is_letter(text.last()) {
        (ref_column(text.drop_last()) * 26 + letter_value(text.last())) % 0x1_0000_0000
    } else {
        ref_column(text.drop_last())
    }
}

/// The row that the digits of a reference spell, or 0 where they spell no
/// 32-bit number.
pub open spec fn ref_row(text: Seq<u8>) -> int {
    match parsed_u32(ref_digits(text)) {
        Some(row) => row as int,
        None => 0,
    }
}

/// The column of a reference fits in 32 bits.
pub proof fn lemma_ref_column_fits(text: Seq<u8>)
    ensures
        0 <= ref_column(text) <= u32::MAX,
    decreases text.len(),
{
    if text.len() > 0 {
        lemma_ref_column_fits(text.drop_last());
    }
}

/// A reference consists of ASCII letters and digits.
pub proof fn lemma_a1_is_ascii(col: nat, row: nat)
    ensures
        all_ascii(a1_of(col, row)),
        valid_utf8(a1_of(col, row)),
{
    lemma_letters_are_ascii(col);
    lemma_decimal_is_digits(row);
    lemma_ascii_is_utf8(a1_of(col, row));
}

proof fn lemma_letters_are_ascii(col: nat)
    ensures
        all_ascii(column_letters(col)),
    decreases col,
{
    if col > 0 {
        lemma_letters_are_ascii(((col - 1) / 26) as nat);
    }
}

/// Appends the letters of a column to `out`.
pub fn push_column_letters(out: &mut Vec<u8>, col: u32)
    ensures
        final(out)@ == old(out)@ + column_letters(col as nat),
    decreases col,
{
    if col > 0 {
        push_column_letters(out, (col - 1) / 26);
        out.push(65 + ((col - 1) % 26) as u8);
    }
    assert(out@ =~= old(out)@ + column_letters(col as nat));
}

/// Appends the A1 reference of a cell to `out`.
pub fn push_a1(out: &mut Vec<u8>, col: u32, row: u32)
    ensures
        final(out)@ == old(out)@ + a1_of(col as nat, row as nat),
{
    push_column_letters(out, col);
    push_decimal(out, row as u64);
    assert(out@ =~= old(out)@ + a1_of(col as nat, row as nat));
}

/// Reads a cell reference leniently: the letters give the column, the digits
/// the row, and every other character is passed over.  A reference without
/// letters has column 0; one whose digits spell no 32-bit number has row 0.
pub fn parse_cell_ref_bytes(text: &[u8]) -> (cell: (u32, u32))
    ensures
        cell.0 == ref_row(text@),
        cell.1 == ref_column(text@),
{
    let mut col: u32 = 0;
    let mut digits: Vec<u8> = Vec::new();
    let mut i: usize = 0;
    while i < text.len()
        invariant
            i <= text.len(),
            col == ref_column(text@.subrange(0, i as int)),
            digits@ == ref_digits(text@.subrange(0, i as int)),
        decreases text.len() - i,
    {
        let b = text[i];
        let ghost next = text@.subrange(0, i + 1);
        assert(next.drop_last() =~= text@.subrange(0, i as int));
        assert(next.last() == b);
        if (65 <= b && b <= 90) || (97 <= b && b <= 122) {
            let v: u64 = if b >= 97 {
                (b - 96) as u64
            } else {
                (b - 64) as u64
            };
            col = ((col as u64 * 26 + v) % 0x1_0000_0000) as u32;
        } else if 48 <= b && b <= 57 {
            digits.push(b);
        }
        i += 1;
    }
    assert(text@.subrange(0, text.len() as int) =~= text@);
    let row = match parse_u32(digits.as_slice()) {
        Some(row) => row,
        None => 0,
    };
    (row, col)
}

/// Reads a cell reference such as `B3` into its 1-based row and column, here
/// (3, 2).  See [`parse_cell_ref_bytes`] for what becomes of other input.
pub fn parse_cell_ref(cell_ref: &str) -> (cell: (u32, u32))
    ensures
        cell.0 == ref_row(utf8(cell_ref@)),
        cell.1 == ref_column(utf8(cell_ref@)),
{
    parse_cell_ref_bytes(cell_ref.as_bytes())
}

/// Writes the A1 reference of a cell from its 1-based column and row:
/// `col_row_to_a1(2, 3)` is `B3`.
pub fn col_row_to_a1(col: u32, row: u32) -> (a1: String)
    ensures
        utf8(a1@) == a1_of(col as nat, row as nat),
{
    let mut out: Vec<u8> = Vec::new();
    push_a1(&mut out, col, row);
    proof {
        lemma_a1_is_ascii(col as nat, row as nat);
    }
    crate::text::into_text(out)
}

/// Why a cell reference was refused.
#[derive(Debug, Clone, Copy, PartialEq, Eq, Structural)]
pub enum RefError {
    /// The reference holds something else than ASCII letters and digits.
    BadCharacter,
    /// The reference has no column letters, or they spell a column beyond
    /// 32 bits.
    BadColumn,
    /// The reference has no row digits, or they spell 0 or a row beyond
    /// 32 bits.
    BadRow,
}

/// Whether a reference consists of ASCII letters and digits only.
pub open spec fn only_letters_and_digits(text: Seq<u8>) -> bool {
    forall|i: int| 0 <= i < text.len() ==> is_letter(#[trigger] text[i]) || is_digit(text[i])
}

/// The column that the letters of a reference spell, as a number in base 26
/// of any size.
pub open spec fn exact_column(text: Seq<u8>) -> nat
    decreases text.len(),
{
    if text.len() == 0 {
        0
    } else if is_letter(text.last()) {
        (exact_column(text.drop_last()) * 26 + letter_value(text.last())) as nat
    } else {
        exact_column(text.drop_last())
    }
}

/// What a strict reading of a reference gives: the 0-based row and column,
/// or the reason for which the reference is refused.
pub open spec fn strict_cell(text: Seq<u8>) -> Result<(u32, u32), RefError> {
    if !only_letters_and_digits(text) {
        Err(RefError::BadCharacter)
    } else if exact_column(text) == 0 || exact_column(text) > u32::MAX {
        Err(RefError::BadColumn)
    } else {
        match parsed_u32(ref_digits(text)) {
            Some(row) if row > 0 => Ok(((row - 1) as u32, (exact_column(text) - 1) as u32)),
            _ => Err(RefError::BadRow),
        }
    }
}

/// A longer reference spells no smaller column than the one it begins with.
pub proof fn lemma_exact_column_grows(text: Seq<u8>, len: int)
    requires
        0 <= len <= text.len(),
    ensures
        exact_column(text.subrange(0, len)) <= exact_column(text),
    decreases text.len() - len,
{
    if len < text.len() {
        lemma_exact_column_grows(text, len + 1);
        let longer = text.subrange(0, len + 1);
        assert(longer.drop_last() =~= text.subrange(0, len));
    } else {
        assert(text.subrange(0, len) =~= text);
    }
}

/// Reads a cell reference strictly, into a 0-based row and column.
///
/// The reference must consist of ASCII letters, which spell the column, and
/// digits, which spell a row of 1 or more.
pub fn a1_to_row_col(a1: &str) -> (cell: Result<(u32, u32), RefError>)
    ensures
        cell == strict_cell(utf8(a1@)),
{
    let text = a1.as_bytes();
    let mut col: u32 = 0;
    let mut digits: Vec<u8> = Vec::new();
    let mut overflow = false;
    let mut i: usize = 0;
    while i < text.len()
        invariant
            i <= text.len(),
            text@ == utf8(a1@),
            only_letters_and_digits(text@.subrange(0, i as int)),
            digits@ == ref_digits(text@.subrange(0, i as int)),
            !overflow ==> col == exact_column(text@.subrange(0, i as int)),
            overflow ==> exact_column(text@.subrange(0, i as int)) > u32::MAX,
        decreases text.len() - i,
    {
        let b = text[i];
        let ghost next = text@.subrange(0, i + 1);
        assert(next.drop_last() =~= text@.subrange(0, i as int));
        assert(next.last() == b);
        if (65 <= b && b <= 90) || (97 <= b && b <= 122) {
            let v: u64 = if b >= 97 {
                (b - 96) as u64
            } else {
                (b - 64) as u64
            };
            if !overflow {
                let wide = col as u64 * 26 + v;
                if wide > 0xffff_ffff {
                    overflow = true;
                } else {
                    col = wide as u32;
                }
            } else {
                assert(exact_column(next) >= exact_column(next.drop_last())) by (nonlinear_arith)
                    requires
                        exact_column(next) == exact_column(next.drop_last()) * 26 + letter_value(b),
                        letter_value(b) >= 1,
                ;
            }
        } else if 48 <= b && b <= 57 {
            digits.push(b);
        } else {
            assert(text@[i as int] == b);
            return Err(RefError::BadCharacter);
        }
        assert forall|k: int| 0 <= k < next.len() implies is_letter(#[trigger] next[k])
            || is_digit(next[k]) by {
            if k < i {
                assert(next[k] == text@.subrange(0, i as int)[k]);
            }
        }
        i += 1;
    }
    assert(text@.subrange(0, text.len() as int) =~= text@);
    if overflow || col == 0 {
        return Err(RefError::BadColumn);
    }
    match parse_u32(digits.as_slice()) {
        Some(row) => {
            if row == 0 {
                Err(RefError::BadRow)
            } else {
                Ok((row - 1, col - 1))
            }
        },
        None => Err(RefError::BadRow),
    }
}

} // verus!
