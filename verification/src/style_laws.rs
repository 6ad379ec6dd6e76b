//! What holds of style sheets when records are added to them.

use crate::cell_ref::is_letter;
use crate::styles::{
    alignment_attrs, catalog_of, joined, plain_attr, resolve_spec, with_format,
    with_formats_section, with_new_format, xf_attrs, xf_xml, AlignmentSpec, CatalogModel,
    FormatSpec,
};
use crate::styles::{
    attr_escaped, border_xml, closing_tag, count_attr, count_of, count_place, fill_xml, flag,
    font_xml, injected, num_fmt_xml, number_attr, one_attr, opening_prefix, section_count,
    section_place, side_xml, string_attr, BorderSideSpec, BorderSpec, FillSpec, FontSpec,
    SectionPlace,
};
use crate::text::{
    decimal, digits_value, first_occurrence, is_digit, lemma_ascii_text, lemma_decimal_is_digits,
    lemma_first_occurrence, occurs_at, parsed_u32, unsigned_digits, utf8,
};
use vstd::prelude::*;

verus! {

/// Where a string stands with no place before it, from `from` on, where it
/// stands as well, its first occurrence is.
pub proof fn lemma_first_occurrence_is(hay: Seq<u8>, needle: Seq<u8>, from: int, at: int)
    requires
        0 <= from <= at,
        occurs_at(hay, needle, at),
        forall|k: int| from <= k < at ==> !occurs_at(hay, needle, k),
    ensures
        first_occurrence(hay, needle, from) == Some(at),
    decreases at - from,
{
    if from < at {
        lemma_first_occurrence_is(hay, needle, from + 1, at);
    }
}

/// A string that stands somewhere has a first occurrence, at that place or
/// before it.
pub proof fn lemma_first_occurrence_exists(hay: Seq<u8>, needle: Seq<u8>, from: int, at: int)
    requires
        0 <= from <= at,
        occurs_at(hay, needle, at),
    ensures
        first_occurrence(hay, needle, from) matches Some(first) && from <= first <= at,
    decreases at - from,
{
    if from < at && !occurs_at(hay, needle, from) {
        lemma_first_occurrence_exists(hay, needle, from + 1, at);
    }
}

/// The digits of a number spell the number.
pub proof fn lemma_decimal_value(n: nat)
    ensures
        digits_value(decimal(n)) == n,
    decreases n,
{
    if n >= 10 {
        lemma_decimal_value(n / 10);
        assert(decimal(n).drop_last() =~= decimal(n / 10));
    } else {
        assert(decimal(n).drop_last() =~= Seq::<u8>::empty());
        assert(digits_value(decimal(n).drop_last()) == 0);
    }
}

/// A number that is written in digits is read as the same number.
pub proof fn lemma_parsed_decimal(n: nat)
    ensures
        parsed_u32(decimal(n)) == (if n <= u32::MAX {
            Some(n as u32)
        } else {
            None
        }),
{
    lemma_decimal_value(n);
    lemma_decimal_is_digits(n);
    assert(is_digit(decimal(n)[0]));
    assert(unsigned_digits(decimal(n)) == decimal(n));
}

/// A change to a text: digits in place of the piece from `from` up to `to`,
/// and an element set in at `at`, which is not before `to`.
pub struct Splice {
    pub from: int,
    pub to: int,
    pub at: int,
    pub digits: Seq<u8>,
    pub element: Seq<u8>,
}

impl Splice {
    /// Whether the change fits the text.
    pub open spec fn fits(self, text: Seq<u8>) -> bool {
        0 <= self.from <= self.to <= self.at <= text.len()
    }

    /// How far the change moves what stands between the two places.
    pub open spec fn shift(self) -> int {
        self.digits.len() - (self.to - self.from)
    }

    /// The text after the change.
    pub open spec fn of(self, text: Seq<u8>) -> Seq<u8> {
        text.subrange(0, self.from) + self.digits + text.subrange(self.to, self.at) + self.element
            + text.subrange(self.at, text.len() as int)
    }
}

/// Where the bytes of a changed text come from.
pub proof fn lemma_splice(text: Seq<u8>, s: Splice)
    requires
        s.fits(text),
    ensures
        s.of(text).len() == text.len() + s.shift() + s.element.len(),
        forall|i: int| 0 <= i < s.from ==> #[trigger] s.of(text)[i] == text[i],
        forall|i: int|
            s.from <= i < s.from + s.digits.len() ==> #[trigger] s.of(text)[i] == s.digits[i
                - s.from],
        forall|i: int|
            s.from + s.digits.len() <= i < s.at + s.shift() ==> #[trigger] s.of(text)[i] == text[i
                - s.shift()],
        forall|i: int|
            s.at + s.shift() + s.element.len() <= i < s.of(text).len() ==> #[trigger] s.of(text)[i]
                == text[i - s.shift() - s.element.len()],
{
}

/// Before the change, a string stands in the changed text where it stood.
pub proof fn lemma_occurs_before(text: Seq<u8>, s: Splice, needle: Seq<u8>, k: int)
    requires
        s.fits(text),
        0 <= k,
        k + needle.len() <= s.from,
    ensures
        occurs_at(s.of(text), needle, k) == occurs_at(text, needle, k),
{
    lemma_splice(text, s);
    let after = s.of(text);
    assert(after.subrange(k, k + needle.len()) =~= text.subrange(k, k + needle.len()));
}

/// Between the two places of the change, a string stands in the changed
/// text where it stood, moved by the shift.
pub proof fn lemma_occurs_between(text: Seq<u8>, s: Splice, needle: Seq<u8>, k: int)
    requires
        s.fits(text),
        s.from + s.digits.len() <= k,
        k + needle.len() <= s.at + s.shift(),
    ensures
        occurs_at(s.of(text), needle, k) == occurs_at(text, needle, k - s.shift()),
{
    lemma_splice(text, s);
    let after = s.of(text);
    assert(after.subrange(k, k + needle.len()) =~= text.subrange(
        k - s.shift(),
        k - s.shift() + needle.len(),
    ));
}

/// After the element, a string stands in the changed text where it stood,
/// moved by the shift and by the element.
pub proof fn lemma_occurs_after(text: Seq<u8>, s: Splice, needle: Seq<u8>, k: int)
    requires
        s.fits(text),
        s.at + s.shift() + s.element.len() <= k,
    ensures
        occurs_at(s.of(text), needle, k) == occurs_at(
            text,
            needle,
            k - s.shift() - s.element.len(),
        ),
{
    lemma_splice(text, s);
    let after = s.of(text);
    let old = k - s.shift() - s.element.len();
    if k + needle.len() <= after.len() {
        assert(after.subrange(k, k + needle.len()) =~= text.subrange(old, old + needle.len()));
    }
}

/// Whether a tag is a name made of ASCII letters.
pub open spec fn is_plain_name(tag: Seq<u8>) -> bool {
    forall|i: int| 0 <= i < tag.len() ==> is_letter(#[trigger] tag[i])
}

/// What it means that a section with a count stands in a style sheet.
pub open spec fn section_facts(xml: Seq<u8>, tag: Seq<u8>, p: SectionPlace, from: int, to: int) -> bool {
    let key = utf8("count=\""@);
    &&& 0 <= p.open <= p.open_end < p.close
    &&& occurs_at(xml, closing_tag(tag), p.close)
    &&& forall|k: int| 0 <= k < p.close ==> !occurs_at(xml, closing_tag(tag), k)
    &&& occurs_at(xml, opening_prefix(tag), p.open)
    &&& forall|k: int| 0 <= k < p.open ==> !occurs_at(xml, opening_prefix(tag), k)
    &&& occurs_at(xml, utf8(">"@), p.open_end)
    &&& forall|k: int| p.open <= k < p.open_end ==> !occurs_at(xml, utf8(">"@), k)
    &&& p.open <= from - key.len()
    &&& occurs_at(xml, key, from - key.len())
    &&& forall|k: int| p.open <= k < from - key.len() ==> !occurs_at(xml, key, k)
    &&& from <= to <= p.open_end
    &&& occurs_at(xml, utf8("\""@), to)
    &&& forall|k: int| from <= k < to ==> !occurs_at(xml, utf8("\""@), k)
}

/// A section with a count is found where these facts hold, and only there.
pub proof fn lemma_section_facts(xml: Seq<u8>, tag: Seq<u8>, p: SectionPlace, from: int, to: int)
    requires
        section_place(xml, tag) == Some(p),
        count_place(xml, p) == Some((from, to)),
    ensures
        section_facts(xml, tag, p, from, to),
{
    let key = utf8("count=\""@);
    lemma_first_occurrence(xml, closing_tag(tag), 0);
    lemma_first_occurrence(xml, opening_prefix(tag), 0);
    lemma_first_occurrence(xml, utf8(">"@), p.open);
    lemma_first_occurrence(xml, key, p.open);
    lemma_first_occurrence(xml, utf8("\""@), from);
}

/// Where these facts hold, the section with its count is found.
pub proof fn lemma_section_found(xml: Seq<u8>, tag: Seq<u8>, p: SectionPlace, from: int, to: int)
    requires
        section_facts(xml, tag, p, from, to),
    ensures
        section_place(xml, tag) == Some(p),
        count_place(xml, p) == Some((from, to)),
{
    let key = utf8("count=\""@);
    lemma_first_occurrence_is(xml, closing_tag(tag), 0, p.close);
    lemma_first_occurrence_is(xml, opening_prefix(tag), 0, p.open);
    lemma_first_occurrence_is(xml, utf8(">"@), p.open, p.open_end);
    lemma_first_occurrence_is(xml, key, p.open, from - key.len());
    lemma_first_occurrence_is(xml, utf8("\""@), from, to);
    reveal_strlit("count=\"");
    lemma_ascii_text("count=\""@);
}

/// Where a string stands, its bytes stand.
pub proof fn lemma_occurs_bytes(hay: Seq<u8>, needle: Seq<u8>, at: int)
    requires
        occurs_at(hay, needle, at),
    ensures
        forall|j: int| 0 <= j < needle.len() ==> #[trigger] hay[at + j] == needle[j],
{
    assert forall|j: int| 0 <= j < needle.len() implies #[trigger] hay[at + j] == needle[j] by {
        assert(hay.subrange(at, at + needle.len())[j] == needle[j]);
    }
}

/// Where one byte of a string does not stand, the string does not stand.
pub proof fn lemma_byte_differs(hay: Seq<u8>, needle: Seq<u8>, at: int, j: int)
    requires
        0 <= j < needle.len(),
        0 <= at,
        at + j < hay.len(),
        hay[at + j] != needle[j],
    ensures
        !occurs_at(hay, needle, at),
{
    if occurs_at(hay, needle, at) {
        lemma_occurs_bytes(hay, needle, at);
    }
}

/// The bytes of the strings that mark a section.
pub proof fn lemma_marks(tag: Seq<u8>)
    ensures
        closing_tag(tag).len() == tag.len() + 3,
        closing_tag(tag)[0] == 60,
        closing_tag(tag)[1] == 47,
        closing_tag(tag)[tag.len() as int + 2] == 62,
        forall|i: int| 0 <= i < tag.len() ==> #[trigger] closing_tag(tag)[i + 2] == tag[i],
        opening_prefix(tag).len() == tag.len() + 1,
        opening_prefix(tag)[0] == 60,
        forall|i: int| 0 <= i < tag.len() ==> #[trigger] opening_prefix(tag)[i + 1] == tag[i],
        utf8(">"@) == seq![62u8],
        utf8("\""@) == seq![34u8],
        utf8("count=\""@).len() == 7,
        utf8("count=\""@)[6] == 34,
{
    reveal_strlit("</");
    reveal_strlit("<");
    reveal_strlit(">");
    reveal_strlit("\"");
    reveal_strlit("count=\"");
    lemma_ascii_text("</"@);
    lemma_ascii_text("<"@);
    lemma_ascii_text(">"@);
    lemma_ascii_text("\""@);
    lemma_ascii_text("count=\""@);
    assert(utf8(">"@) =~= seq![62u8]);
    assert(utf8("\""@) =~= seq![34u8]);
}

/// The change that a new record makes to a style sheet: the new count in
/// place of the old one, and the record before the closing tag.
pub open spec fn record_splice(
    p: SectionPlace,
    from: int,
    to: int,
    digits: Seq<u8>,
    element: Seq<u8>,
) -> Splice {
    Splice { from, to, at: p.close, digits, element }
}

/// After a record is added, the opening tag of the section begins where it
/// began.
proof fn lemma_opening_stays(
    xml: Seq<u8>,
    tag: Seq<u8>,
    p: SectionPlace,
    from: int,
    to: int,
    s: Splice,
)
    requires
        section_facts(xml, tag, p, from, to),
        is_plain_name(tag),
        s == record_splice(p, from, to, s.digits, s.element),
        p.close <= xml.len(),
    ensures
        p.open + opening_prefix(tag).len() < from,
        occurs_at(s.of(xml), opening_prefix(tag), p.open),
        forall|k: int| 0 <= k < p.open ==> !occurs_at(s.of(xml), opening_prefix(tag), k),
{
    lemma_marks(tag);
    let prefix = opening_prefix(tag);
    let key = utf8("count=\""@);
    lemma_occurs_bytes(xml, key, from - 7);
    lemma_occurs_bytes(xml, prefix, p.open);
    assert(xml[from - 7 + 6] == 34);
    if from - 1 < p.open + prefix.len() {
        let j = from - 1 - p.open;
        assert(xml[p.open + j] == prefix[j]);
        assert(prefix[(j - 1) + 1] == tag[j - 1]);
        assert(is_letter(tag[j - 1]));
    }
    lemma_occurs_before(xml, s, prefix, p.open);
    assert forall|k: int| 0 <= k < p.open implies !occurs_at(s.of(xml), prefix, k) by {
        lemma_occurs_before(xml, s, prefix, k);
    }
}

/// After a record is added, the opening tag of the section ends where it
/// ended, moved by the shift.
proof fn lemma_opening_end_moves(
    xml: Seq<u8>,
    tag: Seq<u8>,
    p: SectionPlace,
    from: int,
    to: int,
    s: Splice,
)
    requires
        section_facts(xml, tag, p, from, to),
        s == record_splice(p, from, to, s.digits, s.element),
        p.close <= xml.len(),
        forall|i: int| 0 <= i < s.digits.len() ==> is_digit(#[trigger] s.digits[i]),
        p.open < from,
    ensures
        occurs_at(s.of(xml), utf8(">"@), p.open_end + s.shift()),
        forall|k: int|
            p.open <= k < p.open_end + s.shift() ==> !occurs_at(s.of(xml), utf8(">"@), k),
{
    lemma_marks(tag);
    lemma_splice(xml, s);
    let gt = utf8(">"@);
    lemma_occurs_between(xml, s, gt, p.open_end + s.shift());
    assert forall|k: int| p.open <= k < p.open_end + s.shift() implies !occurs_at(
        s.of(xml),
        gt,
        k,
    ) by {
        if k + 1 <= from {
            lemma_occurs_before(xml, s, gt, k);
        } else if k < from + s.digits.len() {
            assert(is_digit(s.digits[k - from]));
            lemma_byte_differs(s.of(xml), gt, k, 0);
        } else {
            lemma_occurs_between(xml, s, gt, k);
        }
    }
}

/// After a record is added, the count of the section stands where it
/// stood, and is the new count.
proof fn lemma_count_is_new(
    xml: Seq<u8>,
    tag: Seq<u8>,
    p: SectionPlace,
    from: int,
    to: int,
    s: Splice,
)
    requires
        section_facts(xml, tag, p, from, to),
        s == record_splice(p, from, to, s.digits, s.element),
        p.close <= xml.len(),
        forall|i: int| 0 <= i < s.digits.len() ==> is_digit(#[trigger] s.digits[i]),
    ensures
        occurs_at(s.of(xml), utf8("count=\""@), from - 7),
        forall|k: int| p.open <= k < from - 7 ==> !occurs_at(s.of(xml), utf8("count=\""@), k),
        occurs_at(s.of(xml), utf8("\""@), from + s.digits.len()),
        forall|k: int|
            from <= k < from + s.digits.len() ==> !occurs_at(s.of(xml), utf8("\""@), k),
        s.of(xml).subrange(from, from + s.digits.len()) == s.digits,
{
    lemma_marks(tag);
    lemma_splice(xml, s);
    let key = utf8("count=\""@);
    let quote = utf8("\""@);
    lemma_occurs_before(xml, s, key, from - 7);
    assert forall|k: int| p.open <= k < from - 7 implies !occurs_at(s.of(xml), key, k) by {
        lemma_occurs_before(xml, s, key, k);
    }
    lemma_occurs_between(xml, s, quote, from + s.digits.len());
    assert forall|k: int| from <= k < from + s.digits.len() implies !occurs_at(
        s.of(xml),
        quote,
        k,
    ) by {
        assert(is_digit(s.digits[k - from]));
        lemma_byte_differs(s.of(xml), quote, k, 0);
    }
    assert(s.of(xml).subrange(from, from + s.digits.len()) =~= s.digits);
}

/// One of the new digits in a changed text.
proof fn lemma_splice_digit(text: Seq<u8>, s: Splice, i: int)
    requires
        s.fits(text),
        s.from <= i < s.from + s.digits.len(),
    ensures
        s.of(text)[i] == s.digits[i - s.from],
{
}

/// No letter and no mark of a tag is a digit or a blank.
proof fn lemma_closing_has_no_digit(tag: Seq<u8>, o: int)
    requires
        is_plain_name(tag),
        0 <= o < closing_tag(tag).len(),
    ensures
        !is_digit(closing_tag(tag)[o]),
        closing_tag(tag)[o] != 32,
        o < closing_tag(tag).len() - 1 ==> closing_tag(tag)[o] != 62,
{
    lemma_marks(tag);
    if o >= 2 && o < closing_tag(tag).len() - 1 {
        assert(closing_tag(tag)[(o - 2) + 2] == tag[o - 2]);
        assert(is_letter(tag[o - 2]));
    }
}

/// A closing tag cannot stand in a changed text so that it ends where the
/// opening tag ends, or reaches over that place.
proof fn lemma_closing_not_across(
    xml: Seq<u8>,
    tag: Seq<u8>,
    s: Splice,
    close: int,
    end: int,
    old_close: int,
)
    requires
        is_plain_name(tag),
        s.fits(xml),
        s.at == old_close,
        s.digits.len() > 0,
        is_filling(s.digits),
        s.from + s.digits.len() - 1 <= end < old_close + s.shift(),
        forall|k: int| 0 <= k < old_close ==> !occurs_at(xml, closing_tag(tag), k),
        s.of(xml)[end] == 62,
        0 <= close <= end,
        end <= close + closing_tag(tag).len() - 1,
    ensures
        !occurs_at(s.of(xml), closing_tag(tag), close),
{
    let after = s.of(xml);
    let closing = closing_tag(tag);
    let len = closing.len() as int;
    let last = close + len - 1;
    if occurs_at(after, closing, close) {
        lemma_occurs_bytes(after, closing, close);
        if last == end {
            if close >= s.from + s.digits.len() {
                lemma_occurs_between(xml, s, closing, close);
                assert(!occurs_at(xml, closing, close - s.shift()));
            } else {
                let j = if close < s.from {
                    s.from
                } else {
                    close
                };
                lemma_splice_digit(xml, s, j);
                assert(after[close + (j - close)] == closing[j - close]);
                lemma_closing_has_no_digit(tag, j - close);
                lemma_marks(tag);
            }
        } else {
            let o = end - close;
            assert(after[close + o] == closing[o]);
            lemma_closing_has_no_digit(tag, o);
        }
    }
}

/// After a record is added, the closing tag of the section is found, and
/// after the end of the opening tag.
#[verifier::rlimit(30)]
proof fn lemma_closing_follows(
    xml: Seq<u8>,
    tag: Seq<u8>,
    open: int,
    old_close: int,
    end: int,
    s: Splice,
)
    requires
        is_plain_name(tag),
        s.fits(xml),
        s.at == old_close,
        s.digits.len() > 0,
        is_filling(s.digits),
        0 <= open < s.from,
        s.from + s.digits.len() - 1 <= end < old_close + s.shift(),
        occurs_at(xml, closing_tag(tag), old_close),
        forall|k: int| 0 <= k < old_close ==> !occurs_at(xml, closing_tag(tag), k),
        occurs_at(s.of(xml), utf8(">"@), end),
        forall|k: int| open <= k < end ==> !occurs_at(s.of(xml), utf8(">"@), k),
    ensures
        first_occurrence(s.of(xml), closing_tag(tag), 0) matches Some(close) && end < close,
{
    lemma_marks(tag);
    let after = s.of(xml);
    let closing = closing_tag(tag);
    let len = closing.len() as int;
    lemma_occurs_after(xml, s, closing, old_close + s.shift() + s.element.len());
    lemma_first_occurrence_exists(after, closing, 0, old_close + s.shift() + s.element.len());
    lemma_first_occurrence(after, closing, 0);
    let close = first_occurrence(after, closing, 0).unwrap();
    lemma_occurs_bytes(after, utf8(">"@), end);
    assert(after[end + 0] == 62);
    if close <= end {
        let last = close + len - 1;
        if close + len <= open {
            lemma_occurs_before(xml, s, closing, close);
        } else if last < end {
            lemma_occurs_bytes(after, closing, close);
            assert(after[close + (len - 1)] == 62);
            assert(occurs_at(after, utf8(">"@), last)) by {
                assert(after.subrange(last, last + 1) =~= seq![62u8]);
            }
        } else {
            lemma_closing_not_across(xml, tag, s, close, end, old_close);
        }
    }
}

/// After a record is added to a section, the section states one more
/// record.
///
/// This holds of a section whose name is made of letters, which is there
/// and states a count; the count must not be the highest number, which has
/// none after it.
pub proof fn lemma_injection_counts(xml: Seq<u8>, tag: Seq<u8>, element: Seq<u8>)
    requires
        is_plain_name(tag),
        section_place(xml, tag) matches Some(p) && count_place(xml, p).is_some(),
        count_of(xml, tag) < u32::MAX,
    ensures
        count_of(injected(xml, tag, element).0, tag) == count_of(xml, tag) + 1,
        injected(xml, tag, element).1 == count_of(xml, tag),
        section_place(injected(xml, tag, element).0, tag) matches Some(after) && count_place(
            injected(xml, tag, element).0,
            after,
        ).is_some() && after.open == section_place(xml, tag).unwrap().open,
        states_count(injected(xml, tag, element).0, tag),
{
    reveal(injected);
    let p = section_place(xml, tag).unwrap();
    let (from, to) = count_place(xml, p).unwrap();
    let count = section_count(xml, tag, p);
    let digits = decimal((count + 1) as nat);
    lemma_section_facts(xml, tag, p, from, to);
    lemma_marks(tag);
    lemma_occurs_bytes(xml, closing_tag(tag), p.close);
    assert(p.close + closing_tag(tag).len() <= xml.len());
    lemma_decimal_is_digits((count + 1) as nat);
    lemma_digits_fill(digits);
    let s = record_splice(p, from, to, digits, element);
    let after = s.of(xml);
    assert(after =~= injected(xml, tag, element).0);
    lemma_opening_stays(xml, tag, p, from, to, s);
    lemma_opening_end_moves(xml, tag, p, from, to, s);
    lemma_count_is_new(xml, tag, p, from, to, s);
    lemma_closing_follows(xml, tag, p.open, p.close, p.open_end + s.shift(), s);
    lemma_first_occurrence(after, closing_tag(tag), 0);
    let close = first_occurrence(after, closing_tag(tag), 0).unwrap();
    let moved = SectionPlace { open: p.open, open_end: p.open_end + s.shift(), close };
    assert(section_facts(after, tag, moved, from, from + digits.len()));
    lemma_section_found(after, tag, moved, from, from + digits.len());
    lemma_parsed_decimal((count + 1) as nat);
}

/// Whether the opening tag of a section has no attribute `count`: the text
/// `count="` stands nowhere in it.
pub open spec fn lacks_count(xml: Seq<u8>, p: SectionPlace) -> bool {
    forall|k: int|
        p.open <= k && k + 7 <= p.open_end + 1 ==> !(#[trigger] occurs_at(
            xml,
            utf8("count=\""@),
            k,
        ))
}

/// The bytes of a new attribute `count`: a blank, `count="`, the digits
/// and `"`.
proof fn lemma_count_attr_bytes(count: nat)
    ensures
        count_attr(count).len() == decimal(count).len() + 9,
        count_attr(count)[0] == 32,
        count_attr(count).subrange(1, 8) == utf8("count=\""@),
        count_attr(count).subrange(8, decimal(count).len() as int + 8) == decimal(count),
        count_attr(count)[decimal(count).len() as int + 8] == 34,
        forall|i: int| 0 <= i < count_attr(count).len() ==> #[trigger] count_attr(count)[i] != 62,
        forall|j: int| 0 <= j < 7 ==> #[trigger] utf8("count=\""@)[j] != 32,
{
    reveal_strlit(" count=\"");
    reveal_strlit("count=\"");
    reveal_strlit("\"");
    lemma_ascii_text(" count=\""@);
    lemma_ascii_text("count=\""@);
    lemma_ascii_text("\""@);
    lemma_decimal_is_digits(count);
    let a = utf8(" count=\""@);
    let key = utf8("count=\""@);
    let d = decimal(count);
    let b = utf8("\""@);
    let all = count_attr(count);
    assert(a.len() == 8 && key.len() == 7 && b.len() == 1);
    assert forall|j: int| 0 <= j < 8 implies #[trigger] all[j] == a[j] && a[j] == " count=\""@[j]
        as u8 by {}
    assert forall|j: int| 0 <= j < 7 implies #[trigger] key[j] == "count=\""@[j] as u8 by {}
    assert forall|j: int| 0 <= j < 7 implies #[trigger] key[j] != 32 by {
        assert(key[j] == "count=\""@[j] as u8);
    }
    let named = all.subrange(1, 8);
    assert forall|j: int| 0 <= j < 7 implies #[trigger] named[j] == key[j] by {
        assert(all[1 + j] == a[1 + j]);
        assert(key[j] == "count=\""@[j] as u8);
    }
    assert(named =~= key);
    assert(all.subrange(8, d.len() as int + 8) =~= d);
    assert(all[d.len() as int + 8] == b[0]);
    assert(b[0] == "\""@[0] as u8);
    assert forall|i: int| 0 <= i < all.len() implies #[trigger] all[i] != 62 by {
        if i < 8 {
            assert(all[i] == a[i] && a[i] == " count=\""@[i] as u8);
        } else if i < 8 + d.len() {
            assert(all[i] == d[i - 8]);
            assert(is_digit(d[i - 8]));
        } else {
            assert(all[i] == b[i - 8 - d.len()]);
        }
    }
}

/// After a record is added to a section that states no count, the section
/// states one: the number of its records with the new one, whose index is
/// the number of records before.
///
/// This holds of a section whose name is made of letters and whose opening
/// tag has no attribute `count`; the number of its records must not be the
/// highest number, which has none after it.
pub proof fn lemma_injection_states_count(xml: Seq<u8>, tag: Seq<u8>, element: Seq<u8>)
    requires
        is_plain_name(tag),
        section_place(xml, tag) matches Some(p) && lacks_count(xml, p),
        count_of(xml, tag) < u32::MAX,
    ensures
        injected(xml, tag, element).1 == count_of(xml, tag),
        states_count(injected(xml, tag, element).0, tag),
        count_of(injected(xml, tag, element).0, tag) == count_of(xml, tag) + 1,
{
    reveal(injected);
    let p = section_place(xml, tag).unwrap();
    let key = utf8("count=\""@);
    let quote = utf8("\""@);
    let gt = utf8(">"@);
    let prefix = opening_prefix(tag);
    let closing = closing_tag(tag);
    lemma_marks(tag);
    lemma_first_occurrence(xml, closing, 0);
    lemma_first_occurrence(xml, prefix, 0);
    lemma_first_occurrence(xml, gt, p.open);
    lemma_first_occurrence(xml, key, p.open);
    assert(count_place(xml, p).is_none());
    let count = section_count(xml, tag, p);
    let n = (count + 1) as nat;
    let digits = decimal(n);
    let attr = count_attr(n);
    lemma_count_attr_fills(n);
    lemma_count_attr_bytes(n);
    lemma_decimal_is_digits(n);
    lemma_occurs_bytes(xml, closing, p.close);
    lemma_occurs_bytes(xml, prefix, p.open);
    lemma_occurs_bytes(xml, gt, p.open_end);
    assert(xml[p.open_end + 0] == 62);
    assert(p.open + prefix.len() <= p.open_end) by {
        if p.open_end < p.open + prefix.len() {
            let j = p.open_end - p.open;
            assert(xml[p.open + j] == prefix[j]);
            if j > 0 {
                assert(prefix[(j - 1) + 1] == tag[j - 1]);
                assert(is_letter(tag[j - 1]));
            }
        }
    }
    let s = Splice { from: p.open_end, to: p.open_end, at: p.close, digits: attr, element };
    let after = s.of(xml);
    assert(after =~= injected(xml, tag, element).0);
    lemma_splice(xml, s);
    let end = p.open_end + attr.len();
    let from = p.open_end + 8;
    let to = from + digits.len();
    // The opening tag begins where it began.
    lemma_occurs_before(xml, s, prefix, p.open);
    assert forall|k: int| 0 <= k < p.open implies !occurs_at(after, prefix, k) by {
        lemma_occurs_before(xml, s, prefix, k);
    }
    // It ends after the new attribute.
    lemma_occurs_between(xml, s, gt, end);
    assert forall|k: int| p.open <= k < end implies !occurs_at(after, gt, k) by {
        if k + 1 <= p.open_end {
            lemma_occurs_before(xml, s, gt, k);
        } else {
            assert(after[k] == attr[k - p.open_end]);
            lemma_byte_differs(after, gt, k, 0);
        }
    }
    // The new attribute is the first of its name.
    let named = after.subrange(p.open_end + 1, p.open_end + 8);
    assert forall|j: int| 0 <= j < 7 implies #[trigger] named[j] == key[j] by {
        assert(after[p.open_end + 1 + j] == attr[1 + j]);
        assert(attr.subrange(1, 8)[j] == attr[1 + j]);
    }
    assert(named =~= key);
    assert(occurs_at(after, key, p.open_end + 1));
    assert forall|k: int| p.open <= k < p.open_end + 1 implies !occurs_at(after, key, k) by {
        if k + 7 <= p.open_end {
            lemma_occurs_before(xml, s, key, k);
            assert(!occurs_at(xml, key, k));
        } else {
            let j = p.open_end - k;
            assert(after[k + j] == attr[0]);
            assert(key[j] != 32);
            lemma_byte_differs(after, key, k, j);
        }
    }
    // Its value is the digits of the new count.
    let value = after.subrange(from, to);
    assert forall|j: int| 0 <= j < digits.len() implies #[trigger] value[j] == digits[j] by {
        assert(after[from + j] == attr[8 + j]);
        assert(attr.subrange(8, digits.len() as int + 8)[j] == attr[8 + j]);
    }
    assert(value =~= digits);
    assert(after[to] == attr[digits.len() as int + 8]);
    assert(after.subrange(to, to + 1) =~= quote);
    assert(occurs_at(after, quote, to));
    assert forall|k: int| from <= k < to implies !occurs_at(after, quote, k) by {
        assert(after[k] == value[k - from]);
        assert(is_digit(digits[k - from]));
        lemma_byte_differs(after, quote, k, 0);
    }
    // The closing tag follows.
    lemma_closing_follows(xml, tag, p.open, p.close, end, s);
    lemma_first_occurrence(after, closing, 0);
    let close = first_occurrence(after, closing, 0).unwrap();
    let moved = SectionPlace { open: p.open, open_end: end, close };
    assert(section_facts(after, tag, moved, from, to));
    lemma_section_found(after, tag, moved, from, to);
    lemma_parsed_decimal(n);
}

/// Two records that are added to a section that states no count get
/// indices that follow one another: the first record brings the count that
/// the second one finds.
pub proof fn lemma_second_record_finds_count(
    xml: Seq<u8>,
    tag: Seq<u8>,
    first: Seq<u8>,
    second: Seq<u8>,
)
    requires
        is_plain_name(tag),
        section_place(xml, tag) matches Some(p) && lacks_count(xml, p),
        count_of(xml, tag) < u32::MAX,
    ensures
        injected(injected(xml, tag, first).0, tag, second).1 == injected(xml, tag, first).1 + 1,
{
    reveal(injected);
    lemma_injection_states_count(xml, tag, first);
}

/// Two records that are added to a section one after the other get indices
/// that follow one another.
pub proof fn lemma_second_record_follows(
    xml: Seq<u8>,
    tag: Seq<u8>,
    first: Seq<u8>,
    second: Seq<u8>,
)
    requires
        is_plain_name(tag),
        section_place(xml, tag) matches Some(p) && count_place(xml, p).is_some(),
        count_of(xml, tag) < u32::MAX,
    ensures
        injected(injected(xml, tag, first).0, tag, second).1 == injected(xml, tag, first).1 + 1,
{
    reveal(injected);
    lemma_injection_counts(xml, tag, first);
}

/// The names of the sections of a style sheet are made of letters.
pub proof fn lemma_section_names_are_plain()
    ensures
        is_plain_name(utf8("fonts"@)),
        is_plain_name(utf8("fills"@)),
        is_plain_name(utf8("borders"@)),
        is_plain_name(utf8("numFmts"@)),
        is_plain_name(utf8("cellXfs"@)),
{
    reveal_strlit("fonts");
    reveal_strlit("fills");
    reveal_strlit("borders");
    reveal_strlit("numFmts");
    reveal_strlit("cellXfs");
    lemma_ascii_text("fonts"@);
    lemma_ascii_text("fills"@);
    lemma_ascii_text("borders"@);
    lemma_ascii_text("numFmts"@);
    lemma_ascii_text("cellXfs"@);
    assert forall|i: int| 0 <= i < utf8("fonts"@).len() implies is_letter(
        #[trigger] utf8("fonts"@)[i],
    ) by {
        assert(utf8("fonts"@)[i] == "fonts"@[i] as u8);
    }
    assert forall|i: int| 0 <= i < utf8("fills"@).len() implies is_letter(
        #[trigger] utf8("fills"@)[i],
    ) by {
        assert(utf8("fills"@)[i] == "fills"@[i] as u8);
    }
    assert forall|i: int| 0 <= i < utf8("borders"@).len() implies is_letter(
        #[trigger] utf8("borders"@)[i],
    ) by {
        assert(utf8("borders"@)[i] == "borders"@[i] as u8);
    }
    assert forall|i: int| 0 <= i < utf8("numFmts"@).len() implies is_letter(
        #[trigger] utf8("numFmts"@)[i],
    ) by {
        assert(utf8("numFmts"@)[i] == "numFmts"@[i] as u8);
    }
    assert forall|i: int| 0 <= i < utf8("cellXfs"@).len() implies is_letter(
        #[trigger] utf8("cellXfs"@)[i],
    ) by {
        assert(utf8("cellXfs"@)[i] == "cellXfs"@[i] as u8);
    }
}

/// A style that sets no font, no fill, no border and no number format
/// leaves the catalog in step with its text: after it is added to the
/// catalog of a style sheet whose `cellXfs` section states a count, the text
/// states the count of styles that the catalog has.
pub proof fn lemma_plain_style_keeps_step(xml: Seq<u8>, spec: crate::styles::FormatSpec)
    requires
        spec.font.is_none(),
        spec.fill.is_none(),
        spec.border.is_none(),
        spec.number_format.is_none(),
        section_place(xml, utf8("cellXfs"@)) matches Some(p) && count_place(xml, p).is_some(),
        count_of(xml, utf8("cellXfs"@)) < u32::MAX,
    ensures
        ({
            let after = crate::styles::resolve_spec(crate::styles::catalog_of(xml), spec).0;
            count_of(after.text, utf8("cellXfs"@)) == after.styles
        }),
{
    reveal(crate::styles::resolve_spec);
    lemma_section_names_are_plain();
    let record = crate::styles::xf_xml(0, 0, 0, 0, spec.alignment, false, false, false, false);
    lemma_injection_counts(xml, utf8("cellXfs"@), record);
}

// ---------------------------------------------------------------------------
// The styles section while other sections grow
// ---------------------------------------------------------------------------
/// Whether a text is free of what could be taken for certain tags: after
/// each `<` stand two more bytes, and `bad` does not hold of them.
pub open spec fn avoids(text: Seq<u8>, bad: spec_fn(u8, u8) -> bool) -> bool {
    forall|k: int|
        0 <= k < text.len() && #[trigger] text[k] == 60 ==> k + 2 < text.len() && !bad(
            text[k + 1],
            text[k + 2],
        )
}

/// Whether a string is a mark that such a text is free of: it begins with
/// `<` and two bytes of which `bad` holds, and has no other `<` and no
/// digit.
pub open spec fn is_mark(mark: Seq<u8>, bad: spec_fn(u8, u8) -> bool) -> bool {
    &&& mark.len() >= 3
    &&& mark[0] == 60
    &&& bad(mark[1], mark[2])
    &&& forall|j: int| 1 <= j < mark.len() ==> #[trigger] mark[j] != 60
    &&& forall|j: int| 0 <= j < mark.len() ==> !is_digit(#[trigger] mark[j])
}

/// What the tags of the `cellXfs` section begin with after their `<`: `ce`
/// and `/c`.
pub open spec fn styles_leads() -> spec_fn(u8, u8) -> bool {
    |a: u8, b: u8| (a == 99 && b == 101) || (a == 47 && b == 99)
}

/// What the tags begin with after their `<` that part the other sections
/// from the styles: the closing tags of the fonts, fills, borders and number
/// formats, and the opening tags of the fonts and of the number formats.
pub open spec fn other_leads() -> spec_fn(u8, u8) -> bool {
    |a: u8, b: u8|
        (a == 47 && (b == 102 || b == 98 || b == 110)) || (a == 102 && b == 111) || (a == 110 && b
            == 117)
}

/// Whether a text is free of what could be taken for a tag of the `cellXfs`
/// section.
pub open spec fn avoids_styles(text: Seq<u8>) -> bool {
    avoids(text, styles_leads())
}

/// Whether a string is one of the two marks of the `cellXfs` section.
pub open spec fn is_styles_mark(mark: Seq<u8>) -> bool {
    is_mark(mark, styles_leads())
}

/// A mark cannot come to stand in a range of a text by a change in that
/// range.
///
/// The change puts a filling in place of a piece of the text, or nothing at
/// all, and sets an element in before a `<`.  The filling has no `<` and
/// begins with a byte that the mark does not have; the element is free of
/// what could be taken for the mark.  If the mark stood nowhere from `lo` up
/// to `hi` before the change, it stands nowhere from `lo` up to `hi` after
/// it, where `hi` is moved by the change.
pub proof fn lemma_mark_stays_out(
    text: Seq<u8>,
    s: Splice,
    mark: Seq<u8>,
    bad: spec_fn(u8, u8) -> bool,
    lo: int,
    hi: int,
    k: int,
)
    requires
        s.fits(text),
        0 <= lo <= s.from,
        s.at < hi <= text.len(),
        text[s.at] == 60,
        s.digits.len() > 0 || (s.from == s.to && s.to == s.at),
        forall|i: int| 0 <= i < s.digits.len() ==> #[trigger] s.digits[i] != 60,
        s.digits.len() > 0 ==> forall|j: int|
            0 <= j < mark.len() ==> #[trigger] mark[j] != s.digits[0],
        s.element.len() > 0 ==> s.element[0] == 60,
        avoids(s.element, bad),
        is_mark(mark, bad),
        forall|j: int| lo <= j < hi ==> !occurs_at(text, mark, j),
        lo <= k < hi + s.shift() + s.element.len(),
    ensures
        !occurs_at(s.of(text), mark, k),
{
    let after = s.of(text);
    let size = mark.len() as int;
    let dig = s.from + s.digits.len();
    let ins = s.at + s.shift();
    let end = ins + s.element.len();
    lemma_splice(text, s);
    if occurs_at(after, mark, k) {
        lemma_occurs_bytes(after, mark, k);
        if k + size <= s.from {
            lemma_occurs_before(text, s, mark, k);
        } else if k < dig {
            // The mark reaches into the filling.
            let j = if k < s.from {
                s.from
            } else {
                k
            };
            assert(after[k + (j - k)] == mark[j - k]);
            assert(after[j] == s.digits[j - s.from]);
        } else if k + size <= ins {
            lemma_occurs_between(text, s, mark, k);
        } else if k < ins {
            // The mark reaches over the place where the element begins.
            let o = ins - k;
            assert(after[k + o] == mark[o]);
            if s.element.len() > 0 {
                assert(after[ins] == s.element[0]) by {
                    assert(after =~= text.subrange(0, s.from) + s.digits + text.subrange(
                        s.to,
                        s.at,
                    ) + s.element + text.subrange(s.at, text.len() as int));
                }
            } else {
                assert(after[ins] == text[ins - s.shift() - s.element.len()]);
            }
        } else if k + size <= end {
            // The mark stands inside the element.
            let e = k - ins;
            assert(after[k + 0] == mark[0]);
            assert(after[k + 1] == mark[1]);
            assert(after[k + 2] == mark[2]);
            assert(after[k] == s.element[e] && after[k + 1] == s.element[e + 1] && after[k + 2]
                == s.element[e + 2]) by {
                assert(after =~= text.subrange(0, s.from) + s.digits + text.subrange(
                    s.to,
                    s.at,
                ) + s.element + text.subrange(s.at, text.len() as int));
            }
            assert(s.element[e] == 60);
        } else if k < end {
            // The mark reaches over the place where the element ends.
            let o = end - k;
            assert(after[k + o] == mark[o]);
            assert(after[end] == text[end - s.shift() - s.element.len()]);
        } else {
            lemma_occurs_after(text, s, mark, k);
        }
    }
}

/// Two texts that are free of certain tags are so together.
pub proof fn lemma_avoids_join(bad: spec_fn(u8, u8) -> bool, a: Seq<u8>, b: Seq<u8>)
    requires
        avoids(a, bad),
        avoids(b, bad),
    ensures
        avoids(a + b, bad),
{
    let all = a + b;
    assert forall|k: int| 0 <= k < all.len() && #[trigger] all[k] == 60 implies k + 2 < all.len()
        && !bad(all[k + 1], all[k + 2]) by {
        if k < a.len() {
            assert(a[k] == 60);
            assert(all[k + 1] == a[k + 1] && all[k + 2] == a[k + 2]);
        } else {
            let j = k - a.len();
            assert(b[j] == 60);
            assert(all[k + 1] == b[j + 1] && all[k + 2] == b[j + 2]);
        }
    }
}

/// A text without `<` is free of tags.
pub proof fn lemma_avoids_plain(bad: spec_fn(u8, u8) -> bool, a: Seq<u8>)
    requires
        forall|k: int| 0 <= k < a.len() ==> #[trigger] a[k] != 60,
    ensures
        avoids(a, bad),
{
}

/// Whether ASCII text is free of certain tags.
pub open spec fn chars_avoid(text: Seq<char>, bad: spec_fn(u8, u8) -> bool) -> bool {
    &&& vstd::utf8::is_ascii_chars(text)
    &&& forall|k: int|
        0 <= k < text.len() && #[trigger] text[k] == '<' ==> k + 2 < text.len() && !bad(
            text[k + 1] as u8,
            text[k + 2] as u8,
        )
}

/// ASCII text that is free of certain tags is so as bytes.
pub proof fn lemma_avoids_chars(bad: spec_fn(u8, u8) -> bool, text: Seq<char>)
    requires
        chars_avoid(text, bad),
    ensures
        avoids(utf8(text), bad),
{
    lemma_ascii_text(text);
    let bytes = utf8(text);
    assert forall|k: int| 0 <= k < bytes.len() && #[trigger] bytes[k] == 60 implies k + 2
        < bytes.len() && !bad(bytes[k + 1], bytes[k + 2]) by {
        assert(bytes[k] == text[k] as u8);
        assert(text[k] == '<');
        assert(bytes[k + 1] == text[k + 1] as u8);
        assert(bytes[k + 2] == text[k + 2] as u8);
    }
}

/// Escaped text has no `<`.
pub proof fn lemma_escaped_has_no_tag(text: Seq<u8>, apos: bool)
    ensures
        forall|k: int|
            0 <= k < crate::xml::escaped(text, apos).len() ==> #[trigger] crate::xml::escaped(
                text,
                apos,
            )[k] != 60,
        avoids_styles(crate::xml::escaped(text, apos)),
    decreases text.len(),
{
    reveal_strlit("&lt;");
    reveal_strlit("&gt;");
    reveal_strlit("&amp;");
    reveal_strlit("&quot;");
    reveal_strlit("&apos;");
    lemma_ascii_text("&lt;"@);
    lemma_ascii_text("&gt;"@);
    lemma_ascii_text("&amp;"@);
    lemma_ascii_text("&quot;"@);
    lemma_ascii_text("&apos;"@);
    if text.len() > 0 {
        lemma_escaped_has_no_tag(text.drop_last(), apos);
        let head = crate::xml::escaped(text.drop_last(), apos);
        let one = crate::xml::escaped_byte(text.last(), apos);
        assert forall|k: int| 0 <= k < one.len() implies #[trigger] one[k] != 60 by {}
        assert forall|k: int| 0 <= k < (head + one).len() implies #[trigger] (head + one)[k]
            != 60 by {
            if k < head.len() {
                assert((head + one)[k] == head[k]);
            } else {
                assert((head + one)[k] == one[k - head.len()]);
            }
        }
    }
    lemma_avoids_plain(styles_leads(), crate::xml::escaped(text, apos));
}

/// The literal pieces of the records are free of tags of the `cellXfs`
/// section.
pub proof fn lemma_literals_avoid_styles()
    ensures
        avoids_styles(utf8("<font>"@)),
        avoids_styles(utf8("<b/>"@)),
        avoids_styles(utf8("<i/>"@)),
        avoids_styles(utf8("<u/>"@)),
        avoids_styles(utf8("<strike/>"@)),
        avoids_styles(utf8("<sz val=\""@)),
        avoids_styles(utf8("<color rgb=\""@)),
        avoids_styles(utf8("<name val=\""@)),
        avoids_styles(utf8("\"/>"@)),
        avoids_styles(utf8("</font>"@)),
{
    reveal_strlit("<font>");
    reveal_strlit("<b/>");
    reveal_strlit("<i/>");
    reveal_strlit("<u/>");
    reveal_strlit("<strike/>");
    reveal_strlit("<sz val=\"");
    reveal_strlit("<color rgb=\"");
    reveal_strlit("<name val=\"");
    reveal_strlit("\"/>");
    reveal_strlit("</font>");
    lemma_avoids_chars(styles_leads(), "<font>"@);
    lemma_avoids_chars(styles_leads(), "<b/>"@);
    lemma_avoids_chars(styles_leads(), "<i/>"@);
    lemma_avoids_chars(styles_leads(), "<u/>"@);
    lemma_avoids_chars(styles_leads(), "<strike/>"@);
    lemma_avoids_chars(styles_leads(), "<sz val=\""@);
    lemma_avoids_chars(styles_leads(), "<color rgb=\""@);
    lemma_avoids_chars(styles_leads(), "<name val=\""@);
    lemma_avoids_chars(styles_leads(), "\"/>"@);
    lemma_avoids_chars(styles_leads(), "</font>"@);
}

/// Whether a text begins with `<` and is free of tags of the `cellXfs`
/// section.
pub open spec fn is_tame_record(text: Seq<u8>) -> bool {
    text.len() > 0 && text[0] == 60 && avoids_styles(text)
}

/// A flag of a record is free of tags of the `cellXfs` section.
proof fn lemma_flag_avoids(set: bool, text: Seq<char>)
    requires
        avoids_styles(utf8(text)),
    ensures
        avoids_styles(flag(set, text)),
{
}

/// An element with one attribute is free of tags of the `cellXfs` section.
proof fn lemma_one_attr_avoids(open: Seq<char>, value: Seq<u8>)
    requires
        avoids_styles(utf8(open)),
        avoids_styles(value),
    ensures
        avoids_styles(one_attr(open, value)),
{
    lemma_literals_avoid_styles();
    lemma_avoids_join(styles_leads(), utf8(open), value);
    lemma_avoids_join(styles_leads(), utf8(open) + value, utf8("\"/>"@));
}

/// Digits are free of tags.
proof fn lemma_decimal_avoids(n: nat)
    ensures
        avoids_styles(decimal(n)),
{
    lemma_decimal_is_digits(n);
    assert forall|k: int| 0 <= k < decimal(n).len() implies #[trigger] decimal(n)[k] != 60 by {
        assert(is_digit(decimal(n)[k]));
    }
}

/// An optional number as an element is free of tags of the `cellXfs`
/// section.
proof fn lemma_number_attr_avoids(open: Seq<char>, value: Option<u32>)
    requires
        avoids_styles(utf8(open)),
    ensures
        avoids_styles(number_attr(open, value)),
{
    match value {
        Some(n) => {
            lemma_decimal_avoids(n as nat);
            lemma_one_attr_avoids(open, decimal(n as nat));
        },
        None => {},
    }
}

/// An optional string as an element is free of tags of the `cellXfs`
/// section.
proof fn lemma_string_attr_avoids(open: Seq<char>, value: Option<String>)
    requires
        avoids_styles(utf8(open)),
    ensures
        avoids_styles(string_attr(open, value)),
{
    match value {
        Some(text) => {
            lemma_escaped_has_no_tag(utf8(text@), false);
            lemma_one_attr_avoids(open, attr_escaped(text@));
        },
        None => {},
    }
}

/// The first byte of ASCII text.
proof fn lemma_first_byte(text: Seq<char>)
    requires
        vstd::utf8::is_ascii_chars(text),
        text.len() > 0,
    ensures
        utf8(text).len() > 0,
        utf8(text)[0] == text[0] as u8,
{
    lemma_ascii_text(text);
}

/// A `font` record begins with `<` and is free of tags of the `cellXfs`
/// section.
pub proof fn lemma_font_is_tame(spec: FontSpec)
    ensures
        is_tame_record(font_xml(spec)),
{
    lemma_literals_avoid_styles();
    let a = utf8("<font>"@);
    let b = a + flag(spec.bold, "<b/>"@);
    let c = b + flag(spec.italic, "<i/>"@);
    let d = c + flag(spec.underline, "<u/>"@);
    let e = d + flag(spec.strikethrough, "<strike/>"@);
    let f = e + number_attr("<sz val=\""@, spec.size);
    let g = f + string_attr("<color rgb=\""@, spec.color_rgb);
    let h = g + string_attr("<name val=\""@, spec.name);
    lemma_flag_avoids(spec.bold, "<b/>"@);
    lemma_flag_avoids(spec.italic, "<i/>"@);
    lemma_flag_avoids(spec.underline, "<u/>"@);
    lemma_flag_avoids(spec.strikethrough, "<strike/>"@);
    lemma_number_attr_avoids("<sz val=\""@, spec.size);
    lemma_string_attr_avoids("<color rgb=\""@, spec.color_rgb);
    lemma_string_attr_avoids("<name val=\""@, spec.name);
    lemma_avoids_join(styles_leads(), a, flag(spec.bold, "<b/>"@));
    lemma_avoids_join(styles_leads(), b, flag(spec.italic, "<i/>"@));
    lemma_avoids_join(styles_leads(), c, flag(spec.underline, "<u/>"@));
    lemma_avoids_join(styles_leads(), d, flag(spec.strikethrough, "<strike/>"@));
    lemma_avoids_join(styles_leads(), e, number_attr("<sz val=\""@, spec.size));
    lemma_avoids_join(styles_leads(), f, string_attr("<color rgb=\""@, spec.color_rgb));
    lemma_avoids_join(styles_leads(), g, string_attr("<name val=\""@, spec.name));
    lemma_avoids_join(styles_leads(), h, utf8("</font>"@));
    reveal_strlit("<font>");
    lemma_first_byte("<font>"@);
    assert(font_xml(spec)[0] == a[0]);
}

/// A `fill` record begins with `<` and is free of tags of the `cellXfs`
/// section.
pub proof fn lemma_fill_is_tame(spec: FillSpec)
    ensures
        is_tame_record(fill_xml(spec)),
{
    reveal_strlit("<fill><patternFill patternType=\"");
    reveal_strlit("\"><fgColor rgb=\"");
    reveal_strlit("\"/></patternFill>");
    reveal_strlit("\"/>");
    reveal_strlit("</fill>");
    lemma_avoids_chars(styles_leads(), "<fill><patternFill patternType=\""@);
    lemma_avoids_chars(styles_leads(), "\"><fgColor rgb=\""@);
    lemma_avoids_chars(styles_leads(), "\"/></patternFill>"@);
    lemma_avoids_chars(styles_leads(), "\"/>"@);
    lemma_avoids_chars(styles_leads(), "</fill>"@);
    let a = utf8("<fill><patternFill patternType=\""@);
    let b = a + attr_escaped(spec.pattern_type@);
    lemma_escaped_has_no_tag(utf8(spec.pattern_type@), false);
    lemma_avoids_join(styles_leads(), a, attr_escaped(spec.pattern_type@));
    let inner = match spec.fg_color_rgb {
        Some(rgb) => utf8("\"><fgColor rgb=\""@) + attr_escaped(rgb@) + utf8(
            "\"/></patternFill>"@,
        ),
        None => utf8("\"/>"@),
    };
    match spec.fg_color_rgb {
        Some(rgb) => {
            lemma_escaped_has_no_tag(utf8(rgb@), false);
            lemma_avoids_join(styles_leads(), utf8("\"><fgColor rgb=\""@), attr_escaped(rgb@));
            lemma_avoids_join(
                styles_leads(),
                utf8("\"><fgColor rgb=\""@) + attr_escaped(rgb@),
                utf8("\"/></patternFill>"@),
            );
        },
        None => {},
    }
    lemma_avoids_join(styles_leads(), b, inner);
    lemma_avoids_join(styles_leads(), b + inner, utf8("</fill>"@));
    lemma_first_byte("<fill><patternFill patternType=\""@);
    assert(fill_xml(spec)[0] == a[0]);
}

/// Whether the name of an edge can stand in a record: ASCII letters, two at
/// least, and not beginning with `c`.
pub open spec fn is_edge_name(tag: Seq<char>) -> bool {
    &&& vstd::utf8::is_ascii_chars(tag)
    &&& tag.len() >= 2
    &&& tag[0] != 'c'
    &&& forall|i: int| 0 <= i < tag.len() ==> is_letter(#[trigger] tag[i] as u8)
}

/// The opening of an edge is free of tags of the `cellXfs` section.
proof fn lemma_edge_opens(tag: Seq<char>)
    requires
        is_edge_name(tag),
    ensures
        avoids_styles(utf8("<"@) + utf8(tag)),
        (utf8("<"@) + utf8(tag))[0] == 60,
{
    reveal_strlit("<");
    lemma_ascii_text("<"@);
    lemma_ascii_text(tag);
    let text = utf8("<"@) + utf8(tag);
    assert forall|k: int| 0 <= k < text.len() && #[trigger] text[k] == 60 implies {
        &&& k + 2 < text.len()
        &&& !(text[k + 1] == 99 && text[k + 2] == 101)
        &&& !(text[k + 1] == 47 && text[k + 2] == 99)
    } by {
        if k > 0 {
            assert(text[k] == utf8(tag)[k - 1]);
            assert(is_letter(tag[k - 1] as u8));
        } else {
            assert(text[1] == utf8(tag)[0]);
            assert(is_letter(tag[0] as u8));
        }
    }
}

/// The closing of an edge is free of tags of the `cellXfs` section.
proof fn lemma_edge_closes(tag: Seq<char>)
    requires
        is_edge_name(tag),
    ensures
        avoids_styles(utf8("\"/></"@) + utf8(tag) + utf8(">"@)),
{
    reveal_strlit("\"/></");
    reveal_strlit(">");
    lemma_ascii_text("\"/></"@);
    lemma_ascii_text(">"@);
    lemma_ascii_text(tag);
    let text = utf8("\"/></"@) + utf8(tag) + utf8(">"@);
    assert forall|k: int| 0 <= k < text.len() && #[trigger] text[k] == 60 implies {
        &&& k + 2 < text.len()
        &&& !(text[k + 1] == 99 && text[k + 2] == 101)
        &&& !(text[k + 1] == 47 && text[k + 2] == 99)
    } by {
        if k < 5 {
            assert(text[k] == utf8("\"/></"@)[k]);
            assert(k == 3);
            assert(text[4] == utf8("\"/></"@)[4]);
            assert(text[5] == utf8(tag)[0]);
        } else if k < 5 + tag.len() {
            assert(text[k] == utf8(tag)[k - 5]);
            assert(is_letter(tag[k - 5] as u8));
        } else {
            assert(text[k] == utf8(">"@)[k - 5 - tag.len()]);
        }
    }
}

/// One edge of a border is free of tags of the `cellXfs` section.
proof fn lemma_side_avoids(tag: Seq<char>, side: BorderSideSpec)
    requires
        is_edge_name(tag),
    ensures
        avoids_styles(side_xml(tag, side)),
{
    lemma_edge_opens(tag);
    lemma_edge_closes(tag);
    reveal_strlit(" style=\"");
    reveal_strlit("\"><color rgb=\"");
    reveal_strlit("\"/>");
    reveal_strlit("/>");
    lemma_avoids_chars(styles_leads(), " style=\""@);
    lemma_avoids_chars(styles_leads(), "\"><color rgb=\""@);
    lemma_avoids_chars(styles_leads(), "\"/>"@);
    lemma_avoids_chars(styles_leads(), "/>"@);
    let open = utf8("<"@) + utf8(tag);
    match side.style {
        Some(style) => {
            lemma_escaped_has_no_tag(utf8(style@), false);
            let a = open + utf8(" style=\""@);
            let b = a + attr_escaped(style@);
            lemma_avoids_join(styles_leads(), open, utf8(" style=\""@));
            lemma_avoids_join(styles_leads(), a, attr_escaped(style@));
            match side.color_rgb {
                Some(rgb) => {
                    lemma_escaped_has_no_tag(utf8(rgb@), false);
                    let c = utf8("\"><color rgb=\""@) + attr_escaped(rgb@);
                    let close = utf8("\"/></"@) + utf8(tag) + utf8(">"@);
                    lemma_avoids_join(styles_leads(), utf8("\"><color rgb=\""@), attr_escaped(rgb@));
                    lemma_avoids_join(styles_leads(), c, close);
                    lemma_avoids_join(styles_leads(), b, c + close);
                    assert(side_xml(tag, side) =~= b + (c + close));
                },
                None => {
                    lemma_avoids_join(styles_leads(), b, utf8("\"/>"@));
                },
            }
        },
        None => {
            lemma_avoids_join(styles_leads(), open, utf8("/>"@));
        },
    }
}

/// A `border` record begins with `<` and is free of tags of the `cellXfs`
/// section.
pub proof fn lemma_border_is_tame(spec: BorderSpec)
    ensures
        is_tame_record(border_xml(spec)),
{
    reveal_strlit("<border>");
    reveal_strlit("<diagonal/></border>");
    reveal_strlit("left");
    reveal_strlit("right");
    reveal_strlit("top");
    reveal_strlit("bottom");
    lemma_avoids_chars(styles_leads(), "<border>"@);
    lemma_avoids_chars(styles_leads(), "<diagonal/></border>"@);
    lemma_side_avoids("left"@, spec.left);
    lemma_side_avoids("right"@, spec.right);
    lemma_side_avoids("top"@, spec.top);
    lemma_side_avoids("bottom"@, spec.bottom);
    let a = utf8("<border>"@);
    let b = a + side_xml("left"@, spec.left);
    let c = b + side_xml("right"@, spec.right);
    let d = c + side_xml("top"@, spec.top);
    let e = d + side_xml("bottom"@, spec.bottom);
    lemma_avoids_join(styles_leads(), a, side_xml("left"@, spec.left));
    lemma_avoids_join(styles_leads(), b, side_xml("right"@, spec.right));
    lemma_avoids_join(styles_leads(), c, side_xml("top"@, spec.top));
    lemma_avoids_join(styles_leads(), d, side_xml("bottom"@, spec.bottom));
    lemma_avoids_join(styles_leads(), e, utf8("<diagonal/></border>"@));
    lemma_first_byte("<border>"@);
    assert(border_xml(spec)[0] == a[0]);
}

/// The record of a number format begins with `<` and is free of tags of the
/// `cellXfs` section, and so is a new `numFmts` section that holds it.
pub proof fn lemma_num_fmt_is_tame(id: u32, code: Seq<u8>)
    ensures
        is_tame_record(num_fmt_xml(id, code)),
        is_tame_record(
            utf8("<numFmts count=\"1\">"@) + num_fmt_xml(id, code) + utf8("</numFmts>"@),
        ),
{
    reveal_strlit("<numFmt numFmtId=\"");
    reveal_strlit("\" formatCode=\"");
    reveal_strlit("\"/>");
    reveal_strlit("<numFmts count=\"1\">");
    reveal_strlit("</numFmts>");
    lemma_avoids_chars(styles_leads(), "<numFmt numFmtId=\""@);
    lemma_avoids_chars(styles_leads(), "\" formatCode=\""@);
    lemma_avoids_chars(styles_leads(), "\"/>"@);
    lemma_avoids_chars(styles_leads(), "<numFmts count=\"1\">"@);
    lemma_avoids_chars(styles_leads(), "</numFmts>"@);
    lemma_decimal_avoids(id as nat);
    lemma_escaped_has_no_tag(code, false);
    let a = utf8("<numFmt numFmtId=\""@);
    let b = a + decimal(id as nat);
    let c = b + utf8("\" formatCode=\""@);
    let d = c + crate::xml::escaped(code, false);
    lemma_avoids_join(styles_leads(), a, decimal(id as nat));
    lemma_avoids_join(styles_leads(), b, utf8("\" formatCode=\""@));
    lemma_avoids_join(styles_leads(), c, crate::xml::escaped(code, false));
    lemma_avoids_join(styles_leads(), d, utf8("\"/>"@));
    lemma_first_byte("<numFmt numFmtId=\""@);
    let record = num_fmt_xml(id, code);
    assert(record[0] == a[0]);
    let open = utf8("<numFmts count=\"1\">"@);
    lemma_avoids_join(styles_leads(), open, record);
    lemma_avoids_join(styles_leads(), open + record, utf8("</numFmts>"@));
    lemma_first_byte("<numFmts count=\"1\">"@);
    assert((open + record + utf8("</numFmts>"@))[0] == open[0]);
}

/// Whether a style sheet has the section `tag`, with an attribute `count`
/// whose value is a number.
pub open spec fn states_count(xml: Seq<u8>, tag: Seq<u8>) -> bool {
    section_place(xml, tag) matches Some(p) && count_place(xml, p) matches Some(at) && parsed_u32(
        xml.subrange(at.0, at.1),
    ).is_some()
}

/// The name of the section of the styles.
pub open spec fn styles_name() -> Seq<u8> {
    utf8("cellXfs"@)
}

/// The text of a style sheet from the opening tag of its styles on.
pub open spec fn styles_tail(xml: Seq<u8>) -> Seq<u8> {
    match section_place(xml, styles_name()) {
        Some(p) => xml.subrange(p.open, xml.len() as int),
        None => Seq::empty(),
    }
}

/// Whether a string stands nowhere in a text.
pub open spec fn free_of(text: Seq<u8>, needle: Seq<u8>) -> bool {
    forall|k: int| !occurs_at(text, needle, k)
}

/// Whether the styles of a style sheet stand after its fonts, fills,
/// borders and number formats, as the schema of style sheets has it: the
/// sheet has a `cellXfs` section that states its count as a number, and
/// from the opening tag of that section on, no section of the other four
/// closes and neither the fonts nor the number formats open.
pub open spec fn styles_stand_last(xml: Seq<u8>) -> bool {
    let tail = styles_tail(xml);
    &&& states_count(xml, styles_name())
    &&& free_of(tail, closing_tag(utf8("fonts"@)))
    &&& free_of(tail, closing_tag(utf8("fills"@)))
    &&& free_of(tail, closing_tag(utf8("borders"@)))
    &&& free_of(tail, closing_tag(utf8("numFmts"@)))
    &&& free_of(tail, utf8("<fonts"@))
    &&& free_of(tail, utf8("<numFmts"@))
}

/// Whether a changed style sheet still ends with the styles of the sheet
/// `xml`, with no tag of the `cellXfs` section before them.
pub open spec fn keeps_styles(xml: Seq<u8>, cur: Seq<u8>) -> bool {
    let tail = styles_tail(xml);
    let len = cur.len() - tail.len();
    &&& len >= 0
    &&& cur.subrange(len, cur.len() as int) == tail
    &&& forall|k: int|
        0 <= k < len ==> !(#[trigger] occurs_at(cur, opening_prefix(styles_name()), k))
    &&& forall|k: int| 0 <= k < len ==> !(#[trigger] occurs_at(cur, closing_tag(styles_name()), k))
}

/// The two marks of the `cellXfs` section.
proof fn lemma_styles_marks()
    ensures
        is_styles_mark(opening_prefix(styles_name())),
        is_styles_mark(closing_tag(styles_name())),
        is_plain_name(styles_name()),
        forall|j: int|
            0 <= j < opening_prefix(styles_name()).len() ==> #[trigger] opening_prefix(
                styles_name(),
            )[j] != 32,
        forall|j: int|
            0 <= j < closing_tag(styles_name()).len() ==> #[trigger] closing_tag(
                styles_name(),
            )[j] != 32,
{
    lemma_section_names_are_plain();
    lemma_marks(styles_name());
    reveal_strlit("cellXfs");
    lemma_ascii_text("cellXfs"@);
    let name = styles_name();
    let open = opening_prefix(name);
    let close = closing_tag(name);
    assert(open[0int + 1] == name[0] && open[1int + 1] == name[1]);
    assert(close[0int + 2] == name[0]);
    assert forall|j: int| 1 <= j < open.len() implies #[trigger] open[j] != 60 by {
        assert(open[(j - 1) + 1] == name[j - 1]);
        assert(is_letter(name[j - 1]));
    }
    assert forall|j: int| 0 <= j < open.len() implies !is_digit(#[trigger] open[j]) && open[j]
        != 32 by {
        if j > 0 {
            assert(open[(j - 1) + 1] == name[j - 1]);
            assert(is_letter(name[j - 1]));
        }
    }
    assert forall|j: int| 1 <= j < close.len() implies #[trigger] close[j] != 60 by {
        if j >= 2 && j < close.len() - 1 {
            assert(close[(j - 2) + 2] == name[j - 2]);
            assert(is_letter(name[j - 2]));
        }
    }
    assert forall|j: int| 0 <= j < close.len() implies !is_digit(#[trigger] close[j])
        && close[j] != 32 by {
        if j >= 2 && j < close.len() - 1 {
            assert(close[(j - 2) + 2] == name[j - 2]);
            assert(is_letter(name[j - 2]));
        }
    }
}

/// In the tail of a text, a string stands where it stands in the tail.
proof fn lemma_occurs_in_tail(cur: Seq<u8>, tail: Seq<u8>, needle: Seq<u8>, k: int)
    requires
        0 <= cur.len() - tail.len() <= k,
        cur.subrange(cur.len() - tail.len(), cur.len() as int) == tail,
    ensures
        occurs_at(cur, needle, k) == occurs_at(tail, needle, k - (cur.len() - tail.len())),
{
    let len = cur.len() - tail.len();
    if k + needle.len() <= cur.len() {
        let here = cur.subrange(k, k + needle.len());
        let there = tail.subrange(k - len, k - len + needle.len());
        assert forall|j: int| 0 <= j < needle.len() implies #[trigger] here[j] == there[j] by {
            assert(cur.subrange(len, cur.len() as int)[k - len + j] == cur[k + j]);
        }
        assert(here =~= there);
    }
}

/// A string with no `<` but at its beginning cannot stand over a `<`.
proof fn lemma_not_over_tag(cur: Seq<u8>, needle: Seq<u8>, k: int, at: int)
    requires
        0 <= k < at < k + needle.len(),
        at < cur.len(),
        cur[at] == 60,
        forall|j: int| 1 <= j < needle.len() ==> #[trigger] needle[j] != 60,
    ensures
        !occurs_at(cur, needle, k),
{
    if occurs_at(cur, needle, k) {
        lemma_occurs_bytes(cur, needle, k);
        assert(cur[k + (at - k)] == needle[at - k]);
    }
}

/// A style sheet whose styles stand last keeps its styles as it is.
pub proof fn lemma_sheet_keeps_styles(xml: Seq<u8>)
    requires
        styles_stand_last(xml),
    ensures
        keeps_styles(xml, xml),
        styles_tail(xml).len() > 0,
        styles_tail(xml)[0] == 60,
{
    let p = section_place(xml, styles_name()).unwrap();
    let (from, to) = count_place(xml, p).unwrap();
    lemma_section_facts(xml, styles_name(), p, from, to);
    lemma_marks(styles_name());
    lemma_occurs_bytes(xml, opening_prefix(styles_name()), p.open);
    assert(xml[p.open + 0] == 60);
}

/// Where a string with no `<` but at its beginning stands in a sheet that
/// keeps the styles, and not in the styles, it ends before the styles.
proof fn lemma_stands_before_styles(xml: Seq<u8>, cur: Seq<u8>, needle: Seq<u8>, at: int)
    requires
        keeps_styles(xml, cur),
        styles_tail(xml).len() > 0,
        styles_tail(xml)[0] == 60,
        free_of(styles_tail(xml), needle),
        needle.len() > 0,
        forall|j: int| 1 <= j < needle.len() ==> #[trigger] needle[j] != 60,
        occurs_at(cur, needle, at),
    ensures
        at + needle.len() <= cur.len() - styles_tail(xml).len(),
{
    let tail = styles_tail(xml);
    let len = cur.len() - tail.len();
    assert(cur[len] == tail[0]) by {
        assert(cur.subrange(len, cur.len() as int)[0] == cur[len]);
    }
    if at >= len {
        lemma_occurs_in_tail(cur, tail, needle, at);
    } else if at + needle.len() > len {
        lemma_not_over_tag(cur, needle, at, len);
    }
}

/// Whether a text can fill the place of a count: it has no `<`, and begins
/// with a digit or a blank.
pub open spec fn is_filling(text: Seq<u8>) -> bool {
    &&& forall|i: int| 0 <= i < text.len() ==> #[trigger] text[i] != 60
    &&& text.len() > 0 ==> is_digit(text[0]) || text[0] == 32
}

/// Digits can fill the place of a count.
proof fn lemma_digits_fill(digits: Seq<u8>)
    requires
        forall|i: int| 0 <= i < digits.len() ==> is_digit(#[trigger] digits[i]),
    ensures
        is_filling(digits),
{
    assert forall|i: int| 0 <= i < digits.len() implies #[trigger] digits[i] != 60 by {
        assert(is_digit(digits[i]));
    }
}

/// A new attribute `count` can fill a place in an opening tag.
proof fn lemma_count_attr_fills(count: nat)
    ensures
        is_filling(count_attr(count)),
        count_attr(count).len() > 0,
{
    reveal_strlit(" count=\"");
    reveal_strlit("\"");
    lemma_ascii_text(" count=\""@);
    lemma_ascii_text("\""@);
    lemma_decimal_is_digits(count);
    let a = utf8(" count=\""@);
    let d = decimal(count);
    let b = utf8("\""@);
    let all = count_attr(count);
    assert(all[0] == a[0]);
    assert(a[0] == " count=\""@[0] as u8);
    assert forall|i: int| 0 <= i < all.len() implies #[trigger] all[i] != 60 by {
        if i < a.len() {
            assert(all[i] == a[i]);
            assert(a[i] == " count=\""@[i] as u8);
        } else if i < a.len() + d.len() {
            assert(all[i] == d[i - a.len()]);
            assert(is_digit(d[i - a.len()]));
        } else {
            assert(all[i] == b[i - a.len() - d.len()]);
            assert(b[0] == "\""@[0] as u8);
        }
    }
}

/// A change before the styles keeps the styles.
proof fn lemma_change_keeps_styles(xml: Seq<u8>, cur: Seq<u8>, s: Splice)
    requires
        keeps_styles(xml, cur),
        styles_tail(xml).len() > 0,
        styles_tail(xml)[0] == 60,
        s.fits(cur),
        s.at < cur.len() - styles_tail(xml).len(),
        cur[s.at] == 60,
        s.digits.len() > 0 || (s.from == s.to && s.to == s.at),
        is_filling(s.digits),
        is_tame_record(s.element),
    ensures
        keeps_styles(xml, s.of(cur)),
{
    let open = opening_prefix(styles_name());
    let close = closing_tag(styles_name());
    let tail = styles_tail(xml);
    let len = cur.len() - tail.len();
    let after = s.of(cur);
    let moved = after.len() - tail.len();
    lemma_splice(cur, s);
    lemma_styles_marks();
    if s.digits.len() > 0 {
        assert forall|j: int| 0 <= j < open.len() implies #[trigger] open[j] != s.digits[0] by {
            assert(!is_digit(open[j]));
        }
        assert forall|j: int| 0 <= j < close.len() implies #[trigger] close[j] != s.digits[0] by {
            assert(!is_digit(close[j]));
        }
    }
    assert(cur[len] == 60) by {
        assert(cur.subrange(len, cur.len() as int)[0] == cur[len]);
    }
    let end = after.subrange(moved, after.len() as int);
    assert forall|j: int| 0 <= j < tail.len() implies #[trigger] end[j] == tail[j] by {
        assert(after[moved + j] == cur[moved + j - s.shift() - s.element.len()]);
        assert(cur.subrange(len, cur.len() as int)[j] == cur[len + j]);
    }
    assert(end =~= tail);
    assert forall|k: int| 0 <= k < moved implies !(#[trigger] occurs_at(
        after,
        opening_prefix(styles_name()),
        k,
    )) by {
        lemma_mark_stays_out(cur, s, opening_prefix(styles_name()), styles_leads(), 0, len, k);
    }
    assert forall|k: int| 0 <= k < moved implies !(#[trigger] occurs_at(
        after,
        closing_tag(styles_name()),
        k,
    )) by {
        lemma_mark_stays_out(cur, s, closing_tag(styles_name()), styles_leads(), 0, len, k);
    }
}

/// A record that is added to another section keeps the styles.
pub proof fn lemma_injection_keeps_styles(
    xml: Seq<u8>,
    cur: Seq<u8>,
    tag: Seq<u8>,
    element: Seq<u8>,
)
    requires
        keeps_styles(xml, cur),
        styles_tail(xml).len() > 0,
        styles_tail(xml)[0] == 60,
        is_plain_name(tag),
        free_of(styles_tail(xml), closing_tag(tag)),
        is_tame_record(element),
    ensures
        keeps_styles(xml, injected(cur, tag, element).0),
{
    reveal(injected);
    match section_place(cur, tag) {
        None => {},
        Some(p) => {
            lemma_marks(tag);
            let closing = closing_tag(tag);
            lemma_first_occurrence(cur, closing, 0);
            lemma_first_occurrence(cur, opening_prefix(tag), 0);
            lemma_first_occurrence(cur, utf8(">"@), p.open);
            assert forall|j: int| 1 <= j < closing.len() implies #[trigger] closing[j] != 60 by {
                if j >= 2 && j < closing.len() - 1 {
                    assert(closing[(j - 2) + 2] == tag[j - 2]);
                    assert(is_letter(tag[j - 2]));
                }
            }
            lemma_stands_before_styles(xml, cur, closing, p.close);
            lemma_occurs_bytes(cur, closing, p.close);
            assert(cur[p.close + 0] == 60);
            let count = section_count(cur, tag, p);
            match count_place(cur, p) {
                Some((from, to)) => {
                    lemma_first_occurrence(cur, utf8("count=\""@), p.open);
                    lemma_first_occurrence(cur, utf8("\""@), from);
                    lemma_decimal_is_digits((count + 1) as nat);
                    lemma_digits_fill(decimal((count + 1) as nat));
                    let s = Splice {
                        from,
                        to,
                        at: p.close,
                        digits: decimal((count + 1) as nat),
                        element,
                    };
                    assert(s.of(cur) =~= injected(cur, tag, element).0);
                    lemma_change_keeps_styles(xml, cur, s);
                },
                None => {
                    lemma_count_attr_fills((count + 1) as nat);
                    let s = Splice {
                        from: p.open_end,
                        to: p.open_end,
                        at: p.close,
                        digits: count_attr((count + 1) as nat),
                        element,
                    };
                    assert(s.of(cur) =~= injected(cur, tag, element).0);
                    lemma_change_keeps_styles(xml, cur, s);
                },
            }
        },
    }
}

/// A new `numFmts` section keeps the styles.
pub proof fn lemma_new_section_keeps_styles(xml: Seq<u8>, cur: Seq<u8>, id: u32, code: Seq<u8>)
    requires
        keeps_styles(xml, cur),
        styles_tail(xml).len() > 0,
        styles_tail(xml)[0] == 60,
        free_of(styles_tail(xml), utf8("<fonts"@)),
    ensures
        keeps_styles(xml, with_formats_section(cur, num_fmt_xml(id, code))),
{
    let needle = utf8("<fonts"@);
    match first_occurrence(cur, needle, 0) {
        None => {},
        Some(at) => {
            lemma_first_occurrence(cur, needle, 0);
            reveal_strlit("<fonts");
            lemma_ascii_text("<fonts"@);
            assert forall|j: int| 1 <= j < needle.len() implies #[trigger] needle[j] != 60 by {
                assert(needle[j] == "<fonts"@[j] as u8);
            }
            lemma_stands_before_styles(xml, cur, needle, at);
            lemma_occurs_bytes(cur, needle, at);
            assert(cur[at + 0] == 60);
            lemma_num_fmt_is_tame(id, code);
            let element = utf8("<numFmts count=\"1\">"@) + num_fmt_xml(id, code) + utf8(
                "</numFmts>"@,
            );
            let s = Splice { from: at, to: at, at, digits: Seq::empty(), element };
            assert(is_filling(s.digits));
            assert(s.of(cur) =~= with_formats_section(cur, num_fmt_xml(id, code)));
            lemma_change_keeps_styles(xml, cur, s);
        },
    }
}

/// In a sheet that keeps the styles, the styles are found as they were,
/// with the count that they stated.
#[verifier::rlimit(30)]
pub proof fn lemma_styles_found(xml: Seq<u8>, cur: Seq<u8>)
    requires
        styles_stand_last(xml),
        keeps_styles(xml, cur),
    ensures
        section_place(cur, styles_name()) matches Some(p) && count_place(cur, p).is_some()
            && p.open == cur.len() - styles_tail(xml).len(),
        states_count(cur, styles_name()),
        count_of(cur, styles_name()) == count_of(xml, styles_name()),
        styles_tail(cur) == styles_tail(xml),
{
    let name = styles_name();
    let tail = styles_tail(xml);
    let p = section_place(xml, name).unwrap();
    let (from, to) = count_place(xml, p).unwrap();
    lemma_section_facts(xml, name, p, from, to);
    let len = cur.len() - tail.len();
    let d = len - p.open;
    let moved = SectionPlace { open: p.open + d, open_end: p.open_end + d, close: p.close + d };
    let key = utf8("count=\""@);
    assert(xml.subrange(xml.len() - tail.len(), xml.len() as int) == tail);
    assert forall|needle: Seq<u8>, k: int| k >= p.open implies occurs_at(cur, needle, k + d)
        == #[trigger] occurs_at(xml, needle, k) by {
        lemma_occurs_in_tail(cur, tail, needle, k + d);
        lemma_occurs_in_tail(xml, tail, needle, k);
    }
    assert forall|k: int| 0 <= k < moved.close implies !occurs_at(cur, closing_tag(name), k) by {
        if k >= len {
            assert(occurs_at(cur, closing_tag(name), (k - d) + d) == occurs_at(
                xml,
                closing_tag(name),
                k - d,
            ));
        }
    }
    assert forall|k: int| moved.open <= k < moved.open_end implies !occurs_at(
        cur,
        utf8(">"@),
        k,
    ) by {
        assert(occurs_at(cur, utf8(">"@), (k - d) + d) == occurs_at(xml, utf8(">"@), k - d));
    }
    assert forall|k: int| moved.open <= k < from + d - key.len() implies !occurs_at(
        cur,
        key,
        k,
    ) by {
        assert(occurs_at(cur, key, (k - d) + d) == occurs_at(xml, key, k - d));
    }
    assert forall|k: int| from + d <= k < to + d implies !occurs_at(cur, utf8("\""@), k) by {
        assert(occurs_at(cur, utf8("\""@), (k - d) + d) == occurs_at(xml, utf8("\""@), k - d));
    }
    assert(occurs_at(cur, closing_tag(name), p.close + d));
    assert(occurs_at(cur, opening_prefix(name), p.open + d));
    assert(occurs_at(cur, utf8(">"@), p.open_end + d));
    assert(occurs_at(cur, key, (from - key.len()) + d));
    assert(occurs_at(cur, utf8("\""@), to + d));
    assert(section_facts(cur, name, moved, from + d, to + d));
    lemma_section_found(cur, name, moved, from + d, to + d);
    let digits = cur.subrange(from + d, to + d);
    let before = xml.subrange(from, to);
    assert forall|j: int| 0 <= j < to - from implies #[trigger] digits[j] == before[j] by {
        assert(cur.subrange(len, cur.len() as int)[from - p.open + j] == cur[from + d + j]);
        assert(xml.subrange(p.open, xml.len() as int)[from - p.open + j] == xml[from + j]);
    }
    assert(digits =~= before);
}

/// A number format that is looked up or added keeps the styles.
proof fn lemma_format_keeps_styles(xml: Seq<u8>, c: CatalogModel, code: Seq<u8>)
    requires
        styles_stand_last(xml),
        keeps_styles(xml, c.text),
    ensures
        keeps_styles(xml, with_format(c, code).0.text),
        with_format(c, code).0.styles == c.styles,
{
    lemma_sheet_keeps_styles(xml);
    lemma_section_names_are_plain();
    let after = with_format(c, code).0;
    if after.text != c.text {
        let id = (c.highest + 1) as u32;
        assert(after.text == with_new_format(c.text, code, id));
        lemma_num_fmt_is_tame(id, code);
        if first_occurrence(c.text, utf8("<numFmts"@), 0).is_some() {
            lemma_injection_keeps_styles(xml, c.text, utf8("numFmts"@), num_fmt_xml(id, code));
        } else {
            lemma_new_section_keeps_styles(xml, c.text, id, code);
        }
    }
}

/// The parts that a format adds to a style sheet keep the styles: with the
/// font, the fill, the border and the number format of the format added,
/// the sheet still ends with its styles.
proof fn lemma_parts_keep_styles(xml: Seq<u8>, spec: FormatSpec)
    requires
        styles_stand_last(xml),
    ensures
        ({
            let with_font = match spec.font {
                Some(f) => injected(xml, utf8("fonts"@), font_xml(f)).0,
                None => xml,
            };
            let with_fill = match spec.fill {
                Some(f) => injected(with_font, utf8("fills"@), fill_xml(f)).0,
                None => with_font,
            };
            let with_border = match spec.border {
                Some(b) => injected(with_fill, utf8("borders"@), border_xml(b)).0,
                None => with_fill,
            };
            keeps_styles(xml, with_border)
        }),
{
    lemma_sheet_keeps_styles(xml);
    lemma_section_names_are_plain();
    let with_font = match spec.font {
        Some(f) => injected(xml, utf8("fonts"@), font_xml(f)).0,
        None => xml,
    };
    match spec.font {
        Some(f) => {
            lemma_font_is_tame(f);
            lemma_injection_keeps_styles(xml, xml, utf8("fonts"@), font_xml(f));
        },
        None => {},
    }
    let with_fill = match spec.fill {
        Some(f) => injected(with_font, utf8("fills"@), fill_xml(f)).0,
        None => with_font,
    };
    match spec.fill {
        Some(f) => {
            lemma_fill_is_tame(f);
            lemma_injection_keeps_styles(xml, with_font, utf8("fills"@), fill_xml(f));
        },
        None => {},
    }
    match spec.border {
        Some(b) => {
            lemma_border_is_tame(b);
            lemma_injection_keeps_styles(xml, with_fill, utf8("borders"@), border_xml(b));
        },
        None => {},
    }
}

/// Whether a catalog is in step with its text: the styles of the text
/// stand last, and the text states the count of styles that the catalog
/// has.
pub open spec fn in_step(c: CatalogModel) -> bool {
    styles_stand_last(c.text) && c.styles == count_of(c.text, styles_name())
}

/// The catalog of a style sheet whose styles stand last is in step with
/// the sheet.
pub proof fn lemma_catalog_begins_in_step(xml: Seq<u8>)
    requires
        styles_stand_last(xml),
    ensures
        in_step(catalog_of(xml)),
{
}

/// The marks that part the other sections from the styles.
proof fn lemma_other_marks()
    ensures
        is_mark(closing_tag(utf8("fonts"@)), other_leads()),
        is_mark(closing_tag(utf8("fills"@)), other_leads()),
        is_mark(closing_tag(utf8("borders"@)), other_leads()),
        is_mark(closing_tag(utf8("numFmts"@)), other_leads()),
        is_mark(utf8("<fonts"@), other_leads()),
        is_mark(utf8("<numFmts"@), other_leads()),
{
    lemma_closing_is_mark(utf8("fonts"@));
    lemma_closing_is_mark(utf8("fills"@));
    lemma_closing_is_mark(utf8("borders"@));
    lemma_closing_is_mark(utf8("numFmts"@));
    reveal_strlit("<fonts");
    reveal_strlit("<numFmts");
    lemma_ascii_text("<fonts"@);
    lemma_ascii_text("<numFmts"@);
    let fonts = utf8("<fonts"@);
    let formats = utf8("<numFmts"@);
    assert forall|j: int| 0 <= j < fonts.len() implies (j >= 1 ==> #[trigger] fonts[j] != 60)
        && !is_digit(fonts[j]) by {
        assert(fonts[j] == "<fonts"@[j] as u8);
    }
    assert forall|j: int| 0 <= j < formats.len() implies (j >= 1 ==> #[trigger] formats[j] != 60)
        && !is_digit(formats[j]) by {
        assert(formats[j] == "<numFmts"@[j] as u8);
    }
    assert(fonts[0] == 60 && fonts[1] == 102 && fonts[2] == 111);
    assert(formats[0] == 60 && formats[1] == 110 && formats[2] == 117);
}

/// The closing tag of a section of fonts, fills, borders or number formats
/// is a mark that parts the section from the styles.
proof fn lemma_closing_is_mark(tag: Seq<u8>)
    requires
        tag == utf8("fonts"@) || tag == utf8("fills"@) || tag == utf8("borders"@) || tag == utf8(
            "numFmts"@,
        ),
    ensures
        is_mark(closing_tag(tag), other_leads()),
{
    lemma_section_names_are_plain();
    lemma_marks(tag);
    reveal_strlit("fonts");
    reveal_strlit("fills");
    reveal_strlit("borders");
    reveal_strlit("numFmts");
    lemma_ascii_text("fonts"@);
    lemma_ascii_text("fills"@);
    lemma_ascii_text("borders"@);
    lemma_ascii_text("numFmts"@);
    let close = closing_tag(tag);
    assert(close[0int + 2] == tag[0]);
    assert(tag[0] == 102 || tag[0] == 98 || tag[0] == 110);
    assert forall|j: int| 1 <= j < close.len() implies #[trigger] close[j] != 60 by {
        if j >= 2 && j < close.len() - 1 {
            assert(close[(j - 2) + 2] == tag[j - 2]);
            assert(is_letter(tag[j - 2]));
        }
    }
    assert forall|j: int| 0 <= j < close.len() implies !is_digit(#[trigger] close[j]) by {
        if j >= 2 && j < close.len() - 1 {
            assert(close[(j - 2) + 2] == tag[j - 2]);
            assert(is_letter(tag[j - 2]));
        }
    }
}

/// What a new record does to a section that states a count: the text with
/// the record is the text with a change, which puts the new count in place
/// of the old one and sets the record in before the closing tag.
pub proof fn lemma_injected_is_change(xml: Seq<u8>, tag: Seq<u8>, record: Seq<u8>)
    requires
        section_place(xml, tag) matches Some(p) && count_place(xml, p).is_some(),
    ensures
        ({
            let p = section_place(xml, tag).unwrap();
            let (from, to) = count_place(xml, p).unwrap();
            let digits = decimal((section_count(xml, tag, p) + 1) as nat);
            let s = record_splice(p, from, to, digits, record);
            &&& injected(xml, tag, record).0 == s.of(xml)
            &&& s.fits(xml)
            &&& 0 <= p.open < from <= to <= p.open_end < p.close < xml.len()
            &&& xml[p.close] == 60
            &&& digits.len() > 0
            &&& forall|i: int| 0 <= i < digits.len() ==> is_digit(#[trigger] digits[i])
        }),
{
    reveal(injected);
    let p = section_place(xml, tag).unwrap();
    let (from, to) = count_place(xml, p).unwrap();
    let digits = decimal((section_count(xml, tag, p) + 1) as nat);
    lemma_section_facts(xml, tag, p, from, to);
    lemma_marks(tag);
    lemma_occurs_bytes(xml, closing_tag(tag), p.close);
    assert(xml[p.close + 0] == 60);
    lemma_decimal_is_digits((section_count(xml, tag, p) + 1) as nat);
    let s = record_splice(p, from, to, digits, record);
    assert(s.of(xml) =~= injected(xml, tag, record).0);
}

/// A mark that stood nowhere in the styles of a sheet stands nowhere in
/// them after a style is added.
proof fn lemma_tail_stays_free(xml: Seq<u8>, record: Seq<u8>, mark: Seq<u8>)
    requires
        styles_stand_last(xml),
        count_of(xml, styles_name()) < u32::MAX,
        record.len() > 0 && record[0] == 60 && avoids(record, other_leads()),
        is_mark(mark, other_leads()),
        free_of(styles_tail(xml), mark),
    ensures
        free_of(styles_tail(injected(xml, styles_name(), record).0), mark),
{
    let name = styles_name();
    lemma_styles_marks();
    lemma_injection_counts(xml, name, record);
    lemma_injected_is_change(xml, name, record);
    let p = section_place(xml, name).unwrap();
    let (from, to) = count_place(xml, p).unwrap();
    let digits = decimal((section_count(xml, name, p) + 1) as nat);
    let s = record_splice(p, from, to, digits, record);
    let after = s.of(xml);
    let tail = styles_tail(xml);
    let new_tail = styles_tail(after);
    assert(xml.len() - tail.len() == p.open);
    assert(after.len() - new_tail.len() == p.open);
    assert forall|j: int| p.open <= j < xml.len() implies !occurs_at(xml, mark, j) by {
        lemma_occurs_in_tail(xml, tail, mark, j);
    }
    assert forall|k: int| !occurs_at(new_tail, mark, k) by {
        if occurs_at(new_tail, mark, k) {
            lemma_occurs_in_tail(after, new_tail, mark, p.open + k);
            lemma_tail_mark_stays_out(xml, s, mark, p.open, p.open + k);
        }
    }
}

/// The same as `lemma_mark_stays_out`, for the marks that part the other
/// sections from the styles, in all of the text from `lo` on.
proof fn lemma_tail_mark_stays_out(xml: Seq<u8>, s: Splice, mark: Seq<u8>, lo: int, k: int)
    requires
        s.fits(xml),
        0 <= lo <= s.from,
        s.at < xml.len(),
        xml[s.at] == 60,
        s.digits.len() > 0,
        forall|i: int| 0 <= i < s.digits.len() ==> is_digit(#[trigger] s.digits[i]),
        s.element.len() > 0 && s.element[0] == 60 && avoids(s.element, other_leads()),
        is_mark(mark, other_leads()),
        forall|j: int| lo <= j < xml.len() ==> !occurs_at(xml, mark, j),
        lo <= k,
    ensures
        !occurs_at(s.of(xml), mark, k),
{
    lemma_splice(xml, s);
    if k < xml.len() + s.shift() + s.element.len() {
        lemma_digits_fill(s.digits);
        assert forall|j: int| 0 <= j < mark.len() implies #[trigger] mark[j] != s.digits[0] by {
            assert(!is_digit(mark[j]));
        }
        lemma_mark_stays_out(xml, s, mark, other_leads(), lo, xml.len() as int, k);
    }
}

/// A style that is added to a sheet whose styles stand last leaves them
/// last.
pub proof fn lemma_styles_grow_in_place(xml: Seq<u8>, record: Seq<u8>)
    requires
        styles_stand_last(xml),
        count_of(xml, styles_name()) < u32::MAX,
        record.len() > 0 && record[0] == 60 && avoids(record, other_leads()),
    ensures
        styles_stand_last(injected(xml, styles_name(), record).0),
        count_of(injected(xml, styles_name(), record).0, styles_name()) == count_of(
            xml,
            styles_name(),
        ) + 1,
{
    lemma_styles_marks();
    lemma_other_marks();
    lemma_injection_counts(xml, styles_name(), record);
    lemma_tail_stays_free(xml, record, closing_tag(utf8("fonts"@)));
    lemma_tail_stays_free(xml, record, closing_tag(utf8("fills"@)));
    lemma_tail_stays_free(xml, record, closing_tag(utf8("borders"@)));
    lemma_tail_stays_free(xml, record, closing_tag(utf8("numFmts"@)));
    lemma_tail_stays_free(xml, record, utf8("<fonts"@));
    lemma_tail_stays_free(xml, record, utf8("<numFmts"@));
}

/// A catalog stays in step with its text: after a format is applied to a
/// catalog that is in step, the catalog is in step again, with one more
/// style, whose index is the count of styles before.
pub proof fn lemma_resolve_keeps_step(c: CatalogModel, spec: FormatSpec)
    requires
        in_step(c),
        c.styles < u32::MAX,
    ensures
        in_step(resolve_spec(c, spec).0),
        resolve_spec(c, spec).0.styles == c.styles + 1,
        resolve_spec(c, spec).1 == c.styles,
{
    reveal(resolve_spec);
    let xml = c.text;
    lemma_styles_marks();
    lemma_parts_keep_styles(xml, spec);
    let with_font = match spec.font {
        Some(f) => CatalogModel {
            text: injected(c.text, utf8("fonts"@), font_xml(f)).0,
            fonts: crate::styles::one_more(c.fonts),
            ..c
        },
        None => c,
    };
    let with_fill = match spec.fill {
        Some(f) => CatalogModel {
            text: injected(with_font.text, utf8("fills"@), fill_xml(f)).0,
            fills: crate::styles::one_more(c.fills),
            ..with_font
        },
        None => with_font,
    };
    let with_border = match spec.border {
        Some(b) => CatalogModel {
            text: injected(with_fill.text, utf8("borders"@), border_xml(b)).0,
            borders: crate::styles::one_more(c.borders),
            ..with_fill
        },
        None => with_fill,
    };
    let with_code = match spec.number_format {
        Some(code) => with_format(with_border, utf8(code@)).0,
        None => with_border,
    };
    match spec.number_format {
        Some(code) => {
            lemma_format_keeps_styles(xml, with_border, utf8(code@));
        },
        None => {},
    }
    lemma_styles_found(xml, with_code.text);
    let font_id = if spec.font.is_some() {
        c.fonts
    } else {
        0
    };
    let fill_id = if spec.fill.is_some() {
        c.fills
    } else {
        0
    };
    let border_id = if spec.border.is_some() {
        c.borders
    } else {
        0
    };
    let num_fmt_id = match spec.number_format {
        Some(code) => with_format(with_border, utf8(code@)).1,
        None => 0u32,
    };
    let record = xf_xml(
        font_id,
        fill_id,
        border_id,
        num_fmt_id,
        spec.alignment,
        spec.font.is_some(),
        spec.fill.is_some(),
        spec.border.is_some(),
        spec.number_format.is_some(),
    );
    lemma_xf_is_tame(
        font_id,
        fill_id,
        border_id,
        num_fmt_id,
        spec.alignment,
        spec.font.is_some(),
        spec.fill.is_some(),
        spec.border.is_some(),
        spec.number_format.is_some(),
    );
    assert(styles_stand_last(with_code.text));
    let after = resolve_spec(c, spec).0;
    assert(after.text == injected(with_code.text, styles_name(), record).0);
    lemma_styles_grow_in_place(with_code.text, record);
}

/// After a format is applied to the catalog of a style sheet whose styles
/// stand last, the text of the catalog states the count of styles that the
/// catalog has, which is one more than before.
pub proof fn lemma_catalog_stays_in_step(xml: Seq<u8>, spec: FormatSpec)
    requires
        styles_stand_last(xml),
        count_of(xml, styles_name()) < u32::MAX,
    ensures
        ({
            let after = resolve_spec(catalog_of(xml), spec).0;
            &&& count_of(after.text, styles_name()) == after.styles
            &&& after.styles == count_of(xml, styles_name()) + 1
            &&& resolve_spec(catalog_of(xml), spec).1 == count_of(xml, styles_name())
        }),
{
    lemma_resolve_keeps_step(catalog_of(xml), spec);
}

/// The same format applied twice to a style sheet gets two styles, the
/// second with the index after the first: what is applied reads the sheet
/// anew each time, and finds in it one more style than before.
///
/// This holds of a style sheet whose styles stand last and state a count
/// that is not the highest number.
pub proof fn lemma_same_format_twice_on_text(xml: Seq<u8>, spec: FormatSpec)
    requires
        styles_stand_last(xml),
        count_of(xml, styles_name()) < u32::MAX,
    ensures
        ({
            let first = resolve_spec(catalog_of(xml), spec);
            let second = resolve_spec(catalog_of(first.0.text), spec);
            second.1 == first.1 + 1
        }),
{
    reveal(resolve_spec);
    lemma_catalog_stays_in_step(xml, spec);
}

// ---------------------------------------------------------------------------
// The order of the sections while the styles grow
// ---------------------------------------------------------------------------
/// Whether a text has no `<`.
pub open spec fn has_no_tag(text: Seq<u8>) -> bool {
    forall|k: int| 0 <= k < text.len() ==> #[trigger] text[k] != 60
}

/// Two texts without `<` have none together.
proof fn lemma_no_tag_join(a: Seq<u8>, b: Seq<u8>)
    requires
        has_no_tag(a),
        has_no_tag(b),
    ensures
        has_no_tag(a + b),
{
    assert forall|k: int| 0 <= k < (a + b).len() implies #[trigger] (a + b)[k] != 60 by {
        if k < a.len() {
            assert((a + b)[k] == a[k]);
        } else {
            assert((a + b)[k] == b[k - a.len()]);
        }
    }
}

/// ASCII text without `<` has none as bytes.
proof fn lemma_no_tag_chars(text: Seq<char>)
    requires
        vstd::utf8::is_ascii_chars(text),
        forall|k: int| 0 <= k < text.len() ==> #[trigger] text[k] != '<',
    ensures
        has_no_tag(utf8(text)),
{
    lemma_ascii_text(text);
    assert forall|k: int| 0 <= k < utf8(text).len() implies #[trigger] utf8(text)[k] != 60 by {
        assert(utf8(text)[k] == text[k] as u8);
        assert(text[k] != '<');
    }
}

/// An attribute with a value without `<` has none.
proof fn lemma_plain_attr_has_no_tag(open: Seq<char>, value: Seq<u8>)
    requires
        has_no_tag(utf8(open)),
        has_no_tag(value),
    ensures
        has_no_tag(plain_attr(open, value)),
{
    reveal_strlit("\"");
    lemma_no_tag_chars("\""@);
    lemma_no_tag_join(utf8(open), value);
    lemma_no_tag_join(utf8(open) + value, utf8("\""@));
}

/// Digits have no `<`.
proof fn lemma_decimal_has_no_tag(n: nat)
    ensures
        has_no_tag(decimal(n)),
{
    lemma_decimal_is_digits(n);
    assert forall|k: int| 0 <= k < decimal(n).len() implies #[trigger] decimal(n)[k] != 60 by {
        assert(is_digit(decimal(n)[k]));
    }
}

/// The attributes of a style record have no `<`.
proof fn lemma_xf_attrs_have_no_tag(
    font_id: u32,
    fill_id: u32,
    border_id: u32,
    num_fmt_id: u32,
    apply_font: bool,
    apply_fill: bool,
    apply_border: bool,
    apply_number_format: bool,
)
    ensures
        has_no_tag(
            xf_attrs(
                font_id,
                fill_id,
                border_id,
                num_fmt_id,
                apply_font,
                apply_fill,
                apply_border,
                apply_number_format,
            ),
        ),
{
    reveal_strlit("numFmtId=\"");
    reveal_strlit(" fontId=\"");
    reveal_strlit(" fillId=\"");
    reveal_strlit(" borderId=\"");
    reveal_strlit(" applyFont=\"1\"");
    reveal_strlit(" applyFill=\"1\"");
    reveal_strlit(" applyBorder=\"1\"");
    reveal_strlit(" applyNumberFormat=\"1\"");
    lemma_no_tag_chars("numFmtId=\""@);
    lemma_no_tag_chars(" fontId=\""@);
    lemma_no_tag_chars(" fillId=\""@);
    lemma_no_tag_chars(" borderId=\""@);
    lemma_no_tag_chars(" applyFont=\"1\""@);
    lemma_no_tag_chars(" applyFill=\"1\""@);
    lemma_no_tag_chars(" applyBorder=\"1\""@);
    lemma_no_tag_chars(" applyNumberFormat=\"1\""@);
    lemma_decimal_has_no_tag(num_fmt_id as nat);
    lemma_decimal_has_no_tag(font_id as nat);
    lemma_decimal_has_no_tag(fill_id as nat);
    lemma_decimal_has_no_tag(border_id as nat);
    let a = plain_attr("numFmtId=\""@, decimal(num_fmt_id as nat));
    let b = plain_attr(" fontId=\""@, decimal(font_id as nat));
    let c = plain_attr(" fillId=\""@, decimal(fill_id as nat));
    let d = plain_attr(" borderId=\""@, decimal(border_id as nat));
    let e = flag(apply_font, " applyFont=\"1\""@);
    let f = flag(apply_fill, " applyFill=\"1\""@);
    let g = flag(apply_border, " applyBorder=\"1\""@);
    let h = flag(apply_number_format, " applyNumberFormat=\"1\""@);
    lemma_plain_attr_has_no_tag("numFmtId=\""@, decimal(num_fmt_id as nat));
    lemma_plain_attr_has_no_tag(" fontId=\""@, decimal(font_id as nat));
    lemma_plain_attr_has_no_tag(" fillId=\""@, decimal(fill_id as nat));
    lemma_plain_attr_has_no_tag(" borderId=\""@, decimal(border_id as nat));
    lemma_no_tag_join(a, b);
    lemma_no_tag_join(a + b, c);
    lemma_no_tag_join(a + b + c, d);
    lemma_no_tag_join(a + b + c + d, e);
    lemma_no_tag_join(a + b + c + d + e, f);
    lemma_no_tag_join(a + b + c + d + e + f, g);
    lemma_no_tag_join(a + b + c + d + e + f + g, h);
}

/// Joined attributes without `<` have none.
proof fn lemma_joined_has_no_tag(a: Seq<u8>, b: Seq<u8>)
    requires
        has_no_tag(a),
        has_no_tag(b),
    ensures
        has_no_tag(joined(a, b)),
{
    reveal_strlit(" ");
    lemma_no_tag_chars(" "@);
    lemma_no_tag_join(a, utf8(" "@));
    lemma_no_tag_join(a + utf8(" "@), b);
}

/// An optional string as an attribute has no `<`.
proof fn lemma_optional_attr_has_no_tag(open: Seq<char>, value: Option<String>)
    requires
        has_no_tag(utf8(open)),
    ensures
        has_no_tag(
            match value {
                Some(v) => plain_attr(open, attr_escaped(v@)),
                None => Seq::empty(),
            },
        ),
{
    match value {
        Some(v) => {
            lemma_escaped_has_no_tag(utf8(v@), false);
            lemma_plain_attr_has_no_tag(open, attr_escaped(v@));
        },
        None => {},
    }
}

/// The attributes of an alignment have no `<`.
proof fn lemma_alignment_has_no_tag(align: AlignmentSpec)
    ensures
        has_no_tag(alignment_attrs(align)),
{
    reveal_strlit("horizontal=\"");
    reveal_strlit("vertical=\"");
    reveal_strlit("wrapText=\"1\"");
    reveal_strlit("indent=\"");
    reveal_strlit("textRotation=\"");
    lemma_no_tag_chars("horizontal=\""@);
    lemma_no_tag_chars("vertical=\""@);
    lemma_no_tag_chars("wrapText=\"1\""@);
    lemma_no_tag_chars("indent=\""@);
    lemma_no_tag_chars("textRotation=\""@);
    let h = match align.horizontal {
        Some(h) => plain_attr("horizontal=\""@, attr_escaped(h@)),
        None => Seq::empty(),
    };
    let v = match align.vertical {
        Some(v) => plain_attr("vertical=\""@, attr_escaped(v@)),
        None => Seq::empty(),
    };
    let wrap = flag(align.wrap_text, "wrapText=\"1\""@);
    let indent = if align.indent > 0 {
        plain_attr("indent=\""@, decimal(align.indent as nat))
    } else {
        Seq::empty()
    };
    let rotation = if align.text_rotation > 0 {
        plain_attr("textRotation=\""@, decimal(align.text_rotation as nat))
    } else {
        Seq::empty()
    };
    lemma_optional_attr_has_no_tag("horizontal=\""@, align.horizontal);
    lemma_optional_attr_has_no_tag("vertical=\""@, align.vertical);
    lemma_decimal_has_no_tag(align.indent as nat);
    lemma_decimal_has_no_tag(align.text_rotation as nat);
    if align.indent > 0 {
        lemma_plain_attr_has_no_tag("indent=\""@, decimal(align.indent as nat));
    }
    if align.text_rotation > 0 {
        lemma_plain_attr_has_no_tag("textRotation=\""@, decimal(align.text_rotation as nat));
    }
    lemma_joined_has_no_tag(h, v);
    lemma_joined_has_no_tag(joined(h, v), wrap);
    lemma_joined_has_no_tag(joined(joined(h, v), wrap), indent);
    lemma_joined_has_no_tag(joined(joined(joined(h, v), wrap), indent), rotation);
}

/// A style record begins with `<` and is free of what could be taken for a
/// tag that parts the other sections from the styles.
pub proof fn lemma_xf_is_tame(
    font_id: u32,
    fill_id: u32,
    border_id: u32,
    num_fmt_id: u32,
    alignment: Option<AlignmentSpec>,
    apply_font: bool,
    apply_fill: bool,
    apply_border: bool,
    apply_number_format: bool,
)
    ensures
        ({
            let record = xf_xml(
                font_id,
                fill_id,
                border_id,
                num_fmt_id,
                alignment,
                apply_font,
                apply_fill,
                apply_border,
                apply_number_format,
            );
            record.len() > 0 && record[0] == 60 && avoids(record, other_leads())
        }),
{
    let bad = other_leads();
    reveal_strlit("<xf ");
    reveal_strlit(" applyAlignment=\"1\"><alignment ");
    reveal_strlit("/></xf>");
    reveal_strlit("/>");
    lemma_avoids_chars(bad, "<xf "@);
    lemma_avoids_chars(bad, " applyAlignment=\"1\"><alignment "@);
    lemma_avoids_chars(bad, "/></xf>"@);
    lemma_avoids_chars(bad, "/>"@);
    let attrs = xf_attrs(
        font_id,
        fill_id,
        border_id,
        num_fmt_id,
        apply_font,
        apply_fill,
        apply_border,
        apply_number_format,
    );
    lemma_xf_attrs_have_no_tag(
        font_id,
        fill_id,
        border_id,
        num_fmt_id,
        apply_font,
        apply_fill,
        apply_border,
        apply_number_format,
    );
    lemma_avoids_plain(bad, attrs);
    let align = match alignment {
        Some(a) => alignment_attrs(a),
        None => Seq::empty(),
    };
    match alignment {
        Some(a) => {
            lemma_alignment_has_no_tag(a);
        },
        None => {},
    }
    lemma_avoids_plain(bad, align);
    let open = utf8("<xf "@);
    lemma_avoids_join(bad, open, attrs);
    lemma_avoids_join(bad, open + attrs, utf8(" applyAlignment=\"1\"><alignment "@));
    lemma_avoids_join(bad, open + attrs + utf8(" applyAlignment=\"1\"><alignment "@), align);
    lemma_avoids_join(
        bad,
        open + attrs + utf8(" applyAlignment=\"1\"><alignment "@) + align,
        utf8("/></xf>"@),
    );
    lemma_avoids_join(bad, open + attrs, utf8("/>"@));
    lemma_first_byte("<xf "@);
    let record = xf_xml(
        font_id,
        fill_id,
        border_id,
        num_fmt_id,
        alignment,
        apply_font,
        apply_fill,
        apply_border,
        apply_number_format,
    );
    assert(record[0] == open[0]);
}

} // verus!
