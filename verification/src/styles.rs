//! The style sheet of a package, and how new styles are added to it.
//!
//! A cell refers to its style by an index into the `cellXfs` section of the
//! style sheet.  Each record there (`xf`) names a font, a fill, a border and
//! a number format by their indices in the sections `fonts`, `fills`,
//! `borders` and `numFmts`.  To give a cell a new format, the library appends
//! the parts to their sections and a new record to `cellXfs`; nothing that
//! is already there moves or changes its index.

use crate::text::{
    decimal, find_from, first_occurrence, into_text, lemma_boundary_after_ascii, lemma_boundary_at,
    parse_u32, parsed_u32, push_bytes, push_decimal, push_piece, push_text, utf8,
};
use crate::xml::{
    accepted_ends, accepted_events, attr_value, attr_value_of, document_events, escaped, models,
    push_escaped, read_accepted, read_accepted_with_ends, tag_is, tag_name, EventKind, EventModel,
    XmlEvent,
};
use vstd::prelude::*;
use vstd::utf8::{encode_utf8_valid_utf8, valid_utf8};

verus! {

/// One record of the `cellXfs` section: the parts that a style is made of.
#[derive(Debug, Clone, Copy, PartialEq, Eq, Structural)]
pub struct XfEntry {
    pub num_fmt_id: u32,
    pub font_id: u32,
    pub fill_id: u32,
    pub border_id: u32,
}

/// What a new `font` record is to say.
#[derive(Debug, Clone, Default, PartialEq, Eq, Hash)]
pub struct FontSpec {
    pub bold: bool,
    pub italic: bool,
    pub underline: bool,
    pub strikethrough: bool,
    pub name: Option<String>,
    /// The size in whole points.
    pub size: Option<u32>,
    /// The colour as `AARRGGBB`.
    pub color_rgb: Option<String>,
}

/// What a new `fill` record is to say.
#[derive(Debug, Clone, Default, PartialEq, Eq, Hash)]
pub struct FillSpec {
    /// The pattern, such as `solid` or `none`.
    pub pattern_type: String,
    /// The foreground colour as `AARRGGBB`.
    pub fg_color_rgb: Option<String>,
}

/// One edge of a border.
#[derive(Debug, Clone, Default, PartialEq, Eq, Hash)]
pub struct BorderSideSpec {
    /// The line style, such as `thin`, `medium` or `thick`.
    pub style: Option<String>,
    /// The colour as `AARRGGBB`.
    pub color_rgb: Option<String>,
}

/// What a new `border` record is to say.
#[derive(Debug, Clone, Default, PartialEq, Eq, Hash)]
pub struct BorderSpec {
    pub left: BorderSideSpec,
    pub right: BorderSideSpec,
    pub top: BorderSideSpec,
    pub bottom: BorderSideSpec,
}

/// How the content of a cell is aligned.
#[derive(Debug, Clone, Default, PartialEq, Eq, Hash)]
pub struct AlignmentSpec {
    pub horizontal: Option<String>,
    pub vertical: Option<String>,
    pub wrap_text: bool,
    pub indent: u32,
    pub text_rotation: u32,
}

/// The whole format of a cell.  A part that is `None` is left at the
/// default.
#[derive(Debug, Clone, Default)]
pub struct FormatSpec {
    pub font: Option<FontSpec>,
    pub fill: Option<FillSpec>,
    pub border: Option<BorderSpec>,
    pub alignment: Option<AlignmentSpec>,
    pub number_format: Option<String>,
}

// ---------------------------------------------------------------------------
// Records as text
// ---------------------------------------------------------------------------
/// A string as the value of an attribute: with `&`, `<`, `>` and `"` by
/// their entities.
pub open spec fn attr_escaped(text: Seq<char>) -> Seq<u8> {
    escaped(utf8(text), false)
}

/// A self-closed element with one attribute: `<name key="value"/>`, where
/// `open` is `<name key="`.
pub open spec fn one_attr(open: Seq<char>, value: Seq<u8>) -> Seq<u8> {
    utf8(open) + value + utf8("\"/>"@)
}

/// The text that a flag adds to a record: `text` if it is set.
pub open spec fn flag(set: bool, text: Seq<char>) -> Seq<u8> {
    if set {
        utf8(text)
    } else {
        Seq::empty()
    }
}

/// An optional number as an element with one attribute.
pub open spec fn number_attr(open: Seq<char>, value: Option<u32>) -> Seq<u8> {
    match value {
        Some(n) => one_attr(open, decimal(n as nat)),
        None => Seq::empty(),
    }
}

/// An optional string as an element with one attribute.
pub open spec fn string_attr(open: Seq<char>, value: Option<String>) -> Seq<u8> {
    match value {
        Some(s) => one_attr(open, attr_escaped(s@)),
        None => Seq::empty(),
    }
}

/// The `font` record for a font: the flags that are set as empty elements,
/// then size, colour and name where they are given.
pub open spec fn font_xml(spec: FontSpec) -> Seq<u8> {
    utf8("<font>"@) + flag(spec.bold, "<b/>"@) + flag(spec.italic, "<i/>"@) + flag(
        spec.underline,
        "<u/>"@,
    ) + flag(spec.strikethrough, "<strike/>"@) + number_attr("<sz val=\""@, spec.size)
        + string_attr("<color rgb=\""@, spec.color_rgb) + string_attr(
        "<name val=\""@,
        spec.name,
    ) + utf8("</font>"@)
}

/// The `fill` record for a fill: a pattern fill, with its foreground colour
/// where one is given.
pub open spec fn fill_xml(spec: FillSpec) -> Seq<u8> {
    utf8("<fill><patternFill patternType=\""@) + attr_escaped(spec.pattern_type@) + (
    match spec.fg_color_rgb {
        Some(rgb) => utf8("\"><fgColor rgb=\""@) + attr_escaped(rgb@) + utf8(
            "\"/></patternFill>"@,
        ),
        None => utf8("\"/>"@),
    }) + utf8("</fill>"@)
}

/// One edge of a `border` record: an empty element without a style, else
/// the style and, where one is given, the colour.
pub open spec fn side_xml(tag: Seq<char>, side: BorderSideSpec) -> Seq<u8> {
    match side.style {
        Some(style) => utf8("<"@) + utf8(tag) + utf8(" style=\""@) + attr_escaped(style@) + (
        match side.color_rgb {
            Some(rgb) => utf8("\"><color rgb=\""@) + attr_escaped(rgb@) + utf8("\"/></"@) + utf8(
                tag,
            ) + utf8(">"@),
            None => utf8("\"/>"@),
        }),
        None => utf8("<"@) + utf8(tag) + utf8("/>"@),
    }
}

/// The `border` record for a border: its four edges, and an empty diagonal.
pub open spec fn border_xml(spec: BorderSpec) -> Seq<u8> {
    utf8("<border>"@) + side_xml("left"@, spec.left) + side_xml("right"@, spec.right) + side_xml(
        "top"@,
        spec.top,
    ) + side_xml("bottom"@, spec.bottom) + utf8("<diagonal/></border>"@)
}

/// One attribute of an alignment, after a blank where it is not the first.
pub open spec fn joined(so_far: Seq<u8>, attr: Seq<u8>) -> Seq<u8> {
    if attr.len() == 0 {
        so_far
    } else if so_far.len() == 0 {
        attr
    } else {
        so_far + utf8(" "@) + attr
    }
}

/// An attribute `key="value"`, where `open` is `key="`.
pub open spec fn plain_attr(open: Seq<char>, value: Seq<u8>) -> Seq<u8> {
    utf8(open) + value + utf8("\""@)
}

/// The attributes of an alignment, with blanks between them: the horizontal
/// and vertical alignment where they are given, the wrapping where it is
/// set, and indent and rotation where they are not zero.
pub open spec fn alignment_attrs(align: AlignmentSpec) -> Seq<u8> {
    let h = match align.horizontal {
        Some(h) => plain_attr("horizontal=\""@, attr_escaped(h@)),
        None => Seq::empty(),
    };
    let v = match align.vertical {
        Some(v) => plain_attr("vertical=\""@, attr_escaped(v@)),
        None => Seq::empty(),
    };
    let wrap = flag(align.wrap_text, "wrapText=\"1\""@);
    let indent = if align.indent > 0 {
        plain_attr("indent=\""@, decimal(align.indent as nat))
    } else {
        Seq::empty()
    };
    let rotation = if align.text_rotation > 0 {
        plain_attr("textRotation=\""@, decimal(align.text_rotation as nat))
    } else {
        Seq::empty()
    };
    joined(joined(joined(joined(h, v), wrap), indent), rotation)
}

/// The attributes of an `xf` record: the four indices, and a flag for each
/// part that the record sets.
pub open spec fn xf_attrs(
    font_id: u32,
    fill_id: u32,
    border_id: u32,
    num_fmt_id: u32,
    apply_font: bool,
    apply_fill: bool,
    apply_border: bool,
    apply_number_format: bool,
) -> Seq<u8> {
    plain_attr("numFmtId=\""@, decimal(num_fmt_id as nat)) + plain_attr(
        " fontId=\""@,
        decimal(font_id as nat),
    ) + plain_attr(" fillId=\""@, decimal(fill_id as nat)) + plain_attr(
        " borderId=\""@,
        decimal(border_id as nat),
    ) + flag(apply_font, " applyFont=\"1\""@) + flag(apply_fill, " applyFill=\"1\""@) + flag(
        apply_border,
        " applyBorder=\"1\""@,
    ) + flag(apply_number_format, " applyNumberFormat=\"1\""@)
}

/// The `xf` record for a style.  An alignment that sets something stands in
/// it as an `alignment` element, with the flag that applies it; any other
/// record is a self-closed tag.
pub open spec fn xf_xml(
    font_id: u32,
    fill_id: u32,
    border_id: u32,
    num_fmt_id: u32,
    alignment: Option<AlignmentSpec>,
    apply_font: bool,
    apply_fill: bool,
    apply_border: bool,
    apply_number_format: bool,
) -> Seq<u8> {
    let attrs = xf_attrs(
        font_id,
        fill_id,
        border_id,
        num_fmt_id,
        apply_font,
        apply_fill,
        apply_border,
        apply_number_format,
    );
    let align = match alignment {
        Some(a) => alignment_attrs(a),
        None => Seq::empty(),
    };
    if align.len() > 0 {
        utf8("<xf "@) + attrs + utf8(" applyAlignment=\"1\"><alignment "@) + align + utf8(
            "/></xf>"@,
        )
    } else {
        utf8("<xf "@) + attrs + utf8("/>"@)
    }
}

/// Appends `text` to `out` if `set`.
fn push_flag(out: &mut Vec<u8>, set: bool, text: &str)
    ensures
        final(out)@ == old(out)@ + flag(set, text@),
        valid_utf8(old(out)@) ==> valid_utf8(final(out)@),
{
    if set {
        push_text(out, text);
    }
    assert(out@ =~= old(out)@ + flag(set, text@));
}

/// Appends a string as the value of an attribute.
fn push_attr_value(out: &mut Vec<u8>, text: &str)
    ensures
        final(out)@ == old(out)@ + attr_escaped(text@),
        valid_utf8(old(out)@) ==> valid_utf8(final(out)@),
{
    proof {
        encode_utf8_valid_utf8(text@);
    }
    push_escaped(out, text.as_bytes(), false);
}

/// Appends an optional number as an element with one attribute.
fn push_number_attr(out: &mut Vec<u8>, open: &str, value: Option<u32>)
    ensures
        final(out)@ == old(out)@ + number_attr(open@, value),
        valid_utf8(old(out)@) ==> valid_utf8(final(out)@),
{
    match value {
        Some(n) => {
            push_text(out, open);
            push_decimal(out, n as u64);
            push_text(out, "\"/>");
        },
        None => {},
    }
    assert(out@ =~= old(out)@ + number_attr(open@, value));
}

/// Appends an optional string as an element with one attribute.
fn push_string_attr(out: &mut Vec<u8>, open: &str, value: &Option<String>)
    ensures
        final(out)@ == old(out)@ + string_attr(open@, *value),
        valid_utf8(old(out)@) ==> valid_utf8(final(out)@),
{
    match value {
        Some(s) => {
            push_text(out, open);
            push_attr_value(out, s.as_str());
            push_text(out, "\"/>");
        },
        None => {},
    }
    assert(out@ =~= old(out)@ + string_attr(open@, *value));
}

/// Writes the `font` record for a font.
pub fn font_to_xml(spec: &FontSpec) -> (xml: String)
    ensures
        utf8(xml@) == font_xml(*spec),
{
    let mut out: Vec<u8> = Vec::new();
    push_text(&mut out, "<font>");
    push_flag(&mut out, spec.bold, "<b/>");
    push_flag(&mut out, spec.italic, "<i/>");
    push_flag(&mut out, spec.underline, "<u/>");
    push_flag(&mut out, spec.strikethrough, "<strike/>");
    push_number_attr(&mut out, "<sz val=\"", spec.size);
    push_string_attr(&mut out, "<color rgb=\"", &spec.color_rgb);
    push_string_attr(&mut out, "<name val=\"", &spec.name);
    push_text(&mut out, "</font>");
    assert(out@ =~= font_xml(*spec));
    into_text(out)
}

/// Writes the `fill` record for a fill.
pub fn fill_to_xml(spec: &FillSpec) -> (xml: String)
    ensures
        utf8(xml@) == fill_xml(*spec),
{
    let mut out: Vec<u8> = Vec::new();
    push_text(&mut out, "<fill><patternFill patternType=\"");
    push_attr_value(&mut out, spec.pattern_type.as_str());
    match &spec.fg_color_rgb {
        Some(rgb) => {
            push_text(&mut out, "\"><fgColor rgb=\"");
            push_attr_value(&mut out, rgb.as_str());
            push_text(&mut out, "\"/></patternFill>");
        },
        None => {
            push_text(&mut out, "\"/>");
        },
    }
    push_text(&mut out, "</fill>");
    assert(out@ =~= fill_xml(*spec));
    into_text(out)
}

/// Appends one edge of a `border` record.
fn push_side(out: &mut Vec<u8>, tag: &str, side: &BorderSideSpec)
    ensures
        final(out)@ == old(out)@ + side_xml(tag@, *side),
        valid_utf8(old(out)@) ==> valid_utf8(final(out)@),
{
    let mut piece: Vec<u8> = Vec::new();
    push_text(&mut piece, "<");
    push_text(&mut piece, tag);
    match &side.style {
        Some(style) => {
            push_text(&mut piece, " style=\"");
            push_attr_value(&mut piece, style.as_str());
            match &side.color_rgb {
                Some(rgb) => {
                    push_text(&mut piece, "\"><color rgb=\"");
                    push_attr_value(&mut piece, rgb.as_str());
                    push_text(&mut piece, "\"/></");
                    push_text(&mut piece, tag);
                    push_text(&mut piece, ">");
                    assert(piece@ =~= side_xml(tag@, *side));
                },
                None => {
                    push_text(&mut piece, "\"/>");
                    assert(piece@ =~= side_xml(tag@, *side));
                },
            }
        },
        None => {
            push_text(&mut piece, "/>");
            assert(piece@ =~= side_xml(tag@, *side));
        },
    }
    push_bytes(out, piece.as_slice());
}

/// Writes the `border` record for a border.
pub fn border_to_xml(spec: &BorderSpec) -> (xml: String)
    ensures
        utf8(xml@) == border_xml(*spec),
{
    let mut out: Vec<u8> = Vec::new();
    push_text(&mut out, "<border>");
    push_side(&mut out, "left", &spec.left);
    push_side(&mut out, "right", &spec.right);
    push_side(&mut out, "top", &spec.top);
    push_side(&mut out, "bottom", &spec.bottom);
    push_text(&mut out, "<diagonal/></border>");
    assert(out@ =~= border_xml(*spec));
    into_text(out)
}

/// Appends an attribute `key="value"` with a number for its value.
fn push_plain_number(out: &mut Vec<u8>, open: &str, value: u32)
    ensures
        final(out)@ == old(out)@ + plain_attr(open@, decimal(value as nat)),
        valid_utf8(old(out)@) ==> valid_utf8(final(out)@),
{
    push_text(out, open);
    push_decimal(out, value as u64);
    push_text(out, "\"");
    assert(out@ =~= old(out)@ + plain_attr(open@, decimal(value as nat)));
}

/// Appends one attribute of an alignment, after a blank where it is not the
/// first.
fn push_joined(out: &mut Vec<u8>, attr: &Vec<u8>)
    requires
        valid_utf8(attr@),
    ensures
        final(out)@ == joined(old(out)@, attr@),
        valid_utf8(old(out)@) ==> valid_utf8(final(out)@),
{
    if attr.len() > 0 {
        if out.len() > 0 {
            push_text(out, " ");
        }
        push_bytes(out, attr.as_slice());
    }
    assert(out@ =~= joined(old(out)@, attr@));
}

/// Writes an optional string as an attribute `key="value"`.
fn optional_attr(open: &str, value: &Option<String>) -> (out: Vec<u8>)
    ensures
        out@ == (match *value {
            Some(s) => plain_attr(open@, attr_escaped(s@)),
            None => Seq::empty(),
        }),
        valid_utf8(out@),
{
    let mut out: Vec<u8> = Vec::new();
    match value {
        Some(s) => {
            push_text(&mut out, open);
            push_attr_value(&mut out, s.as_str());
            push_text(&mut out, "\"");
            assert(out@ =~= plain_attr(open@, attr_escaped(s@)));
        },
        None => {},
    }
    out
}

/// Writes a number as an attribute `key="value"`, unless it is zero.
fn nonzero_attr(open: &str, value: u32) -> (out: Vec<u8>)
    ensures
        out@ == (if value > 0 {
            plain_attr(open@, decimal(value as nat))
        } else {
            Seq::empty()
        }),
        valid_utf8(out@),
{
    let mut out: Vec<u8> = Vec::new();
    if value > 0 {
        push_plain_number(&mut out, open, value);
        assert(out@ =~= plain_attr(open@, decimal(value as nat)));
    }
    out
}

/// Writes the attributes of an alignment.
fn alignment_to_attrs(align: &AlignmentSpec) -> (out: Vec<u8>)
    ensures
        out@ == alignment_attrs(*align),
        valid_utf8(out@),
{
    let mut out: Vec<u8> = Vec::new();
    let h = optional_attr("horizontal=\"", &align.horizontal);
    let v = optional_attr("vertical=\"", &align.vertical);
    let mut wrap: Vec<u8> = Vec::new();
    push_flag(&mut wrap, align.wrap_text, "wrapText=\"1\"");
    assert(wrap@ =~= flag(align.wrap_text, "wrapText=\"1\""@));
    let indent = nonzero_attr("indent=\"", align.indent);
    let rotation = nonzero_attr("textRotation=\"", align.text_rotation);
    push_joined(&mut out, &h);
    assert(out@ =~= joined(h@, Seq::empty())) by {
        assert(joined(Seq::empty(), h@) =~= h@);
    }
    assert(out@ =~= h@);
    push_joined(&mut out, &v);
    push_joined(&mut out, &wrap);
    push_joined(&mut out, &indent);
    push_joined(&mut out, &rotation);
    out
}

/// Writes the `xf` record for a style from the indices of its parts.
pub fn xf_to_xml(
    font_id: u32,
    fill_id: u32,
    border_id: u32,
    num_fmt_id: u32,
    alignment: Option<&AlignmentSpec>,
    apply_font: bool,
    apply_fill: bool,
    apply_border: bool,
    apply_number_format: bool,
) -> (xml: String)
    ensures
        utf8(xml@) == xf_xml(
            font_id,
            fill_id,
            border_id,
            num_fmt_id,
            match alignment {
                Some(a) => Some(*a),
                None => None,
            },
            apply_font,
            apply_fill,
            apply_border,
            apply_number_format,
        ),
{
    let mut attrs: Vec<u8> = Vec::new();
    push_plain_number(&mut attrs, "numFmtId=\"", num_fmt_id);
    push_plain_number(&mut attrs, " fontId=\"", font_id);
    push_plain_number(&mut attrs, " fillId=\"", fill_id);
    push_plain_number(&mut attrs, " borderId=\"", border_id);
    push_flag(&mut attrs, apply_font, " applyFont=\"1\"");
    push_flag(&mut attrs, apply_fill, " applyFill=\"1\"");
    push_flag(&mut attrs, apply_border, " applyBorder=\"1\"");
    push_flag(&mut attrs, apply_number_format, " applyNumberFormat=\"1\"");
    assert(attrs@ =~= xf_attrs(
        font_id,
        fill_id,
        border_id,
        num_fmt_id,
        apply_font,
        apply_fill,
        apply_border,
        apply_number_format,
    ));
    let align: Vec<u8> = match alignment {
        Some(a) => alignment_to_attrs(a),
        None => Vec::new(),
    };
    let mut out: Vec<u8> = Vec::new();
    push_text(&mut out, "<xf ");
    push_bytes(&mut out, attrs.as_slice());
    if align.len() > 0 {
        push_text(&mut out, " applyAlignment=\"1\"><alignment ");
        push_bytes(&mut out, align.as_slice());
        push_text(&mut out, "/></xf>");
    } else {
        push_text(&mut out, "/>");
    }
    into_text(out)
}

/// Writes a string as the value of an attribute: with `&`, `<`, `>` and `"`
/// by their entities.
pub fn xml_escape(text: &str) -> (out: String)
    ensures
        utf8(out@) == attr_escaped(text@),
{
    let mut out: Vec<u8> = Vec::new();
    push_attr_value(&mut out, text);
    assert(out@ =~= attr_escaped(text@));
    into_text(out)
}

// ---------------------------------------------------------------------------
// Sections of the style sheet
// ---------------------------------------------------------------------------
/// The closing tag of a section.
pub open spec fn closing_tag(tag: Seq<u8>) -> Seq<u8> {
    utf8("</"@) + tag + utf8(">"@)
}

/// What the opening tag of a section begins with.
pub open spec fn opening_prefix(tag: Seq<u8>) -> Seq<u8> {
    utf8("<"@) + tag
}

/// Where a section stands in a style sheet.
pub struct SectionPlace {
    /// Where the opening tag begins.
    pub open: int,
    /// Where the `>` of the opening tag stands.
    pub open_end: int,
    /// Where the closing tag begins.
    pub close: int,
}

/// The place of the section `tag`: where its closing tag first stands, and
/// where its opening tag first stands, which must end before the closing tag
/// begins.
pub open spec fn section_place(xml: Seq<u8>, tag: Seq<u8>) -> Option<SectionPlace> {
    match (
        first_occurrence(xml, closing_tag(tag), 0),
        first_occurrence(xml, opening_prefix(tag), 0),
    ) {
        (Some(close), Some(open)) => match first_occurrence(xml, utf8(">"@), open) {
            Some(open_end) if open_end < close => Some(SectionPlace { open, open_end, close }),
            _ => None,
        },
        _ => None,
    }
}

/// Where the value of the attribute `count` stands in the opening tag of a
/// section: from after `count="` up to the next `"`.
pub open spec fn count_place(xml: Seq<u8>, place: SectionPlace) -> Option<(int, int)> {
    let key = utf8("count=\""@);
    match first_occurrence(xml, key, place.open) {
        Some(at) if at + key.len() <= place.open_end + 1 => match first_occurrence(
            xml,
            utf8("\""@),
            at + key.len(),
        ) {
            Some(end) if end <= place.open_end => Some((at + key.len(), end)),
            _ => None,
        },
        _ => None,
    }
}

/// How many records a section has: the number in its attribute `count`.
/// Where the opening tag has no such attribute, or one that is no number,
/// it is the number of records that the parser finds in the section; see
/// [`scanned_count`].
pub open spec fn section_count(xml: Seq<u8>, tag: Seq<u8>, place: SectionPlace) -> u32 {
    match count_place(xml, place) {
        Some((from, to)) => match parsed_u32(xml.subrange(from, to)) {
            Some(n) => n,
            None => scanned_count(xml, tag),
        },
        None => scanned_count(xml, tag),
    }
}

/// The attribute `count` with a number for its value, as it is written into
/// an opening tag that has none.
pub open spec fn count_attr(count: nat) -> Seq<u8> {
    utf8(" count=\""@) + decimal(count) + utf8("\""@)
}

/// A style sheet with one more record in the section `tag`, and the index of
/// that record.
///
/// The record goes in just before the closing tag of the section, and has
/// for its index the number of records that the section had; see
/// [`section_count`].  The attribute `count` of the section then states one
/// more: its value is written anew, and where the opening tag has no such
/// attribute, it gets one at its end.  Where the sheet has no such section,
/// it stays as it is and the index is 0.
#[verifier::opaque]
pub open spec fn injected(xml: Seq<u8>, tag: Seq<u8>, element: Seq<u8>) -> (Seq<u8>, u32) {
    match section_place(xml, tag) {
        None => (xml, 0),
        Some(place) => {
            let count = section_count(xml, tag, place);
            let head = match count_place(xml, place) {
                Some((from, to)) => xml.subrange(0, from) + decimal((count + 1) as nat)
                    + xml.subrange(to, place.close),
                None => xml.subrange(0, place.open_end) + count_attr((count + 1) as nat)
                    + xml.subrange(place.open_end, place.close),
            };
            (head + element + xml.subrange(place.close, xml.len() as int), count)
        },
    }
}

/// Where a section stands, as the library finds it.
struct Place {
    open: usize,
    open_end: usize,
    close: usize,
}

impl Place {
    spec fn model(&self) -> SectionPlace {
        SectionPlace {
            open: self.open as int,
            open_end: self.open_end as int,
            close: self.close as int,
        }
    }
}

/// Finds the place of a section.
fn find_section(xml: &[u8], tag: &[u8]) -> (found: Option<Place>)
    ensures
        match found {
            Some(place) => {
                &&& section_place(xml@, tag@) == Some(place.model())
                &&& place.open <= place.open_end < place.close < xml@.len()
                &&& xml@[place.open as int] == 60
                &&& xml@[place.open_end as int] == 62
                &&& xml@[place.close as int] == 60
            },
            None => section_place(xml@, tag@).is_none(),
        },
{
    let mut closing: Vec<u8> = Vec::new();
    push_text(&mut closing, "</");
    push_bytes(&mut closing, tag);
    push_text(&mut closing, ">");
    assert(closing@ =~= closing_tag(tag@));
    let mut opening: Vec<u8> = Vec::new();
    push_text(&mut opening, "<");
    push_bytes(&mut opening, tag);
    assert(opening@ =~= opening_prefix(tag@));
    proof {
        reveal_strlit("</");
        reveal_strlit("<");
        reveal_strlit(">");
        crate::text::lemma_ascii_text("</"@);
        crate::text::lemma_ascii_text("<"@);
        crate::text::lemma_ascii_text(">"@);
        crate::text::lemma_first_occurrence(xml@, closing@, 0);
        crate::text::lemma_first_occurrence(xml@, opening@, 0);
    }
    let close = match find_from(xml, closing.as_slice(), 0) {
        Some(at) => at,
        None => {
            return None;
        },
    };
    let open = match find_from(xml, opening.as_slice(), 0) {
        Some(at) => at,
        None => {
            return None;
        },
    };
    proof {
        crate::text::lemma_first_occurrence(xml@, utf8(">"@), open as int);
    }
    match find_from(xml, ">".as_bytes(), open) {
        Some(open_end) => {
            if open_end < close {
                assert(xml@.subrange(close as int, close + closing@.len())[0] == closing@[0]);
                assert(xml@.subrange(open as int, open + opening@.len())[0] == opening@[0]);
                assert(xml@.subrange(open_end as int, open_end + 1)[0] == utf8(">"@)[0]);
                Some(Place { open, open_end, close })
            } else {
                None
            }
        },
        None => None,
    }
}

/// Finds where the value of the attribute `count` stands in the opening tag
/// of a section.
fn find_count(xml: &[u8], place: &Place) -> (found: Option<(usize, usize)>)
    requires
        place.open <= place.open_end < xml@.len(),
    ensures
        match found {
            Some((from, to)) => {
                &&& count_place(xml@, place.model()) == Some((from as int, to as int))
                &&& place.open < from <= to <= place.open_end
                &&& xml@[from - 1] == 34
                &&& xml@[to as int] == 34
            },
            None => count_place(xml@, place.model()).is_none(),
        },
{
    let key = "count=\"".as_bytes();
    proof {
        reveal_strlit("count=\"");
        reveal_strlit("\"");
        crate::text::lemma_ascii_text("count=\""@);
        crate::text::lemma_ascii_text("\""@);
        crate::text::lemma_first_occurrence(xml@, key@, place.open as int);
    }
    match find_from(xml, key, place.open) {
        Some(at) => {
            let len = xml.len();
            if at <= place.open_end && key.len() - 1 <= place.open_end - at {
                assert(at + key.len() <= len);
                let from = at + key.len();
                proof {
                    crate::text::lemma_first_occurrence(xml@, utf8("\""@), from as int);
                }
                match find_from(xml, "\"".as_bytes(), from) {
                    Some(to) => {
                        if to <= place.open_end {
                            assert(xml@.subrange(at as int, at + key@.len())[6] == key@[6]);
                            assert(xml@.subrange(to as int, to + 1)[0] == utf8("\""@)[0]);
                            Some((from, to))
                        } else {
                            None
                        }
                    },
                    None => None,
                }
            } else {
                None
            }
        },
        None => None,
    }
}

/// Reads how many records a section has, where the section and the value
/// of its attribute `count` have been found.
fn read_section_count(
    xml: &str,
    tag: &str,
    place: &Place,
    counted: Option<(usize, usize)>,
) -> (count: u32)
    requires
        place.open <= place.open_end < utf8(xml@).len(),
        match counted {
            Some((from, to)) => {
                &&& count_place(utf8(xml@), place.model()) == Some((from as int, to as int))
                &&& from <= to <= utf8(xml@).len()
            },
            None => count_place(utf8(xml@), place.model()).is_none(),
        },
    ensures
        count == section_count(utf8(xml@), utf8(tag@), place.model()),
{
    let stated = match counted {
        Some((from, to)) => parse_u32(vstd::slice::slice_subrange(xml.as_bytes(), from, to)),
        None => None,
    };
    match stated {
        Some(n) => n,
        None => count_section_elements(xml, tag).0,
    }
}

/// Puts a new record into a section of a style sheet, just before the
/// closing tag of the section, and counts it; see [`injected`].
///
/// Returns the new style sheet and the index of the new record.
pub fn inject_into_section(xml: &str, section_tag: &str, new_element: &str) -> (result: (
    String,
    u32,
))
    ensures
        utf8(result.0@) == injected(utf8(xml@), utf8(section_tag@), utf8(new_element@)).0,
        result.1 == injected(utf8(xml@), utf8(section_tag@), utf8(new_element@)).1,
{
    reveal(injected);
    let bytes = xml.as_bytes();
    proof {
        encode_utf8_valid_utf8(xml@);
    }
    let place = match find_section(bytes, section_tag.as_bytes()) {
        Some(place) => place,
        None => {
            return (xml.to_owned(), 0);
        },
    };
    let counted = find_count(bytes, &place);
    let count = read_section_count(xml, section_tag, &place, counted);
    let mut out: Vec<u8> = Vec::new();
    proof {
        lemma_boundary_at(bytes@, 0);
        lemma_boundary_at(bytes@, place.open_end as int);
        lemma_boundary_at(bytes@, place.close as int);
        lemma_boundary_at(bytes@, bytes@.len() as int);
    }
    match counted {
        Some((from, to)) => {
            proof {
                lemma_boundary_after_ascii(bytes@, from - 1);
                lemma_boundary_at(bytes@, to as int);
            }
            push_piece(&mut out, bytes, 0, from);
            push_decimal(&mut out, count as u64 + 1);
            push_piece(&mut out, bytes, to, place.close);
        },
        None => {
            push_piece(&mut out, bytes, 0, place.open_end);
            push_text(&mut out, " count=\"");
            push_decimal(&mut out, count as u64 + 1);
            push_text(&mut out, "\"");
            push_piece(&mut out, bytes, place.open_end, place.close);
        },
    }
    push_text(&mut out, new_element);
    push_piece(&mut out, bytes, place.close, bytes.len());
    assert(out@ =~= injected(utf8(xml@), utf8(section_tag@), utf8(new_element@)).0);
    (into_text(out), count)
}

// ---------------------------------------------------------------------------
// Number formats
// ---------------------------------------------------------------------------
/// The id of a number format that every package knows without a record.
pub open spec fn builtin_id(code: Seq<u8>) -> Option<u32> {
    if code == utf8("General"@) {
        Some(0)
    } else if code == utf8("0"@) {
        Some(1)
    } else if code == utf8("0.00"@) {
        Some(2)
    } else if code == utf8("#,##0"@) {
        Some(3)
    } else if code == utf8("#,##0.00"@) {
        Some(4)
    } else if code == utf8("0%"@) {
        Some(9)
    } else if code == utf8("0.00%"@) {
        Some(10)
    } else if code == utf8("0.00E+00"@) {
        Some(11)
    } else if code == utf8("mm-dd-yy"@) {
        Some(14)
    } else if code == utf8("d-mmm-yy"@) {
        Some(15)
    } else if code == utf8("d-mmm"@) {
        Some(16)
    } else if code == utf8("mmm-yy"@) {
        Some(17)
    } else if code == utf8("h:mm AM/PM"@) {
        Some(18)
    } else if code == utf8("h:mm:ss AM/PM"@) {
        Some(19)
    } else if code == utf8("h:mm"@) {
        Some(20)
    } else if code == utf8("h:mm:ss"@) {
        Some(21)
    } else if code == utf8("m/d/yy h:mm"@) {
        Some(22)
    } else if code == utf8("@"@) {
        Some(49)
    } else {
        None
    }
}

/// Whether a format code is the given one.
fn code_is(code: &[u8], known: &str) -> (same: bool)
    ensures
        same == (code@ == utf8(known@)),
{
    crate::text::bytes_eq(code, known.as_bytes())
}

/// Looks a format code up among the formats that need no record.
pub fn builtin_num_fmt_id(code: &str) -> (id: Option<u32>)
    ensures
        id == builtin_id(utf8(code@)),
{
    let code = code.as_bytes();
    if code_is(code, "General") {
        Some(0)
    } else if code_is(code, "0") {
        Some(1)
    } else if code_is(code, "0.00") {
        Some(2)
    } else if code_is(code, "#,##0") {
        Some(3)
    } else if code_is(code, "#,##0.00") {
        Some(4)
    } else if code_is(code, "0%") {
        Some(9)
    } else if code_is(code, "0.00%") {
        Some(10)
    } else if code_is(code, "0.00E+00") {
        Some(11)
    } else if code_is(code, "mm-dd-yy") {
        Some(14)
    } else if code_is(code, "d-mmm-yy") {
        Some(15)
    } else if code_is(code, "d-mmm") {
        Some(16)
    } else if code_is(code, "mmm-yy") {
        Some(17)
    } else if code_is(code, "h:mm AM/PM") {
        Some(18)
    } else if code_is(code, "h:mm:ss AM/PM") {
        Some(19)
    } else if code_is(code, "h:mm") {
        Some(20)
    } else if code_is(code, "h:mm:ss") {
        Some(21)
    } else if code_is(code, "m/d/yy h:mm") {
        Some(22)
    } else if code_is(code, "@") {
        Some(49)
    } else {
        None
    }
}

/// A numeric attribute of a record, or 0 where it is missing or no number.
pub open spec fn number_of(content: Seq<u8>, key: Seq<u8>) -> u32 {
    match attr_value_of(content, key) {
        Some(v) => match parsed_u32(v) {
            Some(n) => n,
            None => 0,
        },
        None => 0,
    }
}

/// Reads a numeric attribute of a record.
fn read_number(content: &[u8], key: &str) -> (n: u32)
    ensures
        n == number_of(content@, utf8(key@)),
{
    match attr_value(content, key) {
        Some(v) => match parse_u32(v.as_str().as_bytes()) {
            Some(n) => n,
            None => 0,
        },
        None => 0,
    }
}

/// Whether an event is an opening or self-closed tag with the given name.
pub open spec fn is_element(ev: EventModel, name: Seq<u8>) -> bool {
    (ev.kind == EventKind::Start || ev.kind == EventKind::Empty) && tag_name(ev.content) == name
}

/// What a search through the custom number formats of a style sheet has
/// found.
pub struct FormatSearch {
    /// The id of the first format with the code that is looked for.
    pub found: Option<u32>,
    /// The highest id that a format had before that one, and 163 at the
    /// least: custom ids begin at 164.
    pub highest: u32,
}

/// The search for a format code through the `numFmt` records among the
/// events of a style sheet.
pub open spec fn format_search(events: Seq<EventModel>, code: Seq<u8>) -> FormatSearch
    decreases events.len(),
{
    if events.len() == 0 {
        FormatSearch { found: None, highest: 163 }
    } else {
        let before = format_search(events.drop_last(), code);
        let ev = events.last();
        if before.found.is_some() || !is_element(ev, utf8("numFmt"@)) {
            before
        } else {
            let id = number_of(ev.content, utf8("numFmtId"@));
            let own = match attr_value_of(ev.content, utf8("formatCode"@)) {
                Some(c) => c,
                None => Seq::empty(),
            };
            if own == code {
                FormatSearch { found: Some(id), ..before }
            } else if id > before.highest {
                FormatSearch { highest: id, ..before }
            } else {
                before
            }
        }
    }
}

/// The record of a custom number format.
pub open spec fn num_fmt_xml(id: u32, code: Seq<u8>) -> Seq<u8> {
    utf8("<numFmt numFmtId=\""@) + decimal(id as nat) + utf8("\" formatCode=\""@) + escaped(
        code,
        false,
    ) + utf8("\"/>"@)
}

/// A style sheet with a new `numFmts` section that holds `element`, set in
/// before the `fonts` section.  Without a `fonts` section nothing changes.
pub open spec fn with_formats_section(xml: Seq<u8>, element: Seq<u8>) -> Seq<u8> {
    match first_occurrence(xml, utf8("<fonts"@), 0) {
        Some(at) => xml.subrange(0, at) + utf8("<numFmts count=\"1\">"@) + element + utf8(
            "</numFmts>"@,
        ) + xml.subrange(at, xml.len() as int),
        None => xml,
    }
}

/// A style sheet with a record for the number format `code` under the new id
/// `id`: at the end of the `numFmts` section, or in a new one.
pub open spec fn with_new_format(xml: Seq<u8>, code: Seq<u8>, id: u32) -> Seq<u8> {
    let element = num_fmt_xml(id, code);
    if first_occurrence(xml, utf8("<numFmts"@), 0).is_some() {
        injected(xml, utf8("numFmts"@), element).0
    } else {
        with_formats_section(xml, element)
    }
}

/// A style sheet in which the number format `code` has an id, and that id.
///
/// A format that every package knows has its fixed id.  Otherwise the id is
/// that of the first custom format of the sheet with this code.  Where
/// there is none, the format gets the id after the highest one in use, in a
/// new record at the end of the `numFmts` section, which is made if the
/// sheet has none.  Where no id is left, the sheet stays as it is and the id
/// is 0.
pub open spec fn with_num_fmt(xml: Seq<u8>, code: Seq<u8>) -> (Seq<u8>, u32) {
    match builtin_id(code) {
        Some(id) => (xml, id),
        None => {
            let search = format_search(accepted_events(document_events(xml)), code);
            match search.found {
                Some(id) => (xml, id),
                None => if search.highest == u32::MAX {
                    (xml, 0)
                } else {
                    let id = (search.highest + 1) as u32;
                    (with_new_format(xml, code, id), id)
                },
            }
        },
    }
}

/// Searches the custom number formats among the events of a style sheet
/// for a format code; see [`format_search`].
///
/// Returns the id of the first format with that code, and the highest id
/// that a format had before that one, which is 163 at the least.
pub fn search_formats(events: &[XmlEvent], code: &[u8]) -> (search: (Option<u32>, u32))
    ensures
        search.0 == format_search(models(events@), code@).found,
        search.1 == format_search(models(events@), code@).highest,
{
    let mut highest: u32 = 163;
    let mut i: usize = 0;
    let ghost all = models(events@);
    assert(all.subrange(0, 0) =~= Seq::<EventModel>::empty());
    while i < events.len()
        invariant
            i <= events.len(),
            all == models(events@),
            format_search(all.subrange(0, i as int), code@).found.is_none(),
            format_search(all.subrange(0, i as int), code@).highest == highest,
        decreases events.len() - i,
    {
        let ghost next = all.subrange(0, i + 1);
        assert(next.drop_last() =~= all.subrange(0, i as int));
        assert(next.last() == events@[i as int]@);
        let ev = &events[i];
        let is_tag = match ev.kind {
            EventKind::Start => true,
            EventKind::Empty => true,
            _ => false,
        };
        if is_tag && tag_is(ev.content.as_slice(), "numFmt") {
            let id = read_number(ev.content.as_slice(), "numFmtId");
            let own = match attr_value(ev.content.as_slice(), "formatCode") {
                Some(c) => c,
                None => {
                    let none = String::new();
                    assert(utf8(none@) =~= Seq::<u8>::empty());
                    none
                },
            };
            if crate::text::bytes_eq(own.as_str().as_bytes(), code) {
                proof {
                    lemma_search_found(all, code@, i + 1);
                }
                return (Some(id), highest);
            }
            if id > highest {
                highest = id;
            }
        }
        i += 1;
    }
    assert(all.subrange(0, events.len() as int) =~= all);
    (None, highest)
}

/// Once a format is found, the search is over.
proof fn lemma_search_found(events: Seq<EventModel>, code: Seq<u8>, len: int)
    requires
        0 <= len <= events.len(),
        format_search(events.subrange(0, len), code).found.is_some(),
    ensures
        format_search(events, code) == format_search(events.subrange(0, len), code),
    decreases events.len() - len,
{
    if len < events.len() {
        let next = events.subrange(0, len + 1);
        assert(next.drop_last() =~= events.subrange(0, len));
        lemma_search_found(events, code, len + 1);
    } else {
        assert(events.subrange(0, len) =~= events);
    }
}

/// Adds a record for a number format under a new id; see
/// [`with_new_format`].
fn create_num_fmt(xml: &str, format_code: &str, id: u32) -> (updated: String)
    ensures
        utf8(updated@) == with_new_format(utf8(xml@), utf8(format_code@), id),
{
    let mut element: Vec<u8> = Vec::new();
    push_text(&mut element, "<numFmt numFmtId=\"");
    push_decimal(&mut element, id as u64);
    push_text(&mut element, "\" formatCode=\"");
    push_attr_value(&mut element, format_code);
    push_text(&mut element, "\"/>");
    assert(element@ =~= num_fmt_xml(id, utf8(format_code@)));
    let element = into_text(element);
    let bytes = xml.as_bytes();
    match find_from(bytes, "<numFmts".as_bytes(), 0) {
        Some(_) => {
            let (updated, _) = inject_into_section(xml, "numFmts", element.as_str());
            updated
        },
        None => insert_formats_section(xml, element.as_str()),
    }
}

/// Sets a new `numFmts` section in before the `fonts` section; see
/// [`with_formats_section`].
fn insert_formats_section(xml: &str, element: &str) -> (updated: String)
    ensures
        utf8(updated@) == with_formats_section(utf8(xml@), utf8(element@)),
{
    let bytes = xml.as_bytes();
    proof {
        crate::text::lemma_first_occurrence(bytes@, utf8("<fonts"@), 0);
    }
    match find_from(bytes, "<fonts".as_bytes(), 0) {
        Some(at) => {
            proof {
                encode_utf8_valid_utf8(xml@);
                reveal_strlit("<fonts");
                crate::text::lemma_boundary_at_match(bytes@, "<fonts"@, at as int);
                lemma_boundary_at(bytes@, 0);
                lemma_boundary_at(bytes@, bytes@.len() as int);
            }
            let mut out: Vec<u8> = Vec::new();
            push_piece(&mut out, bytes, 0, at);
            push_text(&mut out, "<numFmts count=\"1\">");
            push_text(&mut out, element);
            push_text(&mut out, "</numFmts>");
            push_piece(&mut out, bytes, at, bytes.len());
            assert(out@ =~= with_formats_section(utf8(xml@), utf8(element@)));
            into_text(out)
        },
        None => xml.to_owned(),
    }
}

/// Finds the id of a number format in a style sheet, or gives the format a
/// new id and a record; see [`with_num_fmt`].
///
/// Returns the style sheet, changed where a record was added, and the id.
pub fn find_or_create_num_fmt(xml: &str, format_code: &str) -> (result: (String, u32))
    ensures
        utf8(result.0@) == with_num_fmt(utf8(xml@), utf8(format_code@)).0,
        result.1 == with_num_fmt(utf8(xml@), utf8(format_code@)).1,
{
    match builtin_num_fmt_id(format_code) {
        Some(id) => (xml.to_owned(), id),
        None => {
            let (events, _) = read_accepted(xml);
            let (found, highest) = search_formats(events.as_slice(), format_code.as_bytes());
            match found {
                Some(id) => (xml.to_owned(), id),
                None => {
                    if highest == 0xffff_ffff {
                        (xml.to_owned(), 0)
                    } else {
                        (create_num_fmt(xml, format_code, highest + 1), highest + 1)
                    }
                },
            }
        },
    }
}

// ---------------------------------------------------------------------------
// The catalog
// ---------------------------------------------------------------------------
/// How many records the section `tag` of a style sheet has, or 0 where the
/// sheet has no such section; see [`section_count`].
pub open spec fn count_of(xml: Seq<u8>, tag: Seq<u8>) -> u32 {
    match section_place(xml, tag) {
        Some(place) => section_count(xml, tag, place),
        None => 0,
    }
}

/// The custom number formats among the events of a style sheet: the code
/// and the id of each `numFmt` record, in order.
pub open spec fn custom_formats(events: Seq<EventModel>) -> Seq<(Seq<u8>, u32)>
    decreases events.len(),
{
    if events.len() == 0 {
        Seq::empty()
    } else {
        let before = custom_formats(events.drop_last());
        let ev = events.last();
        if is_element(ev, utf8("numFmt"@)) {
            before.push(
                (
                    match attr_value_of(ev.content, utf8("formatCode"@)) {
                        Some(c) => c,
                        None => Seq::empty(),
                    },
                    number_of(ev.content, utf8("numFmtId"@)),
                ),
            )
        } else {
            before
        }
    }
}

/// The highest id among number formats, and 163 at the least: custom ids
/// begin at 164.
pub open spec fn highest_id(formats: Seq<(Seq<u8>, u32)>) -> u32
    decreases formats.len(),
{
    if formats.len() == 0 {
        163
    } else {
        let before = highest_id(formats.drop_last());
        if formats.last().1 > before {
            formats.last().1
        } else {
            before
        }
    }
}

/// The id of the first of the formats with the given code.
pub open spec fn known_format(formats: Seq<(Seq<u8>, u32)>, code: Seq<u8>) -> Option<u32>
    decreases formats.len(),
{
    if formats.len() == 0 {
        None
    } else {
        match known_format(formats.drop_last(), code) {
            Some(id) => Some(id),
            None => if formats.last().0 == code {
                Some(formats.last().1)
            } else {
                None
            },
        }
    }
}

/// What a catalog of styles knows: the text of the style sheet, how many
/// fonts, fills, borders and styles it counts, and the custom number
/// formats with the highest id among them.
pub struct CatalogModel {
    pub text: Seq<u8>,
    pub fonts: u32,
    pub fills: u32,
    pub borders: u32,
    pub styles: u32,
    pub formats: Seq<(Seq<u8>, u32)>,
    pub highest: u32,
}

/// The catalog of a style sheet as it is read: the counts are those that
/// the sections state, or else the numbers of records that they hold, and
/// the number formats are those of the sheet up to where the parser rejects
/// it.
pub open spec fn catalog_of(xml: Seq<u8>) -> CatalogModel {
    let formats = custom_formats(accepted_events(document_events(xml)));
    CatalogModel {
        text: xml,
        fonts: count_of(xml, utf8("fonts"@)),
        fills: count_of(xml, utf8("fills"@)),
        borders: count_of(xml, utf8("borders"@)),
        styles: count_of(xml, utf8("cellXfs"@)),
        formats,
        highest: highest_id(formats),
    }
}

/// A count with one more: the next number, or the count itself where no
/// number is left.
pub open spec fn one_more(count: u32) -> u32 {
    if count < u32::MAX {
        (count + 1) as u32
    } else {
        count
    }
}

/// A catalog in which the number format `code` has an id, and that id.
///
/// A format that every package knows has its fixed id.  Otherwise the id is
/// that of the first custom format of the catalog with this code.  Where
/// there is none, the format gets the id after the highest one in use, in a
/// new record at the end of the `numFmts` section, which is made if the
/// sheet has none.  Where no id is left, the catalog stays as it is and the
/// id is 0.
pub open spec fn with_format(c: CatalogModel, code: Seq<u8>) -> (CatalogModel, u32) {
    match builtin_id(code) {
        Some(id) => (c, id),
        None => match known_format(c.formats, code) {
            Some(id) => (c, id),
            None => if c.highest == u32::MAX {
                (c, 0)
            } else {
                let id = (c.highest + 1) as u32;
                (
                    CatalogModel {
                        text: with_new_format(c.text, code, id),
                        formats: c.formats.push((code, id)),
                        highest: id,
                        ..c
                    },
                    id,
                )
            },
        },
    }
}

/// A catalog with a new style for the given format, and the index of that
/// style.
///
/// Each part that the format sets gets a record of its own at the end of its
/// section, with the count of the section for its index: font, fill, border
/// and number format, in this order.  Then a style record that names those
/// records, and 0 for each part that is not set, goes to the end of
/// `cellXfs`; the count of the styles is its index.  Nothing is looked up
/// but number formats: the same format gets a new style each time.
#[verifier::opaque]
pub open spec fn resolve_spec(c: CatalogModel, spec: FormatSpec) -> (CatalogModel, u32) {
    let with_font = match spec.font {
        Some(f) => CatalogModel {
            text: injected(c.text, utf8("fonts"@), font_xml(f)).0,
            fonts: one_more(c.fonts),
            ..c
        },
        None => c,
    };
    let font_id = if spec.font.is_some() {
        c.fonts
    } else {
        0
    };
    let with_fill = match spec.fill {
        Some(f) => CatalogModel {
            text: injected(with_font.text, utf8("fills"@), fill_xml(f)).0,
            fills: one_more(c.fills),
            ..with_font
        },
        None => with_font,
    };
    let fill_id = if spec.fill.is_some() {
        c.fills
    } else {
        0
    };
    let with_border = match spec.border {
        Some(b) => CatalogModel {
            text: injected(with_fill.text, utf8("borders"@), border_xml(b)).0,
            borders: one_more(c.borders),
            ..with_fill
        },
        None => with_fill,
    };
    let border_id = if spec.border.is_some() {
        c.borders
    } else {
        0
    };
    let (with_code, num_fmt_id) = match spec.number_format {
        Some(code) => with_format(with_border, utf8(code@)),
        None => (with_border, 0u32),
    };
    let record = xf_xml(
        font_id,
        fill_id,
        border_id,
        num_fmt_id,
        spec.alignment,
        spec.font.is_some(),
        spec.fill.is_some(),
        spec.border.is_some(),
        spec.number_format.is_some(),
    );
    (
        CatalogModel {
            text: injected(with_code.text, utf8("cellXfs"@), record).0,
            styles: one_more(c.styles),
            ..with_code
        },
        c.styles,
    )
}

/// The same format applied twice gets two styles: a catalog does not look
/// for a style that it has already, so that the second style has the index
/// after the first.  This holds as long as an index is left.
pub proof fn lemma_same_format_twice(c: CatalogModel, spec: FormatSpec)
    requires
        c.styles < u32::MAX,
    ensures
        resolve_spec(resolve_spec(c, spec).0, spec).1 != resolve_spec(c, spec).1,
        resolve_spec(resolve_spec(c, spec).0, spec).1 == resolve_spec(c, spec).1 + 1,
{
    reveal(resolve_spec);
}

/// Any two formats that are applied one after the other get different
/// styles, as long as an index is left.
pub proof fn lemma_styles_are_never_shared(c: CatalogModel, first: FormatSpec, second: FormatSpec)
    requires
        c.styles < u32::MAX,
    ensures
        resolve_spec(resolve_spec(c, first).0, second).1 != resolve_spec(c, first).1,
{
    reveal(resolve_spec);
}

/// Applying a format only adds to a catalog: the counts do not go down, and
/// the number formats that it knows stay, with their ids.
pub proof fn lemma_catalog_grows(c: CatalogModel, spec: FormatSpec)
    ensures
        ({
            let after = resolve_spec(c, spec).0;
            &&& after.fonts >= c.fonts
            &&& after.fills >= c.fills
            &&& after.borders >= c.borders
            &&& after.styles >= c.styles
            &&& after.highest >= c.highest
            &&& c.formats.len() <= after.formats.len()
            &&& after.formats.subrange(0, c.formats.len() as int) == c.formats
        }),
{
    reveal(resolve_spec);
    let after = resolve_spec(c, spec).0;
    assert(after.formats.subrange(0, c.formats.len() as int) =~= c.formats);
}

/// The bytes of number formats.
pub open spec fn format_bytes(formats: Seq<(String, u32)>) -> Seq<(Seq<u8>, u32)> {
    Seq::new(formats.len(), |i: int| (utf8(formats[i].0@), formats[i].1))
}

/// The catalog of the styles of a package: the style sheet with what the
/// library knows of it.  New styles are added at the end of their sections,
/// so that no style that is there changes its index.
pub struct StyleCatalog {
    text: String,
    fonts: u32,
    fills: u32,
    borders: u32,
    styles: u32,
    formats: Vec<(String, u32)>,
    highest: u32,
}

impl View for StyleCatalog {
    type V = CatalogModel;

    closed spec fn view(&self) -> CatalogModel {
        CatalogModel {
            text: utf8(self.text@),
            fonts: self.fonts,
            fills: self.fills,
            borders: self.borders,
            styles: self.styles,
            formats: format_bytes(self.formats@),
            highest: self.highest,
        }
    }
}

/// Reads how many records a section of a style sheet has.
fn read_count(xml: &str, tag: &str) -> (count: u32)
    ensures
        count == count_of(utf8(xml@), utf8(tag@)),
{
    let bytes = xml.as_bytes();
    match find_section(bytes, tag.as_bytes()) {
        Some(place) => {
            let counted = find_count(bytes, &place);
            read_section_count(xml, tag, &place, counted)
        },
        None => 0,
    }
}

/// Gathers the custom number formats among the events of a style sheet,
/// and the highest id among them; see [`custom_formats`] and [`highest_id`].
pub fn read_formats(events: &[XmlEvent]) -> (result: (Vec<(String, u32)>, u32))
    ensures
        format_bytes(result.0@) == custom_formats(models(events@)),
        result.1 == highest_id(custom_formats(models(events@))),
{
    let ghost all = models(events@);
    let mut formats: Vec<(String, u32)> = Vec::new();
    let mut highest: u32 = 163;
    let mut i: usize = 0;
    assert(all.subrange(0, 0) =~= Seq::<EventModel>::empty());
    assert(format_bytes(formats@) =~= Seq::<(Seq<u8>, u32)>::empty());
    while i < events.len()
        invariant
            i <= events.len(),
            all == models(events@),
            format_bytes(formats@) == custom_formats(all.subrange(0, i as int)),
            highest == highest_id(custom_formats(all.subrange(0, i as int))),
        decreases events.len() - i,
    {
        let ghost next = all.subrange(0, i + 1);
        assert(next.drop_last() =~= all.subrange(0, i as int));
        assert(next.last() == events@[i as int]@);
        let ev = &events[i];
        let is_tag = match ev.kind {
            EventKind::Start => true,
            EventKind::Empty => true,
            _ => false,
        };
        if is_tag && tag_is(ev.content.as_slice(), "numFmt") {
            let id = read_number(ev.content.as_slice(), "numFmtId");
            let code = match attr_value(ev.content.as_slice(), "formatCode") {
                Some(c) => c,
                None => {
                    let none = String::new();
                    assert(utf8(none@) =~= Seq::<u8>::empty());
                    none
                },
            };
            let ghost before = format_bytes(formats@);
            formats.push((code, id));
            assert(format_bytes(formats@) =~= before.push((utf8(code@), id)));
            assert(custom_formats(next).drop_last() =~= before);
            if id > highest {
                highest = id;
            }
        }
        i += 1;
    }
    assert(all.subrange(0, events.len() as int) =~= all);
    (formats, highest)
}

/// Finds the id of the first of the formats with the given code.
fn find_format_id(formats: &Vec<(String, u32)>, code: &[u8]) -> (found: Option<u32>)
    ensures
        found == known_format(format_bytes(formats@), code@),
{
    let ghost all = format_bytes(formats@);
    let mut i: usize = 0;
    assert(all.subrange(0, 0) =~= Seq::<(Seq<u8>, u32)>::empty());
    while i < formats.len()
        invariant
            i <= formats.len(),
            all == format_bytes(formats@),
            known_format(all.subrange(0, i as int), code@).is_none(),
        decreases formats.len() - i,
    {
        let ghost next = all.subrange(0, i + 1);
        assert(next.drop_last() =~= all.subrange(0, i as int));
        assert(next.last() == all[i as int]);
        if crate::text::bytes_eq(formats[i].0.as_str().as_bytes(), code) {
            proof {
                lemma_known_format_stays(all, code@, i + 1);
            }
            return Some(formats[i].1);
        }
        i += 1;
    }
    assert(all.subrange(0, formats.len() as int) =~= all);
    None
}

/// A format that is found among the first formats is found among all.
proof fn lemma_known_format_stays(formats: Seq<(Seq<u8>, u32)>, code: Seq<u8>, len: int)
    requires
        0 <= len <= formats.len(),
        known_format(formats.subrange(0, len), code).is_some(),
    ensures
        known_format(formats, code) == known_format(formats.subrange(0, len), code),
    decreases formats.len() - len,
{
    if len < formats.len() {
        let next = formats.subrange(0, len + 1);
        assert(next.drop_last() =~= formats.subrange(0, len));
        lemma_known_format_stays(formats, code, len + 1);
    } else {
        assert(formats.subrange(0, len) =~= formats);
    }
}

/// Counts one more, where a number is left.
fn count_up(count: u32) -> (next: u32)
    ensures
        next == one_more(count),
{
    if count < 0xffff_ffff {
        count + 1
    } else {
        count
    }
}

impl StyleCatalog {
    /// Reads the catalog of a style sheet, and tells whether the parser
    /// accepts all of the sheet.
    fn read_all(xml: &str) -> (result: (StyleCatalog, bool))
        ensures
            result.0@ == catalog_of(utf8(xml@)),
            result.1 == crate::xml::accepted(document_events(utf8(xml@))),
    {
        let (events, whole) = read_accepted(xml);
        let (formats, highest) = read_formats(events.as_slice());
        (
            StyleCatalog {
                text: xml.to_owned(),
                fonts: read_count(xml, "fonts"),
                fills: read_count(xml, "fills"),
                borders: read_count(xml, "borders"),
                styles: read_count(xml, "cellXfs"),
                formats,
                highest,
            },
            whole,
        )
    }

    /// Reads the catalog of a style sheet; see [`catalog_of`].  Of a sheet
    /// that the parser rejects it reads what it can.
    pub fn read(xml: &str) -> (catalog: StyleCatalog)
        ensures
            catalog@ == catalog_of(utf8(xml@)),
    {
        let (catalog, _) = StyleCatalog::read_all(xml);
        catalog
    }

    /// Reads the catalog of a style sheet that the parser accepts.
    pub fn read_whole(xml: &str) -> (catalog: Option<StyleCatalog>)
        ensures
            match catalog {
                Some(c) => crate::xml::accepted(document_events(utf8(xml@))) && c@ == catalog_of(
                    utf8(xml@),
                ),
                None => !crate::xml::accepted(document_events(utf8(xml@))),
            },
    {
        let (catalog, whole) = StyleCatalog::read_all(xml);
        if whole {
            Some(catalog)
        } else {
            None
        }
    }

    /// The text of the style sheet as it stands.
    pub fn xml(&self) -> (text: &str)
        ensures
            utf8(text@) == self@.text,
    {
        self.text.as_str()
    }

    /// Gives up the catalog for the text of its style sheet.
    pub fn into_xml(self) -> (text: String)
        ensures
            utf8(text@) == self@.text,
    {
        self.text
    }

    /// The index that the next style gets.
    pub fn next_style(&self) -> (index: u32)
        ensures
            index == self@.styles,
    {
        self.styles
    }

    /// Puts a record at the end of a section of the style sheet.
    fn add_record(&mut self, tag: &str, record: &str)
        ensures
            final(self)@ == (CatalogModel {
                text: injected(old(self)@.text, utf8(tag@), utf8(record@)).0,
                ..old(self)@
            }),
    {
        let (updated, _) = inject_into_section(self.text.as_str(), tag, record);
        self.text = updated;
    }

    /// Finds the id of a number format, or gives the format a new id and a
    /// record; see [`with_format`].
    pub fn number_format(&mut self, code: &str) -> (id: u32)
        ensures
            final(self)@ == with_format(old(self)@, utf8(code@)).0,
            id == with_format(old(self)@, utf8(code@)).1,
    {
        match builtin_num_fmt_id(code) {
            Some(id) => id,
            None => match find_format_id(&self.formats, code.as_bytes()) {
                Some(id) => id,
                None => {
                    if self.highest == 0xffff_ffff {
                        0
                    } else {
                        let id = self.highest + 1;
                        let ghost before = format_bytes(self.formats@);
                        self.text = create_num_fmt(self.text.as_str(), code, id);
                        self.formats.push((code.to_owned(), id));
                        assert(format_bytes(self.formats@) =~= before.push((utf8(code@), id)));
                        self.highest = id;
                        id
                    }
                },
            },
        }
    }

    /// Adds a style for the given format; see [`resolve_spec`].
    ///
    /// Returns the index of the new style.
    pub fn resolve(&mut self, spec: &FormatSpec) -> (index: u32)
        ensures
            final(self)@ == resolve_spec(old(self)@, *spec).0,
            index == resolve_spec(old(self)@, *spec).1,
    {
        reveal(resolve_spec);
        let font_id = match &spec.font {
            Some(font) => {
                let record = font_to_xml(font);
                let id = self.fonts;
                self.add_record("fonts", record.as_str());
                self.fonts = count_up(id);
                id
            },
            None => 0,
        };
        let fill_id = match &spec.fill {
            Some(fill) => {
                let record = fill_to_xml(fill);
                let id = self.fills;
                self.add_record("fills", record.as_str());
                self.fills = count_up(id);
                id
            },
            None => 0,
        };
        let border_id = match &spec.border {
            Some(border) => {
                let record = border_to_xml(border);
                let id = self.borders;
                self.add_record("borders", record.as_str());
                self.borders = count_up(id);
                id
            },
            None => 0,
        };
        let num_fmt_id = match &spec.number_format {
            Some(code) => self.number_format(code.as_str()),
            None => 0,
        };
        let record = xf_to_xml(
            font_id,
            fill_id,
            border_id,
            num_fmt_id,
            spec.alignment.as_ref(),
            spec.font.is_some(),
            spec.fill.is_some(),
            spec.border.is_some(),
            spec.number_format.is_some(),
        );
        let index = self.styles;
        self.add_record("cellXfs", record.as_str());
        self.styles = count_up(index);
        index
    }
}

/// Adds a style for the given format to a style sheet: reads the catalog
/// of the sheet and applies the format to it; see [`resolve_spec`].
///
/// Returns the new style sheet and the index of the new style.
pub fn apply_format_spec(xml: &str, spec: &FormatSpec) -> (result: (String, u32))
    ensures
        utf8(result.0@) == resolve_spec(catalog_of(utf8(xml@)), *spec).0.text,
        result.1 == resolve_spec(catalog_of(utf8(xml@)), *spec).1,
{
    let mut catalog = StyleCatalog::read(xml);
    let index = catalog.resolve(spec);
    (catalog.into_xml(), index)
}

// ---------------------------------------------------------------------------
// Reading style records
// ---------------------------------------------------------------------------
/// The style record that an `xf` element stands for.
pub open spec fn xf_entry_of(content: Seq<u8>) -> XfEntry {
    XfEntry {
        num_fmt_id: number_of(content, utf8("numFmtId"@)),
        font_id: number_of(content, utf8("fontId"@)),
        fill_id: number_of(content, utf8("fillId"@)),
        border_id: number_of(content, utf8("borderId"@)),
    }
}

/// Reads the style record of an `xf` element.  An index that is missing or
/// no number counts as 0.
pub fn parse_xf_entry(content: &[u8]) -> (entry: XfEntry)
    ensures
        entry == xf_entry_of(content@),
{
    XfEntry {
        num_fmt_id: read_number(content, "numFmtId"),
        font_id: read_number(content, "fontId"),
        fill_id: read_number(content, "fillId"),
        border_id: read_number(content, "borderId"),
    }
}

/// What a pass through a style sheet has gathered of its styles.
pub struct StyleScan {
    /// Whether the pass is inside the `cellXfs` section.
    pub inside: bool,
    /// The style records read so far.
    pub entries: Seq<XfEntry>,
}

/// The pass through the events of a style sheet that gathers the `xf`
/// records of the `cellXfs` section.
pub open spec fn style_scan(events: Seq<EventModel>) -> StyleScan
    decreases events.len(),
{
    if events.len() == 0 {
        StyleScan { inside: false, entries: Seq::empty() }
    } else {
        let before = style_scan(events.drop_last());
        let ev = events.last();
        if is_element(ev, utf8("cellXfs"@)) {
            StyleScan { inside: true, ..before }
        } else if is_element(ev, utf8("xf"@)) && before.inside {
            StyleScan { entries: before.entries.push(xf_entry_of(ev.content)), ..before }
        } else if ev.kind == EventKind::End && ev.content == utf8("cellXfs"@) {
            StyleScan { inside: false, ..before }
        } else {
            before
        }
    }
}

/// Gathers the style records among the events of a style sheet: the `xf`
/// elements of its `cellXfs` section, in order; see [`style_scan`].
pub fn xf_entries(events: &[XmlEvent]) -> (entries: Vec<XfEntry>)
    ensures
        entries@ == style_scan(models(events@)).entries,
{
    let ghost all = models(events@);
    let mut entries: Vec<XfEntry> = Vec::new();
    let mut inside = false;
    let mut i: usize = 0;
    assert(all.subrange(0, 0) =~= Seq::<EventModel>::empty());
    while i < events.len()
        invariant
            i <= events.len(),
            all == models(events@),
            style_scan(all.subrange(0, i as int)).inside == inside,
            style_scan(all.subrange(0, i as int)).entries == entries@,
        decreases events.len() - i,
    {
        let ghost next = all.subrange(0, i + 1);
        assert(next.drop_last() =~= all.subrange(0, i as int));
        assert(next.last() == events@[i as int]@);
        let ev = &events[i];
        match ev.kind {
            EventKind::Start | EventKind::Empty => {
                if tag_is(ev.content.as_slice(), "cellXfs") {
                    inside = true;
                } else if tag_is(ev.content.as_slice(), "xf") && inside {
                    entries.push(parse_xf_entry(ev.content.as_slice()));
                }
            },
            EventKind::End => {
                if crate::text::bytes_eq(ev.content.as_slice(), "cellXfs".as_bytes()) {
                    inside = false;
                }
            },
            _ => {},
        }
        i += 1;
    }
    assert(all.subrange(0, events.len() as int) =~= all);
    entries
}

/// Reads the style records of a style sheet; see [`xf_entries`].  Reading
/// ends where the parser rejects the sheet.
pub fn parse_cellxfs(xml: &str) -> (entries: Vec<XfEntry>)
    ensures
        entries@ == style_scan(accepted_events(document_events(utf8(xml@)))).entries,
{
    let (events, _) = read_accepted(xml);
    xf_entries(events.as_slice())
}

/// What a pass through a style sheet has found of one section: the first
/// element of the given name.
pub struct SectionScan {
    /// Whether the opening tag of the section has been met.
    pub opened: bool,
    /// Whether the section has ended.
    pub closed: bool,
    /// How many elements stand open inside the section.
    pub depth: nat,
    /// The number in the attribute `count` of the section, where it states
    /// one.
    pub stated: Option<u32>,
    /// How many records the section holds: the elements that stand directly
    /// inside it.
    pub records: nat,
    /// The position in the style sheet after the closing tag of the
    /// section, or 0.
    pub end: u64,
}

/// The number that the attribute `count` of a tag states, where it has one
/// that is a number.
pub open spec fn stated_count(content: Seq<u8>) -> Option<u32> {
    match attr_value_of(content, utf8("count"@)) {
        Some(v) => parsed_u32(v),
        None => None,
    }
}

/// A pass before it has met anything.
pub open spec fn scan_start() -> SectionScan {
    SectionScan { opened: false, closed: false, depth: 0, stated: None, records: 0, end: 0 }
}

/// What one event adds to a pass that looks for the section `tag`; `end` is
/// the position after the event.
///
/// The first element of that name is the section.  An element that opens
/// or stands directly inside the section is one of its records.  The
/// closing tag that matches the opening tag ends the section, and after
/// that nothing changes.
pub open spec fn scan_step(before: SectionScan, ev: EventModel, end: u64, tag: Seq<u8>) -> SectionScan {
    if before.closed {
        before
    } else if !before.opened {
        if is_element(ev, tag) {
            SectionScan {
                opened: true,
                closed: ev.kind == EventKind::Empty,
                stated: stated_count(ev.content),
                ..before
            }
        } else {
            before
        }
    } else {
        let records = if before.depth == 0 {
            before.records + 1
        } else {
            before.records
        };
        match ev.kind {
            EventKind::Start => SectionScan { depth: before.depth + 1, records, ..before },
            EventKind::Empty => SectionScan { records, ..before },
            EventKind::End => if before.depth == 0 {
                SectionScan { closed: true, end, ..before }
            } else {
                SectionScan { depth: (before.depth - 1) as nat, ..before }
            },
            _ => before,
        }
    }
}

/// The pass through the events of a style sheet that looks for the section
/// `tag`.  `ends` gives the position after each event; an event without one
/// counts as standing at 0.
pub open spec fn section_scan(events: Seq<EventModel>, ends: Seq<u64>, tag: Seq<u8>) -> SectionScan
    decreases events.len(),
{
    if events.len() == 0 {
        scan_start()
    } else {
        let at = events.len() - 1;
        scan_step(
            section_scan(events.drop_last(), ends, tag),
            events.last(),
            if at < ends.len() {
                ends[at]
            } else {
                0
            },
            tag,
        )
    }
}

/// How many records a pass has found the section to have: the number that
/// the section states, and else the number of records that it holds.
pub open spec fn scan_count(scan: SectionScan) -> u32 {
    match scan.stated {
        Some(n) => n,
        None => if scan.records <= u32::MAX {
            scan.records as u32
        } else {
            u32::MAX
        },
    }
}

/// Reads the number that the attribute `count` of a tag states.
fn read_stated(content: &[u8]) -> (stated: Option<u32>)
    ensures
        stated == stated_count(content@),
{
    match attr_value(content, "count") {
        Some(v) => parse_u32(v.as_str().as_bytes()),
        None => None,
    }
}

/// Finds among the events of a style sheet how many records a section has,
/// and where the section ends; see [`section_scan`].
///
/// Returns the number that the section states in its attribute `count`, or
/// else the number of records that it holds, and the position after the
/// closing tag of the section, which is 0 where the section does not close.
pub fn scan_section(events: &[XmlEvent], ends: &[u64], section_tag: &str) -> (result: (u32, u64))
    ensures
        result.0 == scan_count(section_scan(models(events@), ends@, utf8(section_tag@))),
        result.1 == section_scan(models(events@), ends@, utf8(section_tag@)).end,
{
    let ghost all = models(events@);
    let ghost tag = utf8(section_tag@);
    let mut opened = false;
    let mut closed = false;
    let mut depth: usize = 0;
    let mut stated: Option<u32> = None;
    let mut records: usize = 0;
    let mut end: u64 = 0;
    let mut i: usize = 0;
    assert(all.subrange(0, 0) =~= Seq::<EventModel>::empty());
    while i < events.len()
        invariant
            i <= events.len(),
            all == models(events@),
            tag == utf8(section_tag@),
            depth <= i,
            records <= i,
            section_scan(all.subrange(0, i as int), ends@, tag) == (SectionScan {
                opened,
                closed,
                depth: depth as nat,
                stated,
                records: records as nat,
                end,
            }),
        decreases events.len() - i,
    {
        let ghost next = all.subrange(0, i + 1);
        assert(next.drop_last() =~= all.subrange(0, i as int));
        assert(next.last() == events@[i as int]@);
        let ev = &events[i];
        let here: u64 = if i < ends.len() {
            ends[i]
        } else {
            0
        };
        if closed {
        } else if !opened {
            let is_tag = match ev.kind {
                EventKind::Start => true,
                EventKind::Empty => true,
                _ => false,
            };
            if is_tag && tag_is(ev.content.as_slice(), section_tag) {
                opened = true;
                closed = match ev.kind {
                    EventKind::Empty => true,
                    _ => false,
                };
                stated = read_stated(ev.content.as_slice());
            }
        } else {
            match ev.kind {
                EventKind::Start => {
                    if depth == 0 {
                        records = records + 1;
                    }
                    depth = depth + 1;
                },
                EventKind::Empty => {
                    if depth == 0 {
                        records = records + 1;
                    }
                },
                EventKind::End => {
                    if depth == 0 {
                        closed = true;
                        end = here;
                    } else {
                        depth = depth - 1;
                    }
                },
                _ => {},
            }
        }
        i += 1;
    }
    assert(all.subrange(0, events.len() as int) =~= all);
    let count: u32 = match stated {
        Some(n) => n,
        None => if records <= 0xffff_ffff {
            records as u32
        } else {
            0xffff_ffff
        },
    };
    (count, end)
}

/// How many records the section `tag` has in the style sheet as the parser
/// reads it, up to where the parser rejects the sheet.
pub open spec fn scanned_count(xml: Seq<u8>, tag: Seq<u8>) -> u32 {
    scan_count(section_scan(accepted_events(document_events(xml)), accepted_ends(xml), tag))
}

/// Finds how many records a section of a style sheet has, and where the
/// section ends; see [`scan_section`].  Reading ends where the parser
/// rejects the sheet.
pub fn count_section_elements(xml: &str, section_tag: &str) -> (result: (u32, u64))
    ensures
        result.0 == scanned_count(utf8(xml@), utf8(section_tag@)),
        result.1 == section_scan(
            accepted_events(document_events(utf8(xml@))),
            accepted_ends(utf8(xml@)),
            utf8(section_tag@),
        ).end,
{
    let (events, ends, _) = read_accepted_with_ends(xml);
    scan_section(events.as_slice(), ends.as_slice(), section_tag)
}

} // verus!
