//! The patcher: a queue of changes to the cells of a package, and the plan
//! that turns the queue into new text for the parts that change.
//!
//! The patcher never touches a file.  Its caller reads the parts that the
//! patcher asks for and writes the archive; the patcher says which parts
//! change and what their new text is.

use crate::cell_ref::{a1_to_row_col, strict_cell, RefError};
use crate::package_index::{find_key, position, PackageIndex, Pairs};
use crate::sheet_patcher::{
    clone_patch, patch_models, patch_worksheet, worksheet_patched, CellPatch, CellValue, Decimal,
    PatchError, PatchModel, ValueModel,
};
use crate::styles::{
    catalog_of, resolve_spec, AlignmentSpec, BorderSideSpec, BorderSpec, CatalogModel, FillSpec,
    FontSpec, FormatSpec, StyleCatalog,
};
use crate::text::{
    bytes_eq, into_text, lemma_boundary_after_ascii, lemma_boundary_at, push_piece, push_text,
    utf8,
};
use vstd::prelude::*;
use vstd::utf8::{encode_utf8_valid_utf8, valid_utf8};

verus! {

// ---------------------------------------------------------------------------
// Values as callers give them
// ---------------------------------------------------------------------------
/// Why a change was not taken into the queue.
#[derive(Debug, Clone, Copy, PartialEq, Eq, Structural)]
pub enum InputError {
    /// The type of the value is none of those that the patcher knows.
    UnknownType,
    /// The value is not of the kind that its type asks for.
    WrongValue,
    /// The cell reference was refused.
    CellReference(RefError),
}

/// What a caller gives as the value of a cell, beside its type.
#[derive(Debug, Clone)]
pub enum Payload {
    Text(String),
    Number(Decimal),
    Boolean(bool),
}

/// The kinds of value that a type can ask for.
#[derive(Debug, Clone, Copy, PartialEq, Eq, Structural)]
pub enum ValueKind {
    Blank,
    Text,
    Number,
    Boolean,
    Formula,
}

/// The kind of value that a type asks for: `blank`; `string` or `str`;
/// `number`, `float`, `int` or `integer`; `boolean` or `bool`; `formula`.
pub open spec fn kind_of_type(type_tag: Seq<u8>) -> Option<ValueKind> {
    if type_tag == utf8("blank"@) {
        Some(ValueKind::Blank)
    } else if type_tag == utf8("string"@) || type_tag == utf8("str"@) {
        Some(ValueKind::Text)
    } else if type_tag == utf8("number"@) || type_tag == utf8("float"@) || type_tag == utf8(
        "int"@,
    ) || type_tag == utf8("integer"@) {
        Some(ValueKind::Number)
    } else if type_tag == utf8("boolean"@) || type_tag == utf8("bool"@) {
        Some(ValueKind::Boolean)
    } else if type_tag == utf8("formula"@) {
        Some(ValueKind::Formula)
    } else {
        None
    }
}

/// A formula without the `=` that it may begin with.
pub open spec fn formula_text(text: Seq<u8>) -> Seq<u8> {
    if text.len() > 0 && text[0] == 61 {
        text.drop_first()
    } else {
        text
    }
}

/// The value of a cell that a type and a payload stand for.  A missing
/// payload stands for the empty string, for 0 and for false.
pub open spec fn payload_value(type_tag: Seq<u8>, payload: Option<Payload>) -> Result<
    ValueModel,
    InputError,
> {
    match kind_of_type(type_tag) {
        None => Err(InputError::UnknownType),
        Some(ValueKind::Blank) => Ok(ValueModel::Blank),
        Some(ValueKind::Text) => match payload {
            None => Ok(ValueModel::Text(Seq::empty())),
            Some(Payload::Text(s)) => Ok(ValueModel::Text(utf8(s@))),
            _ => Err(InputError::WrongValue),
        },
        Some(ValueKind::Number) => match payload {
            None => Ok(ValueModel::Number { mantissa: 0, exponent: 0 }),
            Some(Payload::Number(n)) => Ok(
                ValueModel::Number { mantissa: n.mantissa as int, exponent: n.exponent as int },
            ),
            _ => Err(InputError::WrongValue),
        },
        Some(ValueKind::Boolean) => match payload {
            None => Ok(ValueModel::Boolean(false)),
            Some(Payload::Boolean(b)) => Ok(ValueModel::Boolean(b)),
            _ => Err(InputError::WrongValue),
        },
        Some(ValueKind::Formula) => match payload {
            None => Ok(ValueModel::Formula(Seq::empty())),
            Some(Payload::Text(s)) => Ok(ValueModel::Formula(formula_text(utf8(s@)))),
            _ => Err(InputError::WrongValue),
        },
    }
}

/// Whether a type is the given one.
fn type_is(type_tag: &[u8], known: &str) -> (same: bool)
    ensures
        same == (type_tag@ == utf8(known@)),
{
    bytes_eq(type_tag, known.as_bytes())
}

/// Finds the kind of value that a type asks for.
pub fn value_kind(type_tag: &str) -> (kind: Option<ValueKind>)
    ensures
        kind == kind_of_type(utf8(type_tag@)),
{
    let t = type_tag.as_bytes();
    if type_is(t, "blank") {
        Some(ValueKind::Blank)
    } else if type_is(t, "string") || type_is(t, "str") {
        Some(ValueKind::Text)
    } else if type_is(t, "number") || type_is(t, "float") || type_is(t, "int") || type_is(
        t,
        "integer",
    ) {
        Some(ValueKind::Number)
    } else if type_is(t, "boolean") || type_is(t, "bool") {
        Some(ValueKind::Boolean)
    } else if type_is(t, "formula") {
        Some(ValueKind::Formula)
    } else {
        None
    }
}

/// Takes the `=` off the front of a formula, if it has one.
pub fn strip_leading_equal(formula: String) -> (stripped: String)
    ensures
        utf8(stripped@) == formula_text(utf8(formula@)),
{
    let bytes = formula.as_str().as_bytes();
    if bytes.len() > 0 && bytes[0] == 61 {
        proof {
            encode_utf8_valid_utf8(formula@);
            lemma_boundary_after_ascii(bytes@, 0);
            lemma_boundary_at(bytes@, bytes@.len() as int);
        }
        let mut out: Vec<u8> = Vec::new();
        push_piece(&mut out, bytes, 1, bytes.len());
        assert(out@ =~= bytes@.drop_first());
        into_text(out)
    } else {
        formula
    }
}

/// Turns a type and a payload into the value of a cell; see
/// [`payload_value`].
pub fn cell_value_from_payload(type_tag: &str, payload: Option<Payload>) -> (result: Result<
    CellValue,
    InputError,
>)
    ensures
        match result {
            Ok(value) => payload_value(utf8(type_tag@), payload) == Ok::<ValueModel, InputError>(
                value@,
            ),
            Err(e) => payload_value(utf8(type_tag@), payload) == Err::<ValueModel, InputError>(e),
        },
{
    let kind = match value_kind(type_tag) {
        Some(kind) => kind,
        None => {
            return Err(InputError::UnknownType);
        },
    };
    match kind {
        ValueKind::Blank => Ok(CellValue::Blank),
        ValueKind::Text => match payload {
            None => {
                let none = String::new();
                assert(utf8(none@) =~= Seq::<u8>::empty());
                Ok(CellValue::String(none))
            },
            Some(Payload::Text(s)) => Ok(CellValue::String(s)),
            _ => Err(InputError::WrongValue),
        },
        ValueKind::Number => match payload {
            None => Ok(CellValue::Number(Decimal { mantissa: 0, exponent: 0 })),
            Some(Payload::Number(n)) => Ok(CellValue::Number(n)),
            _ => Err(InputError::WrongValue),
        },
        ValueKind::Boolean => match payload {
            None => Ok(CellValue::Boolean(false)),
            Some(Payload::Boolean(b)) => Ok(CellValue::Boolean(b)),
            _ => Err(InputError::WrongValue),
        },
        ValueKind::Formula => match payload {
            None => {
                let none = String::new();
                assert(utf8(none@) =~= Seq::<u8>::empty());
                Ok(CellValue::Formula(none))
            },
            Some(Payload::Text(s)) => Ok(CellValue::Formula(strip_leading_equal(s))),
            _ => Err(InputError::WrongValue),
        },
    }
}

// ---------------------------------------------------------------------------
// Formats as callers give them
// ---------------------------------------------------------------------------
/// How many `#` a colour begins with.
pub open spec fn leading_hashes(color: Seq<u8>) -> int
    decreases color.len(),
{
    if color.len() > 0 && color[0] == 35 {
        1 + leading_hashes(color.drop_first())
    } else {
        0
    }
}

/// A byte with a small ASCII letter made a capital.
pub open spec fn upper(b: u8) -> u8 {
    if 97 <= b <= 122 {
        (b - 32) as u8
    } else {
        b
    }
}

/// ASCII text in capitals; other text as it is.
pub open spec fn upper_case(text: Seq<u8>) -> Seq<u8> {
    if crate::text::all_ascii(text) {
        Seq::new(text.len(), |i: int| upper(text[i]))
    } else {
        text
    }
}

/// A colour as `AARRGGBB`, from `#RRGGBB`, `RRGGBB` or `AARRGGBB`: the
/// leading `#` goes, six digits get the opaque alpha `FF` in front, and six
/// or eight digits are put in capitals.  Anything else gets `FF` in front
/// and stays as it is.
pub open spec fn argb(color: Seq<u8>) -> Seq<u8> {
    let hex = color.subrange(leading_hashes(color), color.len() as int);
    if hex.len() == 6 {
        utf8("FF"@) + upper_case(hex)
    } else if hex.len() == 8 {
        upper_case(hex)
    } else {
        utf8("FF"@) + hex
    }
}

proof fn lemma_leading_hashes(color: Seq<u8>, count: int)
    requires
        0 <= count <= color.len(),
        forall|i: int| 0 <= i < count ==> color[i] == 35,
        count < color.len() ==> color[count] != 35,
    ensures
        leading_hashes(color) == count,
    decreases color.len(),
{
    if count > 0 {
        let rest = color.drop_first();
        assert forall|i: int| 0 <= i < count - 1 implies rest[i] == 35 by {
            assert(rest[i] == color[i + 1]);
        }
        lemma_leading_hashes(rest, count - 1);
    }
}

/// Appends text in capitals to `out`; see [`upper_case`].
fn push_upper(out: &mut Vec<u8>, text: &[u8])
    requires
        valid_utf8(text@),
    ensures
        final(out)@ == old(out)@ + upper_case(text@),
        valid_utf8(old(out)@) ==> valid_utf8(final(out)@),
{
    let mut ascii = true;
    let ghost mut high: int = 0;
    let mut i: usize = 0;
    while i < text.len()
        invariant
            i <= text.len(),
            ascii ==> forall|k: int| 0 <= k < i ==> #[trigger] text@[k] < 0x80,
            !ascii ==> 0 <= high < i && text@[high] >= 0x80,
        decreases text.len() - i,
    {
        if text[i] >= 0x80 {
            ascii = false;
            proof {
                high = i as int;
            }
        }
        i += 1;
    }
    if !ascii {
        crate::text::push_bytes(out, text);
        return ;
    }
    let mut upper_text: Vec<u8> = Vec::new();
    let mut j: usize = 0;
    while j < text.len()
        invariant
            j <= text.len(),
            crate::text::all_ascii(text@),
            upper_text@.len() == j,
            forall|k: int| 0 <= k < j ==> upper_text@[k] == upper(text@[k]),
        decreases text.len() - j,
    {
        let b = text[j];
        assert(b < 0x80);
        if 97 <= b && b <= 122 {
            upper_text.push(b - 32);
        } else {
            upper_text.push(b);
        }
        j += 1;
    }
    assert(upper_text@ =~= upper_case(text@));
    proof {
        assert(crate::text::all_ascii(upper_text@)) by {
            assert forall|k: int| 0 <= k < upper_text@.len() implies #[trigger] upper_text@[k]
                < 0x80 by {
                assert(text@[k] < 0x80);
            }
        }
        crate::text::lemma_ascii_is_utf8(upper_text@);
    }
    crate::text::push_bytes(out, upper_text.as_slice());
}

/// Brings a colour into the form `AARRGGBB`; see [`argb`].
pub fn normalize_color(color: &str) -> (out: String)
    ensures
        utf8(out@) == argb(utf8(color@)),
{
    let bytes = color.as_bytes();
    proof {
        encode_utf8_valid_utf8(color@);
        lemma_boundary_at(bytes@, 0);
        lemma_boundary_at(bytes@, bytes@.len() as int);
    }
    let mut start: usize = 0;
    while start < bytes.len() && bytes[start] == 35
        invariant
            start <= bytes.len(),
            forall|i: int| 0 <= i < start ==> bytes@[i] == 35,
            valid_utf8(bytes@),
            vstd::utf8::is_char_boundary(bytes@, start as int),
        decreases bytes.len() - start,
    {
        proof {
            lemma_boundary_after_ascii(bytes@, start as int);
        }
        start += 1;
    }
    proof {
        lemma_leading_hashes(bytes@, start as int);
        crate::text::lemma_piece_is_utf8(bytes@, start as int, bytes@.len() as int);
    }
    let hex = vstd::slice::slice_subrange(bytes, start, bytes.len());
    let mut out: Vec<u8> = Vec::new();
    if hex.len() == 6 {
        push_text(&mut out, "FF");
        push_upper(&mut out, hex);
    } else if hex.len() == 8 {
        push_upper(&mut out, hex);
    } else {
        push_text(&mut out, "FF");
        crate::text::push_bytes(&mut out, hex);
    }
    assert(out@ =~= argb(utf8(color@)));
    into_text(out)
}

/// The fields of a format that a caller may give.  Some fields go by two
/// names; of those the first one counts where both are given.
#[derive(Debug, Clone, Default)]
pub struct FormatFields {
    pub bold: Option<bool>,
    pub italic: Option<bool>,
    pub underline: Option<bool>,
    pub strikethrough: Option<bool>,
    pub font_name: Option<String>,
    pub font_size: Option<u32>,
    /// The colour of the font, as `#RRGGBB`.
    pub font_color: Option<String>,
    /// The colour of the background, as `#RRGGBB`.
    pub bg_color: Option<String>,
    pub number_format: Option<String>,
    pub horizontal: Option<String>,
    /// Another name for `horizontal`.
    pub h_align: Option<String>,
    pub vertical: Option<String>,
    /// Another name for `vertical`.
    pub v_align: Option<String>,
    pub wrap_text: Option<bool>,
    /// Another name for `wrap_text`.
    pub wrap: Option<bool>,
    pub indent: Option<u32>,
    pub text_rotation: Option<u32>,
    /// Another name for `text_rotation`.
    pub rotation: Option<u32>,
}

/// Whether one of the fields of a font is given.
pub open spec fn has_font(fields: FormatFields) -> bool {
    fields.bold.is_some() || fields.italic.is_some() || fields.underline.is_some()
        || fields.strikethrough.is_some() || fields.font_name.is_some()
        || fields.font_size.is_some() || fields.font_color.is_some()
}

/// Whether one of the fields of an alignment is given.
pub open spec fn has_alignment(fields: FormatFields) -> bool {
    fields.horizontal.is_some() || fields.h_align.is_some() || fields.vertical.is_some()
        || fields.v_align.is_some() || fields.wrap_text.is_some() || fields.wrap.is_some()
        || fields.indent.is_some() || fields.text_rotation.is_some() || fields.rotation.is_some()
}

/// A flag that is not given is not set.
pub open spec fn flag_of(field: Option<bool>) -> bool {
    match field {
        Some(b) => b,
        None => false,
    }
}

/// A number that is not given is 0.
pub open spec fn number_or_zero(field: Option<u32>) -> u32 {
    match field {
        Some(n) => n,
        None => 0,
    }
}

/// The first of two fields that is given.
pub open spec fn first_of<T>(first: Option<T>, second: Option<T>) -> Option<T> {
    match first {
        Some(v) => Some(v),
        None => second,
    }
}

/// The bytes of an optional string.
pub open spec fn optional_bytes(text: Option<String>) -> Option<Seq<u8>> {
    match text {
        Some(s) => Some(utf8(s@)),
        None => None,
    }
}

/// An optional colour as `AARRGGBB`.
pub open spec fn optional_argb(color: Option<String>) -> Option<Seq<u8>> {
    match color {
        Some(c) => Some(argb(utf8(c@))),
        None => None,
    }
}

/// Brings an optional colour into the form `AARRGGBB`.
fn normalize_optional(color: &Option<String>) -> (out: Option<String>)
    ensures
        optional_bytes(out) == optional_argb(*color),
{
    match color {
        Some(c) => Some(normalize_color(c.as_str())),
        None => None,
    }
}

/// Makes a format of the fields that a caller gives.
///
/// The format has a font if one of the fields of a font is given, a solid
/// fill if a background colour is given, and an alignment if one of the
/// fields of an alignment is given; it never has a border.  Colours are
/// brought into the form `AARRGGBB`.
pub fn dict_to_format_spec(fields: FormatFields) -> (spec: FormatSpec)
    ensures
        spec.font.is_some() == has_font(fields),
        spec.font matches Some(font) ==> {
            &&& font.bold == flag_of(fields.bold)
            &&& font.italic == flag_of(fields.italic)
            &&& font.underline == flag_of(fields.underline)
            &&& font.strikethrough == flag_of(fields.strikethrough)
            &&& font.name == fields.font_name
            &&& font.size == fields.font_size
            &&& optional_bytes(font.color_rgb) == optional_argb(fields.font_color)
        },
        spec.fill.is_some() == fields.bg_color.is_some(),
        spec.fill matches Some(fill) ==> {
            &&& utf8(fill.pattern_type@) == utf8("solid"@)
            &&& optional_bytes(fill.fg_color_rgb) == optional_argb(fields.bg_color)
        },
        spec.border.is_none(),
        spec.number_format == fields.number_format,
        spec.alignment.is_some() == has_alignment(fields),
        spec.alignment matches Some(align) ==> {
            &&& align.horizontal == first_of(fields.horizontal, fields.h_align)
            &&& align.vertical == first_of(fields.vertical, fields.v_align)
            &&& align.wrap_text == flag_of(first_of(fields.wrap_text, fields.wrap))
            &&& align.indent == number_or_zero(fields.indent)
            &&& align.text_rotation == number_or_zero(first_of(fields.text_rotation, fields.rotation))
        },
{
    let font_color = normalize_optional(&fields.font_color);
    let fill_color = normalize_optional(&fields.bg_color);
    let font = if fields.bold.is_some() || fields.italic.is_some() || fields.underline.is_some()
        || fields.strikethrough.is_some() || fields.font_name.is_some()
        || fields.font_size.is_some() || fields.font_color.is_some() {
        Some(
            FontSpec {
                bold: unwrap_flag(fields.bold),
                italic: unwrap_flag(fields.italic),
                underline: unwrap_flag(fields.underline),
                strikethrough: unwrap_flag(fields.strikethrough),
                name: fields.font_name,
                size: fields.font_size,
                color_rgb: font_color,
            },
        )
    } else {
        None
    };
    let fill = if fields.bg_color.is_some() {
        Some(FillSpec { pattern_type: "solid".to_owned(), fg_color_rgb: fill_color })
    } else {
        None
    };
    let alignment = if fields.horizontal.is_some() || fields.h_align.is_some()
        || fields.vertical.is_some() || fields.v_align.is_some() || fields.wrap_text.is_some()
        || fields.wrap.is_some() || fields.indent.is_some() || fields.text_rotation.is_some()
        || fields.rotation.is_some() {
        let wrap = match fields.wrap_text {
            Some(b) => Some(b),
            None => fields.wrap,
        };
        let rotation = match fields.text_rotation {
            Some(n) => Some(n),
            None => fields.rotation,
        };
        Some(
            AlignmentSpec {
                horizontal: match fields.horizontal {
                    Some(h) => Some(h),
                    None => fields.h_align,
                },
                vertical: match fields.vertical {
                    Some(v) => Some(v),
                    None => fields.v_align,
                },
                wrap_text: unwrap_flag(wrap),
                indent: unwrap_number(fields.indent),
                text_rotation: unwrap_number(rotation),
            },
        )
    } else {
        None
    };
    FormatSpec { font, fill, border: None, alignment, number_format: fields.number_format }
}

fn unwrap_flag(field: Option<bool>) -> (b: bool)
    ensures
        b == flag_of(field),
{
    match field {
        Some(b) => b,
        None => false,
    }
}

fn unwrap_number(field: Option<u32>) -> (n: u32)
    ensures
        n == number_or_zero(field),
{
    match field {
        Some(n) => n,
        None => 0,
    }
}

/// One edge of a border as a caller gives it.
#[derive(Debug, Clone, Default)]
pub struct BorderSideFields {
    pub style: Option<String>,
    /// The colour of the line, as `#RRGGBB`.
    pub color: Option<String>,
}

/// The edges of a border that a caller may give.
#[derive(Debug, Clone, Default)]
pub struct BorderFields {
    pub top: Option<BorderSideFields>,
    pub bottom: Option<BorderSideFields>,
    pub left: Option<BorderSideFields>,
    pub right: Option<BorderSideFields>,
}

/// Whether an edge of a border is what a caller gave for it: the style as
/// it is and the colour as `AARRGGBB`, and neither where the edge is not
/// given.
pub open spec fn side_is(side: BorderSideSpec, fields: Option<BorderSideFields>) -> bool {
    match fields {
        Some(f) => side.style == f.style && optional_bytes(side.color_rgb) == optional_argb(
            f.color,
        ),
        None => side.style.is_none() && side.color_rgb.is_none(),
    }
}

/// Makes one edge of a border.
fn side_from_fields(fields: Option<BorderSideFields>) -> (side: BorderSideSpec)
    ensures
        side_is(side, fields),
{
    match fields {
        Some(f) => {
            let color = normalize_optional(&f.color);
            BorderSideSpec { style: f.style, color_rgb: color }
        },
        None => BorderSideSpec { style: None, color_rgb: None },
    }
}

/// Makes a border of the edges that a caller gives.
pub fn dict_to_border_spec(fields: BorderFields) -> (border: BorderSpec)
    ensures
        side_is(border.left, fields.left),
        side_is(border.right, fields.right),
        side_is(border.top, fields.top),
        side_is(border.bottom, fields.bottom),
{
    BorderSpec {
        left: side_from_fields(fields.left),
        right: side_from_fields(fields.right),
        top: side_from_fields(fields.top),
        bottom: side_from_fields(fields.bottom),
    }
}

/// The smallest style sheet: one font, the two fills that every package
/// has, one border and one style.
pub open spec fn minimal_styles() -> Seq<char> {
    "<?xml version=\"1.0\" encoding=\"UTF-8\" standalone=\"yes\"?>\n<styleSheet xmlns=\"http://schemas.openxmlformats.org/spreadsheetml/2006/main\">\n<fonts count=\"1\"><font><sz val=\"11\"/><name val=\"Calibri\"/></font></fonts>\n<fills count=\"2\"><fill><patternFill patternType=\"none\"/></fill><fill><patternFill patternType=\"gray125\"/></fill></fills>\n<borders count=\"1\"><border><left/><right/><top/><bottom/><diagonal/></border></borders>\n<cellXfs count=\"1\"><xf numFmtId=\"0\" fontId=\"0\" fillId=\"0\" borderId=\"0\"/></cellXfs>\n</styleSheet>"@
}

/// Writes the style sheet that stands in for a missing one.
pub fn minimal_styles_xml() -> (xml: String)
    ensures
        xml@ == minimal_styles(),
{
    "<?xml version=\"1.0\" encoding=\"UTF-8\" standalone=\"yes\"?>\n<styleSheet xmlns=\"http://schemas.openxmlformats.org/spreadsheetml/2006/main\">\n<fonts count=\"1\"><font><sz val=\"11\"/><name val=\"Calibri\"/></font></fonts>\n<fills count=\"2\"><fill><patternFill patternType=\"none\"/></fill><fill><patternFill patternType=\"gray125\"/></fill></fills>\n<borders count=\"1\"><border><left/><right/><top/><bottom/><diagonal/></border></borders>\n<cellXfs count=\"1\"><xf numFmtId=\"0\" fontId=\"0\" fillId=\"0\" borderId=\"0\"/></cellXfs>\n</styleSheet>".to_owned()
}

/// Copies an optional string.
fn clone_optional(text: &Option<String>) -> (copy: Option<String>)
    ensures
        copy == *text,
{
    match text {
        Some(s) => Some(s.clone()),
        None => None,
    }
}

/// Copies a format.
pub fn clone_format(spec: &FormatSpec) -> (copy: FormatSpec)
    ensures
        copy == *spec,
{
    let font = match &spec.font {
        Some(f) => Some(
            FontSpec {
                bold: f.bold,
                italic: f.italic,
                underline: f.underline,
                strikethrough: f.strikethrough,
                name: clone_optional(&f.name),
                size: f.size,
                color_rgb: clone_optional(&f.color_rgb),
            },
        ),
        None => None,
    };
    let fill = match &spec.fill {
        Some(f) => Some(
            FillSpec {
                pattern_type: f.pattern_type.clone(),
                fg_color_rgb: clone_optional(&f.fg_color_rgb),
            },
        ),
        None => None,
    };
    let border = match &spec.border {
        Some(b) => Some(
            BorderSpec {
                left: clone_side(&b.left),
                right: clone_side(&b.right),
                top: clone_side(&b.top),
                bottom: clone_side(&b.bottom),
            },
        ),
        None => None,
    };
    let alignment = match &spec.alignment {
        Some(a) => Some(
            AlignmentSpec {
                horizontal: clone_optional(&a.horizontal),
                vertical: clone_optional(&a.vertical),
                wrap_text: a.wrap_text,
                indent: a.indent,
                text_rotation: a.text_rotation,
            },
        ),
        None => None,
    };
    FormatSpec { font, fill, border, alignment, number_format: clone_optional(&spec.number_format) }
}

/// Copies one edge of a border.
fn clone_side(side: &BorderSideSpec) -> (copy: BorderSideSpec)
    ensures
        copy == *side,
{
    BorderSideSpec { style: clone_optional(&side.style), color_rgb: clone_optional(&side.color_rgb) }
}

// ---------------------------------------------------------------------------
// The queue
// ---------------------------------------------------------------------------
/// The key of a queued change: the name of the sheet and the reference of
/// the cell, both as the caller wrote them.
pub type Key = (Seq<u8>, Seq<u8>);

/// A queued value.
#[derive(Debug, Clone)]
pub struct ValueEntry {
    pub sheet: String,
    pub cell: String,
    pub patch: CellPatch,
}

/// A queued format.
#[derive(Debug, Clone)]
pub struct FormatEntry {
    pub sheet: String,
    pub cell: String,
    /// The row of the cell, counted from 1.
    pub row: u32,
    /// The column of the cell, counted from 1.
    pub col: u32,
    pub spec: FormatSpec,
}

/// The mathematical value of a [`ValueEntry`].
pub struct ValueModelEntry {
    pub key: Key,
    pub patch: PatchModel,
}

/// The mathematical value of a [`FormatEntry`].
pub struct FormatModelEntry {
    pub key: Key,
    pub row: u32,
    pub col: u32,
    pub spec: FormatSpec,
}

impl View for ValueEntry {
    type V = ValueModelEntry;

    open spec fn view(&self) -> ValueModelEntry {
        ValueModelEntry { key: (utf8(self.sheet@), utf8(self.cell@)), patch: self.patch@ }
    }
}

impl View for FormatEntry {
    type V = FormatModelEntry;

    open spec fn view(&self) -> FormatModelEntry {
        FormatModelEntry {
            key: (utf8(self.sheet@), utf8(self.cell@)),
            row: self.row,
            col: self.col,
            spec: self.spec,
        }
    }
}

/// The models of queued values.
pub open spec fn value_models(entries: Seq<ValueEntry>) -> Seq<ValueModelEntry> {
    Seq::new(entries.len(), |i: int| entries[i]@)
}

/// The models of queued formats.
pub open spec fn format_models(entries: Seq<FormatEntry>) -> Seq<FormatModelEntry> {
    Seq::new(entries.len(), |i: int| entries[i]@)
}

/// Where the first of the keys stands that is the given one.
pub open spec fn slot(keys: Seq<Key>, key: Key) -> Option<int>
    decreases keys.len(),
{
    if keys.len() == 0 {
        None
    } else {
        match slot(keys.drop_last(), key) {
            Some(at) => Some(at),
            None => if keys.last() == key {
                Some(keys.len() - 1)
            } else {
                None
            },
        }
    }
}

/// Whether no key occurs twice.
pub open spec fn one_each(keys: Seq<Key>) -> bool {
    forall|i: int, j: int| 0 <= i < j < keys.len() ==> #[trigger] keys[i] != #[trigger] keys[j]
}

/// The keys of queued values.
pub open spec fn value_keys(values: Seq<ValueModelEntry>) -> Seq<Key> {
    Seq::new(values.len(), |i: int| values[i].key)
}

/// The keys of queued formats.
pub open spec fn format_keys(formats: Seq<FormatModelEntry>) -> Seq<Key> {
    Seq::new(formats.len(), |i: int| formats[i].key)
}

/// Queued values with one more: it takes the place of the value with its
/// key, if there is one, and else goes to the end.
pub open spec fn with_value_entry(values: Seq<ValueModelEntry>, entry: ValueModelEntry) -> Seq<
    ValueModelEntry,
> {
    match slot(value_keys(values), entry.key) {
        Some(at) => values.update(at, entry),
        None => values.push(entry),
    }
}

/// Queued formats with one more: it takes the place of the format with its
/// key, if there is one, and else goes to the end.
pub open spec fn with_format_entry(
    formats: Seq<FormatModelEntry>,
    entry: FormatModelEntry,
) -> Seq<FormatModelEntry> {
    match slot(format_keys(formats), entry.key) {
        Some(at) => formats.update(at, entry),
        None => formats.push(entry),
    }
}

/// What `slot` finds.
pub proof fn lemma_slot(keys: Seq<Key>, key: Key)
    ensures
        match slot(keys, key) {
            Some(at) => {
                &&& 0 <= at < keys.len()
                &&& keys[at] == key
                &&& forall|i: int| 0 <= i < at ==> #[trigger] keys[i] != key
            },
            None => forall|i: int| 0 <= i < keys.len() ==> #[trigger] keys[i] != key,
        },
    decreases keys.len(),
{
    if keys.len() > 0 {
        let head = keys.drop_last();
        lemma_slot(head, key);
        match slot(head, key) {
            Some(at) => {
                assert(keys[at] == head[at]);
                assert forall|i: int| 0 <= i < at implies #[trigger] keys[i] != key by {
                    assert(keys[i] == head[i]);
                }
            },
            None => {
                assert forall|i: int| 0 <= i < keys.len() - 1 implies #[trigger] keys[i]
                    != key by {
                    assert(keys[i] == head[i]);
                }
            },
        }
    }
}

/// A key that is found among the first keys is found there among all.
pub proof fn lemma_slot_stays(keys: Seq<Key>, key: Key, len: int)
    requires
        0 <= len <= keys.len(),
        slot(keys.subrange(0, len), key).is_some(),
    ensures
        slot(keys, key) == slot(keys.subrange(0, len), key),
    decreases keys.len() - len,
{
    if len < keys.len() {
        let next = keys.subrange(0, len + 1);
        assert(next.drop_last() =~= keys.subrange(0, len));
        lemma_slot_stays(keys, key, len + 1);
    } else {
        assert(keys.subrange(0, len) =~= keys);
    }
}

/// Finds the queued value with the given key.
fn find_value(values: &Vec<ValueEntry>, sheet: &[u8], cell: &[u8]) -> (found: Option<usize>)
    ensures
        match found {
            Some(at) => slot(value_keys(value_models(values@)), (sheet@, cell@)) == Some(at as int)
                && at < values.len(),
            None => slot(value_keys(value_models(values@)), (sheet@, cell@)).is_none(),
        },
{
    let ghost keys = value_keys(value_models(values@));
    let mut i: usize = 0;
    assert(keys.subrange(0, 0) =~= Seq::<Key>::empty());
    while i < values.len()
        invariant
            i <= values.len(),
            keys == value_keys(value_models(values@)),
            slot(keys.subrange(0, i as int), (sheet@, cell@)).is_none(),
        decreases values.len() - i,
    {
        let ghost next = keys.subrange(0, i + 1);
        assert(next.drop_last() =~= keys.subrange(0, i as int));
        assert(next.last() == keys[i as int]);
        if bytes_eq(values[i].sheet.as_str().as_bytes(), sheet) && bytes_eq(
            values[i].cell.as_str().as_bytes(),
            cell,
        ) {
            proof {
                lemma_slot_stays(keys, (sheet@, cell@), i + 1);
            }
            return Some(i);
        }
        i += 1;
    }
    assert(keys.subrange(0, values.len() as int) =~= keys);
    None
}

/// Finds the queued format with the given key.
fn find_format(formats: &Vec<FormatEntry>, sheet: &[u8], cell: &[u8]) -> (found: Option<usize>)
    ensures
        match found {
            Some(at) => slot(format_keys(format_models(formats@)), (sheet@, cell@)) == Some(
                at as int,
            ) && at < formats.len(),
            None => slot(format_keys(format_models(formats@)), (sheet@, cell@)).is_none(),
        },
{
    let ghost keys = format_keys(format_models(formats@));
    let mut i: usize = 0;
    assert(keys.subrange(0, 0) =~= Seq::<Key>::empty());
    while i < formats.len()
        invariant
            i <= formats.len(),
            keys == format_keys(format_models(formats@)),
            slot(keys.subrange(0, i as int), (sheet@, cell@)).is_none(),
        decreases formats.len() - i,
    {
        let ghost next = keys.subrange(0, i + 1);
        assert(next.drop_last() =~= keys.subrange(0, i as int));
        assert(next.last() == keys[i as int]);
        if bytes_eq(formats[i].sheet.as_str().as_bytes(), sheet) && bytes_eq(
            formats[i].cell.as_str().as_bytes(),
            cell,
        ) {
            proof {
                lemma_slot_stays(keys, (sheet@, cell@), i + 1);
            }
            return Some(i);
        }
        i += 1;
    }
    assert(keys.subrange(0, formats.len() as int) =~= keys);
    None
}

/// A patcher for one package: the index of the package and the changes that
/// are queued for it.
///
/// For each cell of each sheet the queue holds one value at most and one
/// format at most.
pub struct XlsxPatcher {
    index: PackageIndex,
    values: Vec<ValueEntry>,
    formats: Vec<FormatEntry>,
}

impl XlsxPatcher {
    /// The index of the package.
    pub closed spec fn index(&self) -> Pairs {
        self.index@
    }

    /// The queued values, in the order in which their cells were first
    /// named.
    pub closed spec fn values(&self) -> Seq<ValueModelEntry> {
        value_models(self.values@)
    }

    /// The queued formats, in the order in which their cells were first
    /// named.
    pub closed spec fn formats(&self) -> Seq<FormatModelEntry> {
        format_models(self.formats@)
    }

    /// Whether the queue holds one value at most and one format at most
    /// for each cell of each sheet, under the name by which the cell was
    /// given.  A new patcher is so, and every change to the queue keeps it
    /// so.
    pub open spec fn one_entry_per_cell(&self) -> bool {
        one_each(value_keys(self.values())) && one_each(format_keys(self.formats()))
    }

    /// A patcher for the package with the given index, with nothing queued.
    pub fn new(index: PackageIndex) -> (patcher: XlsxPatcher)
        ensures
            patcher.index() == index@,
            patcher.values() == Seq::<ValueModelEntry>::empty(),
            patcher.formats() == Seq::<FormatModelEntry>::empty(),
            patcher.one_entry_per_cell(),
    {
        let patcher = XlsxPatcher { index, values: Vec::new(), formats: Vec::new() };
        assert(value_models(patcher.values@) =~= Seq::<ValueModelEntry>::empty());
        assert(format_models(patcher.formats@) =~= Seq::<FormatModelEntry>::empty());
        patcher
    }

    /// The names of the sheets of the package, in the order of the
    /// workbook.
    pub fn sheet_names(&self) -> (names: Vec<String>)
        ensures
            names@.len() == self.index().len(),
            forall|i: int|
                0 <= i < names@.len() ==> utf8((#[trigger] names@[i])@) == self.index()[i].0,
    {
        self.index.sheet_names()
    }

    /// Queues a value for a cell, in place of the value that is queued for
    /// it, if there is one.
    ///
    /// The type and the payload are checked first, then the reference of
    /// the cell; where one of them is refused, the queue stays as it is.
    pub fn queue_value(
        &mut self,
        sheet: &str,
        cell: &str,
        type_tag: &str,
        payload: Option<Payload>,
    ) -> (result: Result<(), InputError>)
        ensures
            final(self).index() == old(self).index(),
            final(self).formats() == old(self).formats(),
            old(self).one_entry_per_cell() ==> final(self).one_entry_per_cell(),
            match payload_value(utf8(type_tag@), payload) {
                Err(e) => result == Err::<(), InputError>(e) && final(self).values() == old(
                    self,
                ).values(),
                Ok(value) => match strict_cell(utf8(cell@)) {
                    Err(e) => result == Err::<(), InputError>(InputError::CellReference(e))
                        && final(self).values() == old(self).values(),
                    Ok((row, col)) => result.is_ok() && final(self).values() == with_value_entry(
                        old(self).values(),
                        ValueModelEntry {
                            key: (utf8(sheet@), utf8(cell@)),
                            patch: PatchModel {
                                row: (row + 1) as u32,
                                col: (col + 1) as u32,
                                value: Some(value),
                                style: None,
                            },
                        },
                    ),
                },
            },
    {
        let value = match cell_value_from_payload(type_tag, payload) {
            Ok(value) => value,
            Err(e) => {
                return Err(e);
            },
        };
        let (row, col) = match a1_to_row_col(cell) {
            Ok(cell) => cell,
            Err(e) => {
                return Err(InputError::CellReference(e));
            },
        };
        let entry = ValueEntry {
            sheet: sheet.to_owned(),
            cell: cell.to_owned(),
            patch: CellPatch { row: row + 1, col: col + 1, value: Some(value), style_index: None },
        };
        let ghost before = value_models(self.values@);
        let ghost keys = value_keys(before);
        proof {
            lemma_slot(keys, entry@.key);
        }
        match find_value(&self.values, sheet.as_bytes(), cell.as_bytes()) {
            Some(at) => {
                let ghost model = entry@;
                assert(one_each(keys) ==> one_each(value_keys(before.update(at as int, model)))) by {
                    if one_each(keys) {
                        let after = value_keys(before.update(at as int, model));
                        assert forall|i: int, j: int| 0 <= i < j < after.len() implies #[trigger] after[i]
                            != #[trigger] after[j] by {
                            assert(after[i] == keys[i] && after[j] == keys[j]);
                        }
                    }
                }
                self.values.set(at, entry);
                assert(value_models(self.values@) =~= before.update(at as int, model));
            },
            None => {
                let ghost model = entry@;
                assert(one_each(keys) ==> one_each(value_keys(before.push(model)))) by {
                    if one_each(keys) {
                        let after = value_keys(before.push(model));
                        assert forall|i: int, j: int| 0 <= i < j < after.len() implies #[trigger] after[i]
                            != #[trigger] after[j] by {
                            if j < keys.len() {
                                assert(after[i] == keys[i] && after[j] == keys[j]);
                            } else {
                                assert(after[i] == keys[i]);
                            }
                        }
                    }
                }
                self.values.push(entry);
                assert(value_models(self.values@) =~= before.push(model));
            },
        }
        Ok(())
    }

    /// Puts a format into the queue under its key.
    fn put_format(&mut self, entry: FormatEntry)
        ensures
            final(self).index() == old(self).index(),
            final(self).values() == old(self).values(),
            final(self).formats() == with_format_entry(old(self).formats(), entry@),
            old(self).one_entry_per_cell() ==> final(self).one_entry_per_cell(),
    {
        let ghost before = format_models(self.formats@);
        let ghost keys = format_keys(before);
        let ghost model = entry@;
        proof {
            lemma_slot(keys, model.key);
        }
        match find_format(
            &self.formats,
            entry.sheet.as_str().as_bytes(),
            entry.cell.as_str().as_bytes(),
        ) {
            Some(at) => {
                assert(one_each(keys) ==> one_each(format_keys(before.update(at as int, model)))) by {
                    if one_each(keys) {
                        let after = format_keys(before.update(at as int, model));
                        assert forall|i: int, j: int| 0 <= i < j < after.len() implies #[trigger] after[i]
                            != #[trigger] after[j] by {
                            assert(after[i] == keys[i] && after[j] == keys[j]);
                        }
                    }
                }
                self.formats.set(at, entry);
                assert(format_models(self.formats@) =~= before.update(at as int, model));
            },
            None => {
                assert(one_each(keys) ==> one_each(format_keys(before.push(model)))) by {
                    if one_each(keys) {
                        let after = format_keys(before.push(model));
                        assert forall|i: int, j: int| 0 <= i < j < after.len() implies #[trigger] after[i]
                            != #[trigger] after[j] by {
                            if j < keys.len() {
                                assert(after[i] == keys[i] && after[j] == keys[j]);
                            } else {
                                assert(after[i] == keys[i]);
                            }
                        }
                    }
                }
                self.formats.push(entry);
                assert(format_models(self.formats@) =~= before.push(model));
            },
        }
    }

    /// Queues a format for a cell, in place of the format that is queued
    /// for it, border and all, if there is one.
    ///
    /// Where the reference of the cell is refused, the queue stays as it
    /// is.
    pub fn queue_format(&mut self, sheet: &str, cell: &str, spec: FormatSpec) -> (result: Result<
        (),
        InputError,
    >)
        ensures
            final(self).index() == old(self).index(),
            final(self).values() == old(self).values(),
            old(self).one_entry_per_cell() ==> final(self).one_entry_per_cell(),
            match strict_cell(utf8(cell@)) {
                Err(e) => result == Err::<(), InputError>(InputError::CellReference(e))
                    && final(self).formats() == old(self).formats(),
                Ok((row, col)) => result.is_ok() && final(self).formats() == with_format_entry(
                    old(self).formats(),
                    FormatModelEntry {
                        key: (utf8(sheet@), utf8(cell@)),
                        row: (row + 1) as u32,
                        col: (col + 1) as u32,
                        spec,
                    },
                ),
            },
    {
        let (row, col) = match a1_to_row_col(cell) {
            Ok(cell) => cell,
            Err(e) => {
                return Err(InputError::CellReference(e));
            },
        };
        self.put_format(
            FormatEntry {
                sheet: sheet.to_owned(),
                cell: cell.to_owned(),
                row: row + 1,
                col: col + 1,
                spec,
            },
        );
        Ok(())
    }

    /// The format that is queued for a cell, or the format that sets
    /// nothing.
    pub open spec fn queued_format(formats: Seq<FormatModelEntry>, key: Key) -> FormatSpec {
        match slot(format_keys(formats), key) {
            Some(at) => formats[at].spec,
            None => FormatSpec {
                font: None,
                fill: None,
                border: None,
                alignment: None,
                number_format: None,
            },
        }
    }

    /// Queues a border for a cell.  The border goes into the format that is
    /// queued for the cell, whose other parts stay as they are; where none
    /// is queued, the border is all of the format.
    ///
    /// Where the reference of the cell is refused, the queue stays as it
    /// is.
    pub fn queue_border(&mut self, sheet: &str, cell: &str, border: BorderSpec) -> (result: Result<
        (),
        InputError,
    >)
        ensures
            final(self).index() == old(self).index(),
            final(self).values() == old(self).values(),
            old(self).one_entry_per_cell() ==> final(self).one_entry_per_cell(),
            match strict_cell(utf8(cell@)) {
                Err(e) => result == Err::<(), InputError>(InputError::CellReference(e))
                    && final(self).formats() == old(self).formats(),
                Ok((row, col)) => result.is_ok() && final(self).formats() == with_format_entry(
                    old(self).formats(),
                    FormatModelEntry {
                        key: (utf8(sheet@), utf8(cell@)),
                        row: (row + 1) as u32,
                        col: (col + 1) as u32,
                        spec: FormatSpec {
                            border: Some(border),
                            ..Self::queued_format(old(self).formats(), (utf8(sheet@), utf8(cell@)))
                        },
                    },
                ),
            },
    {
        let (row, col) = match a1_to_row_col(cell) {
            Ok(cell) => cell,
            Err(e) => {
                return Err(InputError::CellReference(e));
            },
        };
        let spec = match find_format(&self.formats, sheet.as_bytes(), cell.as_bytes()) {
            Some(at) => {
                assert(format_models(self.formats@)[at as int] == self.formats@[at as int]@);
                let old = clone_format(&self.formats[at].spec);
                FormatSpec {
                    font: old.font,
                    fill: old.fill,
                    border: Some(border),
                    alignment: old.alignment,
                    number_format: old.number_format,
                }
            },
            None => FormatSpec {
                font: None,
                fill: None,
                border: Some(border),
                alignment: None,
                number_format: None,
            },
        };
        self.put_format(
            FormatEntry {
                sheet: sheet.to_owned(),
                cell: cell.to_owned(),
                row: row + 1,
                col: col + 1,
                spec,
            },
        );
        Ok(())
    }

    /// Whether nothing is queued.
    pub fn is_clean(&self) -> (clean: bool)
        ensures
            clean == (self.values().len() == 0 && self.formats().len() == 0),
    {
        self.values.len() == 0 && self.formats.len() == 0
    }

    /// Whether a format is queued, so that a save needs the style sheet.
    pub fn needs_styles(&self) -> (needed: bool)
        ensures
            needed == (self.formats().len() > 0),
    {
        self.formats.len() > 0
    }
}

// ---------------------------------------------------------------------------
// The plan of a save
// ---------------------------------------------------------------------------
/// Why a save could not be planned.
#[derive(Debug, Clone, Copy, PartialEq, Eq, Structural)]
pub enum SaveError {
    /// The parser rejected the style sheet.
    StyleSheet,
    /// The text of a part that changes was not given.  `part` counts the
    /// parts that change, from 0.
    MissingPart { part: usize },
    /// A part could not be patched.
    Patch { part: usize, error: PatchError },
}

/// A catalog with a new style for each queued format, in the order of the
/// queue, and the indices of those styles.
pub open spec fn resolved_all(c: CatalogModel, formats: Seq<FormatModelEntry>) -> (
    CatalogModel,
    Seq<u32>,
)
    decreases formats.len(),
{
    if formats.len() == 0 {
        (c, Seq::empty())
    } else {
        let before = resolved_all(c, formats.drop_last());
        let next = resolve_spec(before.0, formats.last().spec);
        (next.0, before.1.push(next.1))
    }
}

/// A style sheet with a new style for each queued format, in the order of
/// the queue, and the indices of those styles.
pub open spec fn resolved(xml: Seq<u8>, formats: Seq<FormatModelEntry>) -> (Seq<u8>, Seq<u32>) {
    let all = resolved_all(catalog_of(xml), formats);
    (all.0.text, all.1)
}

/// The path of the part that holds a sheet.
pub open spec fn part_of(index: Pairs, sheet: Seq<u8>) -> Option<Seq<u8>> {
    match position(index, sheet) {
        Some(at) => Some(index[at].1),
        None => None,
    }
}

/// The patch that a queued value makes: with the style of the format that
/// is queued for the same cell, if there is one.
pub open spec fn value_patch(
    entry: ValueModelEntry,
    formats: Seq<FormatModelEntry>,
    styles: Seq<u32>,
) -> PatchModel {
    match slot(format_keys(formats), entry.key) {
        Some(at) => PatchModel { style: Some(styles[at]), ..entry.patch },
        None => entry.patch,
    }
}

/// The patches that the queued values make for one part, in the order of
/// the queue.  A value for a sheet that the package does not have makes
/// none.
pub open spec fn value_patches(
    values: Seq<ValueModelEntry>,
    formats: Seq<FormatModelEntry>,
    styles: Seq<u32>,
    index: Pairs,
    path: Seq<u8>,
) -> Seq<PatchModel>
    decreases values.len(),
{
    if values.len() == 0 {
        Seq::empty()
    } else {
        let before = value_patches(values.drop_last(), formats, styles, index, path);
        if part_of(index, values.last().key.0) == Some(path) {
            before.push(value_patch(values.last(), formats, styles))
        } else {
            before
        }
    }
}

/// The patches that the first `upto` queued formats make for one part where
/// no value is queued for their cell: patches that change the style alone.
pub open spec fn style_patches(
    values: Seq<ValueModelEntry>,
    formats: Seq<FormatModelEntry>,
    styles: Seq<u32>,
    index: Pairs,
    path: Seq<u8>,
    upto: int,
) -> Seq<PatchModel>
    decreases upto,
{
    if upto <= 0 {
        Seq::empty()
    } else {
        let before = style_patches(values, formats, styles, index, path, upto - 1);
        let entry = formats[upto - 1];
        if slot(value_keys(values), entry.key).is_none() && part_of(index, entry.key.0) == Some(
            path,
        ) {
            before.push(
                PatchModel {
                    row: entry.row,
                    col: entry.col,
                    value: None,
                    style: Some(styles[upto - 1]),
                },
            )
        } else {
            before
        }
    }
}

/// All patches for one part: those of the values, then those that change
/// a style alone.
pub open spec fn part_patches(
    values: Seq<ValueModelEntry>,
    formats: Seq<FormatModelEntry>,
    styles: Seq<u32>,
    index: Pairs,
    path: Seq<u8>,
) -> Seq<PatchModel> {
    value_patches(values, formats, styles, index, path) + style_patches(
        values,
        formats,
        styles,
        index,
        path,
        formats.len() as int,
    )
}

/// Paths with one more, unless it is among them.
pub open spec fn with_path(paths: Seq<Seq<u8>>, path: Option<Seq<u8>>) -> Seq<Seq<u8>> {
    match path {
        Some(p) => if paths.contains(p) {
            paths
        } else {
            paths.push(p)
        },
        None => paths,
    }
}

/// The parts of the sheets that the given keys name, each once, in the order
/// in which the keys first name them, after the paths `start`.
pub open spec fn paths_of(start: Seq<Seq<u8>>, keys: Seq<Key>, index: Pairs) -> Seq<Seq<u8>>
    decreases keys.len(),
{
    if keys.len() == 0 {
        start
    } else {
        with_path(paths_of(start, keys.drop_last(), index), part_of(index, keys.last().0))
    }
}

/// The parts that change with a save: those of the sheets with queued
/// values, then those of the sheets with queued formats.
pub open spec fn changed_parts(
    values: Seq<ValueModelEntry>,
    formats: Seq<FormatModelEntry>,
    index: Pairs,
) -> Seq<Seq<u8>> {
    paths_of(paths_of(Seq::empty(), value_keys(values), index), format_keys(formats), index)
}

/// The text of the part at `path` among the parts that a caller has read:
/// that of the first with this path.
pub open spec fn source_of(sources: Pairs, path: Seq<u8>) -> Option<Seq<u8>> {
    match position(sources, path) {
        Some(at) => Some(sources[at].1),
        None => None,
    }
}

/// The new texts of the parts at `paths`, in order; or what went wrong at
/// the first part where something did.
pub open spec fn patched_parts(
    paths: Seq<Seq<u8>>,
    sources: Pairs,
    values: Seq<ValueModelEntry>,
    formats: Seq<FormatModelEntry>,
    styles: Seq<u32>,
    index: Pairs,
) -> Result<Pairs, SaveError>
    decreases paths.len(),
{
    if paths.len() == 0 {
        Ok(Seq::empty())
    } else {
        match patched_parts(paths.drop_last(), sources, values, formats, styles, index) {
            Err(e) => Err(e),
            Ok(before) => match source_of(sources, paths.last()) {
                None => Err(SaveError::MissingPart { part: (paths.len() - 1) as usize }),
                Some(xml) => match worksheet_patched(
                    xml,
                    part_patches(values, formats, styles, index, paths.last()),
                ) {
                    Ok(text) => Ok(before.push((paths.last(), text))),
                    Err(error) => Err(
                        SaveError::Patch { part: (paths.len() - 1) as usize, error },
                    ),
                },
            },
        }
    }
}

/// What a save replaces: the parts that change, with their new text.
///
/// With an empty queue nothing is replaced.  Otherwise each queued format
/// gets a style in the style sheet, which is the given one or, without one,
/// the smallest style sheet, and which the parser must accept; every part
/// with a queued change is patched; and if a format is queued the style
/// sheet is replaced as well, as the part `xl/styles.xml`, which comes last.
pub open spec fn save_planned(
    values: Seq<ValueModelEntry>,
    formats: Seq<FormatModelEntry>,
    index: Pairs,
    styles_xml: Option<Seq<u8>>,
    sources: Pairs,
) -> Result<Pairs, SaveError> {
    let base = match styles_xml {
        Some(xml) => xml,
        None => utf8(minimal_styles()),
    };
    if values.len() == 0 && formats.len() == 0 {
        Ok(Seq::empty())
    } else if formats.len() > 0 && !crate::xml::accepted(crate::xml::document_events(base)) {
        Err(SaveError::StyleSheet)
    } else {
        let styles = resolved(base, formats);
        match patched_parts(
            changed_parts(values, formats, index),
            sources,
            values,
            formats,
            styles.1,
            index,
        ) {
            Err(e) => Err(e),
            Ok(parts) => Ok(
                if formats.len() > 0 {
                    parts.push((utf8("xl/styles.xml"@), styles.0))
                } else {
                    parts
                },
            ),
        }
    }
}

/// The bytes of strings.
pub open spec fn path_bytes(paths: Seq<String>) -> Seq<Seq<u8>> {
    Seq::new(paths.len(), |i: int| utf8(paths[i]@))
}

/// Whether a path is among the given ones.
fn has_path(paths: &Vec<String>, path: &[u8]) -> (found: bool)
    ensures
        found == path_bytes(paths@).contains(path@),
{
    let ghost all = path_bytes(paths@);
    let mut i: usize = 0;
    while i < paths.len()
        invariant
            i <= paths.len(),
            all == path_bytes(paths@),
            forall|k: int| 0 <= k < i ==> all[k] != path@,
        decreases paths.len() - i,
    {
        if bytes_eq(paths[i].as_str().as_bytes(), path) {
            assert(all[i as int] == path@);
            return true;
        }
        i += 1;
    }
    false
}

impl XlsxPatcher {
    /// Adds the part of a sheet to the parts that change.
    fn add_part(&self, paths: &mut Vec<String>, sheet: &str)
        ensures
            path_bytes(final(paths)@) == with_path(
                path_bytes(old(paths)@),
                part_of(self.index(), utf8(sheet@)),
            ),
    {
        let ghost before = path_bytes(paths@);
        match self.index.path_of(sheet) {
            Some(path) => {
                if !has_path(paths, path.as_str().as_bytes()) {
                    let copy = path.clone();
                    paths.push(copy);
                    assert(path_bytes(paths@) =~= before.push(utf8(path@)));
                }
            },
            None => {},
        }
    }

    /// The paths of the parts that a save changes, beside the style sheet:
    /// the parts of the sheets for which something is queued.
    pub fn affected_parts(&self) -> (paths: Vec<String>)
        ensures
            path_bytes(paths@) == changed_parts(self.values(), self.formats(), self.index()),
    {
        let mut paths: Vec<String> = Vec::new();
        let ghost vkeys = value_keys(self.values());
        let ghost fkeys = format_keys(self.formats());
        let mut i: usize = 0;
        assert(path_bytes(paths@) =~= Seq::<Seq<u8>>::empty());
        assert(vkeys.subrange(0, 0) =~= Seq::<Key>::empty());
        while i < self.values.len()
            invariant
                i <= self.values.len(),
                vkeys == value_keys(self.values()),
                path_bytes(paths@) == paths_of(
                    Seq::empty(),
                    vkeys.subrange(0, i as int),
                    self.index(),
                ),
            decreases self.values.len() - i,
        {
            let ghost next = vkeys.subrange(0, i + 1);
            assert(next.drop_last() =~= vkeys.subrange(0, i as int));
            assert(next.last() == self.values@[i as int]@.key);
            self.add_part(&mut paths, self.values[i].sheet.as_str());
            i += 1;
        }
        assert(vkeys.subrange(0, self.values.len() as int) =~= vkeys);
        let ghost start = path_bytes(paths@);
        let mut j: usize = 0;
        assert(fkeys.subrange(0, 0) =~= Seq::<Key>::empty());
        while j < self.formats.len()
            invariant
                j <= self.formats.len(),
                fkeys == format_keys(self.formats()),
                path_bytes(paths@) == paths_of(start, fkeys.subrange(0, j as int), self.index()),
            decreases self.formats.len() - j,
        {
            let ghost next = fkeys.subrange(0, j + 1);
            assert(next.drop_last() =~= fkeys.subrange(0, j as int));
            assert(next.last() == self.formats@[j as int]@.key);
            self.add_part(&mut paths, self.formats[j].sheet.as_str());
            j += 1;
        }
        assert(fkeys.subrange(0, self.formats.len() as int) =~= fkeys);
        paths
    }

    /// Gives each queued format a style in a style sheet; see [`resolved`].
    ///
    /// Returns the new style sheet and the indices of the styles, in the
    /// order of the queue.
    pub fn resolve_styles(&self, styles_xml: &str) -> (result: (String, Vec<u32>))
        ensures
            utf8(result.0@) == resolved(utf8(styles_xml@), self.formats()).0,
            result.1@ == resolved(utf8(styles_xml@), self.formats()).1,
    {
        self.resolve_in(StyleCatalog::read(styles_xml))
    }

    /// Gives each queued format a style in a catalog; see [`resolved_all`].
    fn resolve_in(&self, catalog: StyleCatalog) -> (result: (String, Vec<u32>))
        ensures
            utf8(result.0@) == resolved_all(catalog@, self.formats()).0.text,
            result.1@ == resolved_all(catalog@, self.formats()).1,
    {
        let ghost all = self.formats();
        let mut catalog = catalog;
        let ghost start = catalog@;
        let mut styles: Vec<u32> = Vec::new();
        let mut i: usize = 0;
        assert(all.subrange(0, 0) =~= Seq::<FormatModelEntry>::empty());
        while i < self.formats.len()
            invariant
                i <= self.formats.len(),
                all == self.formats(),
                catalog@ == resolved_all(start, all.subrange(0, i as int)).0,
                styles@ == resolved_all(start, all.subrange(0, i as int)).1,
            decreases self.formats.len() - i,
        {
            let ghost next = all.subrange(0, i + 1);
            assert(next.drop_last() =~= all.subrange(0, i as int));
            assert(next.last() == self.formats@[i as int]@);
            let style = catalog.resolve(&self.formats[i].spec);
            styles.push(style);
            i += 1;
        }
        assert(all.subrange(0, self.formats.len() as int) =~= all);
        (catalog.into_xml(), styles)
    }

    /// Whether the part at `path` holds the given sheet.
    fn sheet_is_in(&self, sheet: &str, path: &[u8]) -> (held: bool)
        ensures
            held == (part_of(self.index(), utf8(sheet@)) == Some(path@)),
    {
        match self.index.path_of(sheet) {
            Some(p) => bytes_eq(p.as_str().as_bytes(), path),
            None => false,
        }
    }

    /// The patches that the queue makes for the part at `path`; see
    /// [`part_patches`].
    fn patches_for_part(&self, path: &[u8], styles: &Vec<u32>) -> (patches: Vec<CellPatch>)
        requires
            styles@.len() == self.formats().len(),
        ensures
            patch_models(patches@) == part_patches(
                self.values(),
                self.formats(),
                styles@,
                self.index(),
                path@,
            ),
    {
        let ghost values = self.values();
        let ghost formats = self.formats();
        let mut patches: Vec<CellPatch> = Vec::new();
        let mut i: usize = 0;
        assert(values.subrange(0, 0) =~= Seq::<ValueModelEntry>::empty());
        assert(patch_models(patches@) =~= Seq::<PatchModel>::empty());
        while i < self.values.len()
            invariant
                i <= self.values.len(),
                values == self.values(),
                formats == self.formats(),
                styles@.len() == formats.len(),
                patch_models(patches@) == value_patches(
                    values.subrange(0, i as int),
                    formats,
                    styles@,
                    self.index(),
                    path@,
                ),
            decreases self.values.len() - i,
        {
            let ghost next = values.subrange(0, i + 1);
            assert(next.drop_last() =~= values.subrange(0, i as int));
            assert(next.last() == self.values@[i as int]@);
            let entry = &self.values[i];
            if self.sheet_is_in(entry.sheet.as_str(), path) {
                let ghost before = patch_models(patches@);
                let mut patch = clone_patch(&entry.patch);
                match find_format(
                    &self.formats,
                    entry.sheet.as_str().as_bytes(),
                    entry.cell.as_str().as_bytes(),
                ) {
                    Some(at) => {
                        patch.style_index = Some(styles[at]);
                    },
                    None => {},
                }
                patches.push(patch);
                assert(patch_models(patches@) =~= before.push(
                    value_patch(next.last(), formats, styles@),
                ));
            }
            i += 1;
        }
        assert(values.subrange(0, self.values.len() as int) =~= values);
        let ghost from_values = patch_models(patches@);
        let mut j: usize = 0;
        assert(patch_models(patches@) =~= from_values + style_patches(
            values,
            formats,
            styles@,
            self.index(),
            path@,
            0,
        ));
        while j < self.formats.len()
            invariant
                j <= self.formats.len(),
                values == self.values(),
                formats == self.formats(),
                styles@.len() == formats.len(),
                patch_models(patches@) == from_values + style_patches(
                    values,
                    formats,
                    styles@,
                    self.index(),
                    path@,
                    j as int,
                ),
            decreases self.formats.len() - j,
        {
            let entry = &self.formats[j];
            assert(formats[j as int] == entry@);
            let ghost before = patch_models(patches@);
            let queued = find_value(
                &self.values,
                entry.sheet.as_str().as_bytes(),
                entry.cell.as_str().as_bytes(),
            );
            if queued.is_none() && self.sheet_is_in(entry.sheet.as_str(), path) {
                let patch = CellPatch {
                    row: entry.row,
                    col: entry.col,
                    value: None,
                    style_index: Some(styles[j]),
                };
                patches.push(patch);
                assert(patch_models(patches@) =~= before.push(patch@));
            }
            assert(patch_models(patches@) =~= from_values + style_patches(
                values,
                formats,
                styles@,
                self.index(),
                path@,
                j + 1,
            ));
            j += 1;
        }
        patches
    }

    /// Patches the parts at `paths`; see [`patched_parts`].
    fn patch_parts(
        &self,
        paths: &Vec<String>,
        sources: &Vec<(String, String)>,
        styles: &Vec<u32>,
    ) -> (result: Result<Vec<(String, String)>, SaveError>)
        requires
            styles@.len() == self.formats().len(),
        ensures
            match result {
                Ok(parts) => patched_parts(
                    path_bytes(paths@),
                    crate::ooxml_util::pair_bytes(sources@),
                    self.values(),
                    self.formats(),
                    styles@,
                    self.index(),
                ) == Ok::<Pairs, SaveError>(crate::ooxml_util::pair_bytes(parts@)),
                Err(e) => patched_parts(
                    path_bytes(paths@),
                    crate::ooxml_util::pair_bytes(sources@),
                    self.values(),
                    self.formats(),
                    styles@,
                    self.index(),
                ) == Err::<Pairs, SaveError>(e),
            },
    {
        let mut parts: Vec<(String, String)> = Vec::new();
        assert(crate::ooxml_util::pair_bytes(parts@) =~= Seq::<(Seq<u8>, Seq<u8>)>::empty());
        let ghost all = path_bytes(paths@);
        let ghost given = crate::ooxml_util::pair_bytes(sources@);
        let mut i: usize = 0;
        assert(all.subrange(0, 0) =~= Seq::<Seq<u8>>::empty());
        while i < paths.len()
            invariant
                i <= paths.len(),
                all == path_bytes(paths@),
                given == crate::ooxml_util::pair_bytes(sources@),
                styles@.len() == self.formats().len(),
                patched_parts(
                    all.subrange(0, i as int),
                    given,
                    self.values(),
                    self.formats(),
                    styles@,
                    self.index(),
                ) == Ok::<Pairs, SaveError>(crate::ooxml_util::pair_bytes(parts@)),
            decreases paths.len() - i,
        {
            let ghost next = all.subrange(0, i + 1);
            assert(next.drop_last() =~= all.subrange(0, i as int));
            assert(next.last() == utf8(paths@[i as int]@));
            match self.patch_part(&paths[i], sources, styles, i) {
                Ok(text) => {
                    let ghost before = crate::ooxml_util::pair_bytes(parts@);
                    let copy = paths[i].clone();
                    parts.push((copy, text));
                    assert(crate::ooxml_util::pair_bytes(parts@) =~= before.push(
                        (utf8(paths@[i as int]@), utf8(text@)),
                    ));
                },
                Err(e) => {
                    proof {
                        lemma_patched_parts_fail(
                            all,
                            given,
                            self.values(),
                            self.formats(),
                            styles@,
                            self.index(),
                            i + 1,
                        );
                    }
                    return Err(e);
                },
            }
            i += 1;
        }
        assert(all.subrange(0, paths.len() as int) =~= all);
        Ok(parts)
    }

    /// Patches the part at `path`, which is the part number `part` of those
    /// that change.
    fn patch_part(
        &self,
        path: &String,
        sources: &Vec<(String, String)>,
        styles: &Vec<u32>,
        part: usize,
    ) -> (result: Result<String, SaveError>)
        requires
            styles@.len() == self.formats().len(),
        ensures
            match source_of(crate::ooxml_util::pair_bytes(sources@), utf8(path@)) {
                None => result == Err::<String, SaveError>(SaveError::MissingPart { part }),
                Some(xml) => match worksheet_patched(
                    xml,
                    part_patches(self.values(), self.formats(), styles@, self.index(), utf8(path@)),
                ) {
                    Ok(text) => result matches Ok(t) && utf8(t@) == text,
                    Err(error) => result == Err::<String, SaveError>(
                        SaveError::Patch { part, error },
                    ),
                },
            },
    {
        let ghost given = crate::ooxml_util::pair_bytes(sources@);
        let source = match find_key(sources, path.as_str().as_bytes()) {
            Some(at) => {
                assert(given[at as int] == (
                    utf8(sources@[at as int].0@),
                    utf8(sources@[at as int].1@),
                ));
                &sources[at].1
            },
            None => {
                return Err(SaveError::MissingPart { part });
            },
        };
        let patches = self.patches_for_part(path.as_str().as_bytes(), styles);
        match patch_worksheet(source.as_str(), patches.as_slice()) {
            Ok(text) => Ok(text),
            Err(error) => Err(SaveError::Patch { part, error }),
        }
    }

    /// Plans a save: finds the parts that change and works out their new
    /// text; see [`save_planned`].
    ///
    /// `styles_xml` is the style sheet of the package, if it has one, and
    /// `sources` holds the paths and the texts of the parts that
    /// [`XlsxPatcher::affected_parts`] names.  The result holds the path and
    /// the new text of every part that is to be replaced; every other part
    /// of the package stays as it is.
    pub fn save_plan(&self, styles_xml: Option<&str>, sources: &Vec<(String, String)>) -> (result:
        Result<Vec<(String, String)>, SaveError>)
        ensures
            match result {
                Ok(parts) => save_planned(
                    self.values(),
                    self.formats(),
                    self.index(),
                    match styles_xml {
                        Some(xml) => Some(utf8(xml@)),
                        None => None,
                    },
                    crate::ooxml_util::pair_bytes(sources@),
                ) == Ok::<Pairs, SaveError>(crate::ooxml_util::pair_bytes(parts@)),
                Err(e) => save_planned(
                    self.values(),
                    self.formats(),
                    self.index(),
                    match styles_xml {
                        Some(xml) => Some(utf8(xml@)),
                        None => None,
                    },
                    crate::ooxml_util::pair_bytes(sources@),
                ) == Err::<Pairs, SaveError>(e),
            },
            self.values().len() == 0 && self.formats().len() == 0 ==> (result matches Ok(parts)
                && parts@.len() == 0),
    {
        if self.is_clean() {
            let parts: Vec<(String, String)> = Vec::new();
            assert(crate::ooxml_util::pair_bytes(parts@) =~= Seq::<(Seq<u8>, Seq<u8>)>::empty());
            return Ok(parts);
        }
        let base = match styles_xml {
            Some(xml) => xml.to_owned(),
            None => minimal_styles_xml(),
        };
        let (new_styles, styles) = if self.needs_styles() {
            match StyleCatalog::read_whole(base.as_str()) {
                Some(catalog) => self.resolve_in(catalog),
                None => {
                    return Err(SaveError::StyleSheet);
                },
            }
        } else {
            let none: Vec<u32> = Vec::new();
            (base, none)
        };
        proof {
            lemma_resolved_len(utf8(base@), self.formats());
        }
        let paths = self.affected_parts();
        let mut parts = match self.patch_parts(&paths, sources, &styles) {
            Ok(parts) => parts,
            Err(e) => {
                return Err(e);
            },
        };
        if self.needs_styles() {
            let ghost before = crate::ooxml_util::pair_bytes(parts@);
            let path = "xl/styles.xml".to_owned();
            parts.push((path, new_styles));
            assert(crate::ooxml_util::pair_bytes(parts@) =~= before.push(
                (utf8("xl/styles.xml"@), utf8(new_styles@)),
            ));
        }
        Ok(parts)
    }
}

/// Each queued format gets one style.
pub proof fn lemma_resolved_len(xml: Seq<u8>, formats: Seq<FormatModelEntry>)
    ensures
        resolved(xml, formats).1.len() == formats.len(),
{
    lemma_resolved_all_len(catalog_of(xml), formats);
}

/// Every queued value reaches its part: where the package has the sheet of
/// a queued value, the patches for the part of that sheet hold the value,
/// for the cell that was named.
pub proof fn lemma_queued_value_reaches_its_part(
    values: Seq<ValueModelEntry>,
    formats: Seq<FormatModelEntry>,
    styles: Seq<u32>,
    index: Pairs,
    at: int,
)
    requires
        0 <= at < values.len(),
        part_of(index, values[at].key.0).is_some(),
    ensures
        ({
            let path = part_of(index, values[at].key.0).unwrap();
            let patches = part_patches(values, formats, styles, index, path);
            exists|k: int|
                0 <= k < patches.len() && (#[trigger] patches[k]).row == values[at].patch.row
                    && patches[k].col == values[at].patch.col && patches[k].value
                    == values[at].patch.value
        }),
{
    let path = part_of(index, values[at].key.0).unwrap();
    lemma_value_patch_is_there(values, formats, styles, index, path, at);
    let from_values = value_patches(values, formats, styles, index, path);
    let patches = part_patches(values, formats, styles, index, path);
    let k = choose|k: int|
        0 <= k < from_values.len() && #[trigger] from_values[k] == value_patch(
            values[at],
            formats,
            styles,
        );
    assert(patches[k] == from_values[k]);
}

/// The patch of a queued value stands among the patches for its part.
pub proof fn lemma_value_patch_is_there(
    values: Seq<ValueModelEntry>,
    formats: Seq<FormatModelEntry>,
    styles: Seq<u32>,
    index: Pairs,
    path: Seq<u8>,
    at: int,
)
    requires
        0 <= at < values.len(),
        part_of(index, values[at].key.0) == Some(path),
    ensures
        exists|k: int|
            0 <= k < value_patches(values, formats, styles, index, path).len()
                && #[trigger] value_patches(values, formats, styles, index, path)[k]
                == value_patch(values[at], formats, styles),
    decreases values.len(),
{
    let all = value_patches(values, formats, styles, index, path);
    let head = values.drop_last();
    let before = value_patches(head, formats, styles, index, path);
    if at == values.len() - 1 {
        assert(all[before.len() as int] == value_patch(values[at], formats, styles));
    } else {
        lemma_value_patch_is_there(head, formats, styles, index, path, at);
        let k = choose|k: int|
            0 <= k < before.len() && #[trigger] before[k] == value_patch(
                head[at],
                formats,
                styles,
            );
        assert(all[k] == before[k]);
    }
}

/// The queued formats get styles of their own, one after the other: the
/// format at place `at` of the queue gets the style that many places after
/// the first new one.  This holds as long as the indices last.
pub proof fn lemma_queued_format_gets_own_style(
    c: CatalogModel,
    formats: Seq<FormatModelEntry>,
    at: int,
)
    requires
        0 <= at < formats.len(),
        c.styles + formats.len() <= u32::MAX,
    ensures
        resolved_all(c, formats).1[at] == c.styles + at,
        resolved_all(c, formats).0.styles == c.styles + formats.len(),
    decreases formats.len(),
{
    reveal(resolve_spec);
    let head = formats.drop_last();
    if head.len() > 0 {
        lemma_queued_format_gets_own_style(
            c,
            head,
            if at < head.len() {
                at
            } else {
                0
            },
        );
    }
    lemma_resolved_all_len(c, head);
}

/// The styles of a whole queue leave the catalog in step with its text:
/// where the styles of the style sheet stand last and the indices last, the
/// style sheet that a save writes states the count of styles that it has,
/// and each queued format has the index at which its style stands.
pub proof fn lemma_queue_keeps_step(c: CatalogModel, formats: Seq<FormatModelEntry>)
    requires
        crate::style_laws::in_step(c),
        c.styles + formats.len() <= u32::MAX,
    ensures
        crate::style_laws::in_step(resolved_all(c, formats).0),
        resolved_all(c, formats).0.styles == c.styles + formats.len(),
        forall|i: int| 0 <= i < formats.len() ==> #[trigger] resolved_all(c, formats).1[i]
            == c.styles + i,
    decreases formats.len(),
{
    if formats.len() > 0 {
        let head = formats.drop_last();
        lemma_queue_keeps_step(c, head);
        lemma_resolved_all_len(c, head);
        let before = resolved_all(c, head);
        crate::style_laws::lemma_resolve_keeps_step(before.0, formats.last().spec);
        assert forall|i: int| 0 <= i < formats.len() implies #[trigger] resolved_all(
            c,
            formats,
        ).1[i] == c.styles + i by {
            if i < head.len() {
                assert(resolved_all(c, formats).1[i] == before.1[i]);
            }
        }
    }
}

/// Two queued formats never share a style, even where the formats are the
/// same.
pub proof fn lemma_queued_formats_share_no_style(
    c: CatalogModel,
    formats: Seq<FormatModelEntry>,
    first: int,
    second: int,
)
    requires
        0 <= first < second < formats.len(),
        c.styles + formats.len() <= u32::MAX,
    ensures
        resolved_all(c, formats).1[first] != resolved_all(c, formats).1[second],
{
    lemma_queued_format_gets_own_style(c, formats, first);
    lemma_queued_format_gets_own_style(c, formats, second);
}

/// Each queued format gets one style.
pub proof fn lemma_resolved_all_len(c: CatalogModel, formats: Seq<FormatModelEntry>)
    ensures
        resolved_all(c, formats).1.len() == formats.len(),
    decreases formats.len(),
{
    if formats.len() > 0 {
        lemma_resolved_all_len(c, formats.drop_last());
    }
}

/// What goes wrong at one part goes wrong for the whole plan.
pub proof fn lemma_patched_parts_fail(
    paths: Seq<Seq<u8>>,
    sources: Pairs,
    values: Seq<ValueModelEntry>,
    formats: Seq<FormatModelEntry>,
    styles: Seq<u32>,
    index: Pairs,
    len: int,
)
    requires
        0 <= len <= paths.len(),
        patched_parts(paths.subrange(0, len), sources, values, formats, styles, index).is_err(),
    ensures
        patched_parts(paths, sources, values, formats, styles, index) == patched_parts(
            paths.subrange(0, len),
            sources,
            values,
            formats,
            styles,
            index,
        ),
    decreases paths.len() - len,
{
    if len < paths.len() {
        let next = paths.subrange(0, len + 1);
        assert(next.drop_last() =~= paths.subrange(0, len));
        lemma_patched_parts_fail(paths, sources, values, formats, styles, index, len + 1);
    } else {
        assert(paths.subrange(0, len) =~= paths);
    }
}

} // verus!
