//! Rewriting the cells of one worksheet part.
//!
//! The worksheet is read as a sequence of events and rewritten in one pass:
//! cells with a pending patch are replaced or restyled where they stand,
//! cells and rows that the sheet does not have yet are put in at their sorted
//! place, and every other event is handed on as it is.
//!
//! New string values are written inline (`t="str"`), so the shared string
//! table of the package is never touched.

use crate::cell_ref::{a1_of, lemma_ref_column_fits, parse_cell_ref_bytes, push_a1, ref_column};
use crate::text::{
    decimal, parse_u32, parsed_u32, push_bytes, push_decimal, push_text, string_from_utf8, utf8,
};
use crate::xml::{
    accepted, attr_model, attr_models, attr_value, attr_value_of, attributes, attributes_of,
    document_events, escaped, models, read_events, render, rendered_all, tag_is, tag_name,
    AttrModel, EventKind, EventModel, XmlEvent,
};
use vstd::prelude::*;
use vstd::utf8::valid_utf8;

verus! {

/// A number as a decimal numeral: `mantissa` times ten to the power of
/// `exponent`.  Such a number is written out exactly.
#[derive(Debug, Clone, Copy, PartialEq, Eq, Structural)]
pub struct Decimal {
    pub mantissa: i64,
    pub exponent: i16,
}

/// What to write into a cell.
#[derive(Debug, Clone)]
pub enum CellValue {
    /// An empty cell.
    Blank,
    /// A number.
    Number(Decimal),
    /// A string, which is written as an inline string.
    String(String),
    /// A truth value.
    Boolean(bool),
    /// A formula, without the leading `=`.
    Formula(String),
}

/// One change to one cell.
#[derive(Debug, Clone)]
pub struct CellPatch {
    /// The row of the cell, counted from 1.
    pub row: u32,
    /// The column of the cell, counted from 1.
    pub col: u32,
    /// The new value; `None` leaves the value of the cell as it is.
    pub value: Option<CellValue>,
    /// The new style index; `None` leaves the style of the cell as it is.
    pub style_index: Option<u32>,
}

/// The mathematical value of a [`CellValue`].
pub enum ValueModel {
    Blank,
    Number { mantissa: int, exponent: int },
    Text(Seq<u8>),
    Boolean(bool),
    Formula(Seq<u8>),
}

/// The mathematical value of a [`CellPatch`].
pub struct PatchModel {
    pub row: u32,
    pub col: u32,
    pub value: Option<ValueModel>,
    pub style: Option<u32>,
}

impl View for CellValue {
    type V = ValueModel;

    open spec fn view(&self) -> ValueModel {
        match self {
            CellValue::Blank => ValueModel::Blank,
            CellValue::Number(n) => ValueModel::Number {
                mantissa: n.mantissa as int,
                exponent: n.exponent as int,
            },
            CellValue::String(s) => ValueModel::Text(utf8(s@)),
            CellValue::Boolean(b) => ValueModel::Boolean(*b),
            CellValue::Formula(f) => ValueModel::Formula(utf8(f@)),
        }
    }
}

/// The model of an optional value.
pub open spec fn value_model(value: Option<CellValue>) -> Option<ValueModel> {
    match value {
        Some(v) => Some(v@),
        None => None,
    }
}

impl View for CellPatch {
    type V = PatchModel;

    open spec fn view(&self) -> PatchModel {
        PatchModel {
            row: self.row,
            col: self.col,
            value: value_model(self.value),
            style: self.style_index,
        }
    }
}

/// The models of a sequence of patches.
pub open spec fn patch_models(patches: Seq<CellPatch>) -> Seq<PatchModel> {
    Seq::new(patches.len(), |i: int| patches[i]@)
}

// ---------------------------------------------------------------------------
// Numbers as text
// ---------------------------------------------------------------------------
/// A run of `n` zeros.
pub open spec fn zeros(n: nat) -> Seq<u8> {
    Seq::new(n, |i: int| 48u8)
}

/// How many trailing zeros a mantissa can give up: as many as it has, but no
/// more than the exponent is below zero.
pub open spec fn spare_zeros(magnitude: nat, exponent: int) -> nat
    decreases -exponent,
{
    if exponent < 0 && magnitude != 0 && magnitude % 10 == 0 {
        1 + spare_zeros(magnitude / 10, exponent + 1)
    } else {
        0
    }
}

/// Ten to the power of `n`.
pub open spec fn pow10(n: nat) -> nat
    decreases n,
{
    if n == 0 {
        1
    } else {
        10 * pow10((n - 1) as nat)
    }
}

/// The numeral of a positive number `magnitude` times ten to the power of
/// `exponent`, where the magnitude does not end in a zero that the exponent
/// could take up: the digits followed by zeros, or the digits with a decimal
/// point set into them, after `0.` and zeros where there are too few.
pub open spec fn magnitude_text(magnitude: nat, exponent: int) -> Seq<u8> {
    let digits = decimal(magnitude);
    if exponent >= 0 {
        digits + zeros(exponent as nat)
    } else if digits.len() > -exponent {
        digits.subrange(0, digits.len() + exponent) + utf8("."@) + digits.subrange(
            digits.len() + exponent,
            digits.len() as int,
        )
    } else {
        utf8("0."@) + zeros((-exponent - digits.len()) as nat) + digits
    }
}

/// The text of a number in a cell: a whole number without a decimal point,
/// any other number as a decimal fraction without trailing zeros.
pub open spec fn number_text(mantissa: int, exponent: int) -> Seq<u8> {
    if mantissa == 0 {
        utf8("0"@)
    } else {
        let magnitude = (if mantissa < 0 {
            -mantissa
        } else {
            mantissa
        }) as nat;
        let spare = spare_zeros(magnitude, exponent);
        let sign = if mantissa < 0 {
            utf8("-"@)
        } else {
            Seq::empty()
        };
        sign + magnitude_text(magnitude / pow10(spare), exponent + spare)
    }
}

/// Appends `n` zeros to `out`.
fn push_zeros(out: &mut Vec<u8>, n: usize)
    ensures
        final(out)@ == old(out)@ + zeros(n as nat),
{
    let mut i: usize = 0;
    while i < n
        invariant
            i <= n,
            out@ == old(out)@ + zeros(i as nat),
        decreases n - i,
    {
        out.push(48);
        i += 1;
        assert(out@ =~= old(out)@ + zeros(i as nat));
    }
}

/// Takes the spare zeros off a magnitude, and returns what is left of it
/// with the exponent that then goes with it.
fn trim_zeros(magnitude: u64, exponent: i16) -> (trimmed: (u64, i32))
    requires
        magnitude != 0,
    ensures
        trimmed.0 == magnitude as nat / pow10(spare_zeros(magnitude as nat, exponent as int)),
        trimmed.1 == exponent + spare_zeros(magnitude as nat, exponent as int),
        trimmed.0 != 0,
        -32768 <= trimmed.1 <= 32767,
{
    let mut rest: u64 = magnitude;
    let mut left: i32 = exponent as i32;
    let ghost mut taken: nat = 0;
    assert(pow10(0) == 1);
    while left < 0 && rest % 10 == 0
        invariant
            rest != 0,
            exponent <= left <= 32767,
            taken == left - exponent,
            rest * pow10(taken) == magnitude,
            spare_zeros(magnitude as nat, exponent as int) == taken + spare_zeros(
                rest as nat,
                left as int,
            ),
        decreases -left,
    {
        proof {
            lemma_pow10_step(rest as nat, taken, magnitude as nat);
            taken = taken + 1;
        }
        rest = rest / 10;
        left = left + 1;
    }
    proof {
        lemma_pow10_divides(rest as nat, taken, magnitude as nat);
    }
    (rest, left)
}

proof fn lemma_pow10_step(rest: nat, taken: nat, full: nat)
    requires
        rest % 10 == 0,
        rest * pow10(taken) == full,
    ensures
        (rest / 10) * pow10(taken + 1) == full,
{
    let p = pow10(taken);
    assert(pow10(taken + 1) == 10 * p);
    assert((rest / 10) * (10 * p) == full) by (nonlinear_arith)
        requires
            rest % 10 == 0,
            rest * p == full,
    ;
}

proof fn lemma_pow10_divides(rest: nat, taken: nat, full: nat)
    requires
        rest * pow10(taken) == full,
    ensures
        full / pow10(taken) == rest,
{
    lemma_pow10_positive(taken);
    let p = pow10(taken);
    assert(full / p == rest) by (nonlinear_arith)
        requires
            rest * p == full,
            p >= 1,
    ;
}

proof fn lemma_pow10_positive(n: nat)
    ensures
        pow10(n) >= 1,
    decreases n,
{
    if n > 0 {
        lemma_pow10_positive((n - 1) as nat);
    }
}

/// Appends the numeral of a positive number to `out`.
fn push_magnitude(out: &mut Vec<u8>, magnitude: u64, exponent: i32)
    requires
        -32768 <= exponent <= 32767,
    ensures
        final(out)@ == old(out)@ + magnitude_text(magnitude as nat, exponent as int),
{
    let mut digits: Vec<u8> = Vec::new();
    push_decimal(&mut digits, magnitude);
    assert(digits@ =~= decimal(magnitude as nat));
    if exponent >= 0 {
        push_bytes(out, digits.as_slice());
        push_zeros(out, exponent as usize);
    } else if digits.len() > (-exponent) as usize {
        let cut = digits.len() - (-exponent) as usize;
        push_bytes(out, vstd::slice::slice_subrange(digits.as_slice(), 0, cut));
        push_text(out, ".");
        push_bytes(out, vstd::slice::slice_subrange(digits.as_slice(), cut, digits.len()));
    } else {
        push_text(out, "0.");
        push_zeros(out, (-exponent) as usize - digits.len());
        push_bytes(out, digits.as_slice());
    }
    assert(out@ =~= old(out)@ + magnitude_text(magnitude as nat, exponent as int));
}

/// Appends the text of a number to `out`.
pub fn push_number(out: &mut Vec<u8>, number: Decimal)
    ensures
        final(out)@ == old(out)@ + number_text(number.mantissa as int, number.exponent as int),
{
    if number.mantissa == 0 {
        push_text(out, "0");
        return ;
    }
    let negative = number.mantissa < 0;
    let magnitude: u64 = if negative {
        (-(number.mantissa + 1)) as u64 + 1
    } else {
        number.mantissa as u64
    };
    let (rest, exponent) = trim_zeros(magnitude, number.exponent);
    if negative {
        push_text(out, "-");
    }
    push_magnitude(out, rest, exponent);
    assert(out@ =~= old(out)@ + number_text(number.mantissa as int, number.exponent as int));
}

// ---------------------------------------------------------------------------
// Patches in order
// ---------------------------------------------------------------------------
/// Whether the cell of `p` comes before the cell at (`row`, `col`), row by
/// row and within a row column by column.
pub open spec fn before_cell(p: PatchModel, row: int, col: int) -> bool {
    p.row < row || (p.row == row && p.col < col)
}

/// Whether patches stand in ascending order of their cells, no cell twice.
pub open spec fn ascending(patches: Seq<PatchModel>) -> bool {
    forall|i: int, j: int|
        0 <= i < j < patches.len() ==> before_cell(
            #[trigger] patches[i],
            (#[trigger] patches[j]).row as int,
            patches[j].col as int,
        )
}

/// How many of the patches, counted from the front, have a cell before
/// (`row`, `col`): in ascending patches, the place of that cell.
pub open spec fn rank(patches: Seq<PatchModel>, row: int, col: int) -> int
    decreases patches.len(),
{
    if patches.len() == 0 || before_cell(patches.last(), row, col) {
        patches.len() as int
    } else {
        rank(patches.drop_last(), row, col)
    }
}

/// The patch for the cell at (`row`, `col`) among ascending patches.
pub open spec fn patch_for(patches: Seq<PatchModel>, row: int, col: int) -> Option<PatchModel> {
    let at = rank(patches, row, col);
    if at < patches.len() && patches[at].row == row && patches[at].col == col {
        Some(patches[at])
    } else {
        None
    }
}

/// Ascending patches with one more: it takes the place of the patch for the
/// same cell, if there is one, and else goes in at its place in the order.
pub open spec fn with_patch(patches: Seq<PatchModel>, p: PatchModel) -> Seq<PatchModel> {
    let at = rank(patches, p.row as int, p.col as int);
    if at < patches.len() && patches[at].row == p.row && patches[at].col == p.col {
        patches.update(at, p)
    } else {
        patches.insert(at, p)
    }
}

/// The patches in ascending order of their cells, with the last one for each
/// cell.
pub open spec fn grouped(patches: Seq<PatchModel>) -> Seq<PatchModel>
    decreases patches.len(),
{
    if patches.len() == 0 {
        Seq::empty()
    } else {
        with_patch(grouped(patches.drop_last()), patches.last())
    }
}

/// In ascending patches, the rank of a cell parts the patches before it from
/// the others.
pub proof fn lemma_rank(patches: Seq<PatchModel>, row: int, col: int)
    requires
        ascending(patches),
    ensures
        0 <= rank(patches, row, col) <= patches.len(),
        forall|i: int|
            0 <= i < rank(patches, row, col) ==> before_cell(#[trigger] patches[i], row, col),
        forall|i: int|
            rank(patches, row, col) <= i < patches.len() ==> !before_cell(
                #[trigger] patches[i],
                row,
                col,
            ),
    decreases patches.len(),
{
    if patches.len() > 0 {
        let head = patches.drop_last();
        assert(ascending(head)) by {
            assert forall|i: int, j: int| 0 <= i < j < head.len() implies before_cell(
                #[trigger] head[i],
                (#[trigger] head[j]).row as int,
                head[j].col as int,
            ) by {
                assert(head[i] == patches[i] && head[j] == patches[j]);
            }
        }
        if before_cell(patches.last(), row, col) {
            assert forall|i: int| 0 <= i < patches.len() implies before_cell(
                #[trigger] patches[i],
                row,
                col,
            ) by {
                if i < patches.len() - 1 {
                    assert(before_cell(
                        patches[i],
                        patches[patches.len() - 1].row as int,
                        patches[patches.len() - 1].col as int,
                    ));
                }
            }
        } else {
            lemma_rank(head, row, col);
            assert forall|i: int| 0 <= i < rank(patches, row, col) implies before_cell(
                #[trigger] patches[i],
                row,
                col,
            ) by {
                assert(patches[i] == head[i]);
            }
            assert forall|i: int| rank(patches, row, col) <= i < patches.len() implies !before_cell(
                #[trigger] patches[i],
                row,
                col,
            ) by {
                if i < head.len() {
                    assert(patches[i] == head[i]);
                }
            }
        }
    }
}

/// The place that parts the patches before a cell from the others is its
/// rank.
pub proof fn lemma_rank_is(patches: Seq<PatchModel>, row: int, col: int, at: int)
    requires
        0 <= at <= patches.len(),
        forall|i: int| 0 <= i < at ==> before_cell(#[trigger] patches[i], row, col),
        forall|i: int| at <= i < patches.len() ==> !before_cell(#[trigger] patches[i], row, col),
    ensures
        rank(patches, row, col) == at,
    decreases patches.len(),
{
    if patches.len() > 0 {
        if at == patches.len() {
            assert(before_cell(patches[patches.len() - 1], row, col));
        } else {
            assert(!before_cell(patches[patches.len() - 1], row, col));
            let head = patches.drop_last();
            assert forall|i: int| 0 <= i < at implies before_cell(#[trigger] head[i], row, col) by {
                assert(head[i] == patches[i]);
            }
            assert forall|i: int| at <= i < head.len() implies !before_cell(
                #[trigger] head[i],
                row,
                col,
            ) by {
                assert(head[i] == patches[i]);
            }
            lemma_rank_is(head, row, col, at);
        }
    }
}

/// Adding a patch keeps the order.
pub proof fn lemma_with_patch_ascending(patches: Seq<PatchModel>, p: PatchModel)
    requires
        ascending(patches),
    ensures
        ascending(with_patch(patches, p)),
{
    lemma_rank(patches, p.row as int, p.col as int);
    let at = rank(patches, p.row as int, p.col as int);
    let result = with_patch(patches, p);
    let replaced = at < patches.len() && patches[at].row == p.row && patches[at].col == p.col;
    assert forall|i: int, j: int| 0 <= i < j < result.len() implies before_cell(
        #[trigger] result[i],
        (#[trigger] result[j]).row as int,
        result[j].col as int,
    ) by {
        if replaced {
            if i != at && j != at {
                assert(before_cell(patches[i], patches[j].row as int, patches[j].col as int));
            } else if i == at {
                assert(before_cell(patches[at], patches[j].row as int, patches[j].col as int));
            } else {
                assert(before_cell(patches[i], p.row as int, p.col as int));
            }
        } else {
            let oi = if i < at {
                i
            } else {
                i - 1
            };
            let oj = if j < at {
                j
            } else {
                j - 1
            };
            if i == at {
                assert(result[j] == patches[oj]);
                assert(!before_cell(patches[oj], p.row as int, p.col as int));
            } else if j == at {
                assert(result[i] == patches[oi]);
                assert(before_cell(patches[oi], p.row as int, p.col as int));
            } else {
                assert(result[i] == patches[oi] && result[j] == patches[oj]);
                assert(before_cell(patches[oi], patches[oj].row as int, patches[oj].col as int));
            }
        }
    }
}

/// Grouped patches are in ascending order, with no cell twice.
pub proof fn lemma_grouped_ascending(patches: Seq<PatchModel>)
    ensures
        ascending(grouped(patches)),
    decreases patches.len(),
{
    if patches.len() > 0 {
        lemma_grouped_ascending(patches.drop_last());
        lemma_with_patch_ascending(grouped(patches.drop_last()), patches.last());
    }
}

/// Copies a value.
pub fn clone_value(value: &CellValue) -> (copy: CellValue)
    ensures
        copy@ == value@,
{
    match value {
        CellValue::Blank => CellValue::Blank,
        CellValue::Number(n) => CellValue::Number(*n),
        CellValue::String(s) => CellValue::String(s.clone()),
        CellValue::Boolean(b) => CellValue::Boolean(*b),
        CellValue::Formula(f) => CellValue::Formula(f.clone()),
    }
}

/// Copies a patch.
pub fn clone_patch(patch: &CellPatch) -> (copy: CellPatch)
    ensures
        copy@ == patch@,
{
    let value = match &patch.value {
        Some(v) => Some(clone_value(v)),
        None => None,
    };
    CellPatch { row: patch.row, col: patch.col, value, style_index: patch.style_index }
}

/// Finds the place of the cell at (`row`, `col`) among ascending patches.
fn find_rank(patches: &Vec<CellPatch>, row: u32, col: u32) -> (at: usize)
    requires
        ascending(patch_models(patches@)),
    ensures
        at == rank(patch_models(patches@), row as int, col as int),
        at <= patches.len(),
{
    let ghost models = patch_models(patches@);
    let mut lo: usize = 0;
    let mut hi: usize = patches.len();
    while lo < hi
        invariant
            0 <= lo <= hi <= patches.len(),
            models == patch_models(patches@),
            ascending(models),
            forall|i: int| 0 <= i < lo ==> before_cell(#[trigger] models[i], row as int, col as int),
            forall|i: int|
                hi <= i < models.len() ==> !before_cell(#[trigger] models[i], row as int, col as int),
        decreases hi - lo,
    {
        let mid = lo + (hi - lo) / 2;
        let p = &patches[mid];
        assert(models[mid as int] == p@);
        if p.row < row || (p.row == row && p.col < col) {
            assert forall|i: int| 0 <= i < mid + 1 implies before_cell(
                #[trigger] models[i],
                row as int,
                col as int,
            ) by {
                if i < mid {
                    assert(before_cell(
                        models[i],
                        models[mid as int].row as int,
                        models[mid as int].col as int,
                    ));
                }
            }
            lo = mid + 1;
        } else {
            assert forall|i: int| mid <= i < models.len() implies !before_cell(
                #[trigger] models[i],
                row as int,
                col as int,
            ) by {
                if i > mid {
                    assert(before_cell(
                        models[mid as int],
                        models[i].row as int,
                        models[i].col as int,
                    ));
                }
            }
            hi = mid;
        }
    }
    proof {
        lemma_rank_is(models, row as int, col as int, lo as int);
    }
    lo
}

/// Puts patches into ascending order of their cells; of several patches for
/// one cell the last one stays.
pub fn group_patches(patches: &[CellPatch]) -> (sorted: Vec<CellPatch>)
    ensures
        patch_models(sorted@) == grouped(patch_models(patches@)),
        ascending(patch_models(sorted@)),
{
    let mut sorted: Vec<CellPatch> = Vec::new();
    let mut i: usize = 0;
    assert(patch_models(sorted@) =~= grouped(patch_models(patches@).subrange(0, 0)));
    while i < patches.len()
        invariant
            i <= patches.len(),
            patch_models(sorted@) == grouped(patch_models(patches@).subrange(0, i as int)),
            ascending(patch_models(sorted@)),
        decreases patches.len() - i,
    {
        let ghost before = patch_models(sorted@);
        let ghost next = patch_models(patches@).subrange(0, i + 1);
        assert(next.drop_last() =~= patch_models(patches@).subrange(0, i as int));
        assert(next.last() == patches@[i as int]@);
        let p = clone_patch(&patches[i]);
        let at = find_rank(&sorted, p.row, p.col);
        proof {
            lemma_with_patch_ascending(before, p@);
        }
        if at < sorted.len() && sorted[at].row == p.row && sorted[at].col == p.col {
            assert(before[at as int] == sorted@[at as int]@);
            sorted.set(at, p);
            assert(patch_models(sorted@) =~= before.update(at as int, p@));
        } else {
            if at < sorted.len() {
                assert(before[at as int] == sorted@[at as int]@);
            }
            sorted.insert(at, p);
            assert(patch_models(sorted@) =~= before.insert(at as int, p@));
        }
        i += 1;
    }
    assert(patch_models(patches@).subrange(0, patches.len() as int) =~= patch_models(patches@));
    sorted
}

// ---------------------------------------------------------------------------
// Cells and rows as events
// ---------------------------------------------------------------------------
/// An event of the given kind and content.
pub open spec fn event(kind: EventKind, content: Seq<u8>) -> EventModel {
    EventModel { kind, content }
}

/// An attribute as it stands in a tag: a blank, the key, and the value
/// between double quotes.
pub open spec fn attribute_text(key: Seq<u8>, value: Seq<u8>) -> Seq<u8> {
    utf8(" "@) + key + utf8("=\""@) + value + utf8("\""@)
}

/// The style attribute of a cell: none for no style and for style 0, which
/// is the default.
pub open spec fn style_text(style: Option<u32>) -> Seq<u8> {
    match style {
        Some(s) if s > 0 => attribute_text(utf8("s"@), decimal(s as nat)),
        _ => Seq::empty(),
    }
}

/// The type attribute of a cell: `str` marks an inline string, `b` a truth
/// value; numbers, formulas and empty cells have none.
pub open spec fn type_text(value: Option<ValueModel>) -> Seq<u8> {
    match value {
        Some(ValueModel::Text(_)) => attribute_text(utf8("t"@), utf8("str"@)),
        Some(ValueModel::Boolean(_)) => attribute_text(utf8("t"@), utf8("b"@)),
        _ => Seq::empty(),
    }
}

/// The content of the tag of a new cell element: the name `c`, the
/// reference, the style and the type.
pub open spec fn cell_tag(cell: Seq<u8>, style: Option<u32>, value: Option<ValueModel>) -> Seq<
    u8,
> {
    utf8("c"@) + attribute_text(utf8("r"@), escaped(cell, true)) + style_text(style) + type_text(
        value,
    )
}

/// An element that holds text and nothing else.
pub open spec fn text_element(name: Seq<u8>, text: Seq<u8>) -> Seq<EventModel> {
    seq![event(EventKind::Start, name), event(EventKind::Text, text), event(EventKind::End, name)]
}

/// What stands inside a cell element that holds the given value: a `v`
/// element with the text of a number, string or truth value, or an `f`
/// element with a formula and no cached value beside it.
pub open spec fn value_events(value: ValueModel) -> Seq<EventModel> {
    match value {
        ValueModel::Blank => Seq::empty(),
        ValueModel::Number { mantissa, exponent } => text_element(
            utf8("v"@),
            number_text(mantissa, exponent),
        ),
        ValueModel::Text(s) => text_element(utf8("v"@), escaped(s, true)),
        ValueModel::Boolean(b) => text_element(
            utf8("v"@),
            if b {
                utf8("1"@)
            } else {
                utf8("0"@)
            },
        ),
        ValueModel::Formula(f) => text_element(utf8("f"@), escaped(f, true)),
    }
}

/// A whole new cell element.  Without a value, and with a blank one, it is a
/// self-closed tag.
pub open spec fn cell_events(cell: Seq<u8>, style: Option<u32>, value: Option<ValueModel>) -> Seq<
    EventModel,
> {
    let tag = cell_tag(cell, style, value);
    match value {
        None => seq![event(EventKind::Empty, tag)],
        Some(ValueModel::Blank) => seq![event(EventKind::Empty, tag)],
        Some(v) => seq![event(EventKind::Start, tag)] + value_events(v) + seq![
            event(EventKind::End, utf8("c"@)),
        ],
    }
}

/// The first of two optional styles that is there.
pub open spec fn either(first: Option<u32>, second: Option<u32>) -> Option<u32> {
    match first {
        Some(s) => Some(s),
        None => second,
    }
}

/// The cell element that a patch puts where the sheet had no cell.
pub open spec fn new_cell(p: PatchModel) -> Seq<EventModel> {
    cell_events(a1_of(p.col as nat, p.row as nat), p.style, p.value)
}

/// The content of the tag of a new row element.
pub open spec fn row_tag(row: u32) -> Seq<u8> {
    utf8("row"@) + attribute_text(utf8("r"@), decimal(row as nat))
}

/// What the patch at index `i` of ascending patches adds to the new rows: its
/// cell, after the opening tag of the row if it is the first patch of its
/// row, and before the closing tag if it is the last.
pub open spec fn row_piece(np: Seq<PatchModel>, i: int) -> Seq<EventModel> {
    let first = i == 0 || np[i - 1].row != np[i].row;
    let last = i + 1 == np.len() || np[i + 1].row != np[i].row;
    (if first {
        seq![event(EventKind::Start, row_tag(np[i].row))]
    } else {
        Seq::empty()
    }) + new_cell(np[i]) + (if last {
        seq![event(EventKind::End, utf8("row"@))]
    } else {
        Seq::empty()
    })
}

/// The new rows that the patches from index `from` up to `to` make, in
/// order, without the rows in `skip`.
pub open spec fn row_pieces(np: Seq<PatchModel>, skip: Set<u32>, from: int, to: int) -> Seq<
    EventModel,
>
    decreases to - from,
{
    if to <= from {
        Seq::empty()
    } else {
        row_pieces(np, skip, from, to - 1) + (if skip.contains(np[to - 1].row) {
            Seq::empty()
        } else {
            row_piece(np, to - 1)
        })
    }
}

/// The new cells that the patches from index `from` up to `to` add to a row,
/// in order, without the columns in `skip`.
pub open spec fn cell_pieces(np: Seq<PatchModel>, skip: Set<u32>, from: int, to: int) -> Seq<
    EventModel,
>
    decreases to - from,
{
    if to <= from {
        Seq::empty()
    } else {
        cell_pieces(np, skip, from, to - 1) + (if skip.contains(np[to - 1].col) {
            Seq::empty()
        } else {
            new_cell(np[to - 1])
        })
    }
}

/// Appends an event to `out`.
fn emit(out: &mut Vec<XmlEvent>, kind: EventKind, content: Vec<u8>)
    ensures
        models(final(out)@) == models(old(out)@).push(event(kind, content@)),
{
    out.push(XmlEvent { kind, content });
    assert(models(out@) =~= models(old(out)@).push(event(kind, content@)));
}

/// Appends a copy of an event to `out`.
fn emit_copy(out: &mut Vec<XmlEvent>, source: &XmlEvent)
    ensures
        models(final(out)@) == models(old(out)@).push(source@),
{
    let content = source.content.clone();
    assert(content@ =~= source.content@);
    emit(out, source.kind, content);
}

/// Appends an attribute to the content of a tag.
fn push_attribute(tag: &mut Vec<u8>, key: &[u8], value: &[u8])
    ensures
        final(tag)@ == old(tag)@ + attribute_text(key@, value@),
{
    push_text(tag, " ");
    push_bytes(tag, key);
    push_text(tag, "=\"");
    push_bytes(tag, value);
    push_text(tag, "\"");
    assert(tag@ =~= old(tag)@ + attribute_text(key@, value@));
}

/// Appends the style attribute of a cell to the content of its tag.
fn push_style(tag: &mut Vec<u8>, style: Option<u32>)
    ensures
        final(tag)@ == old(tag)@ + style_text(style),
{
    match style {
        Some(s) => {
            if s > 0 {
                let mut digits: Vec<u8> = Vec::new();
                push_decimal(&mut digits, s as u64);
                assert(digits@ =~= decimal(s as nat));
                push_attribute(tag, "s".as_bytes(), digits.as_slice());
            } else {
                assert(tag@ =~= old(tag)@ + style_text(style));
            }
        },
        None => {
            assert(tag@ =~= old(tag)@ + style_text(style));
        },
    }
}

/// Appends the reference attribute of a cell to the content of its tag.
fn push_reference(tag: &mut Vec<u8>, cell_ref: &[u8])
    ensures
        final(tag)@ == old(tag)@ + attribute_text(utf8("r"@), escaped(cell_ref@, true)),
{
    let mut value: Vec<u8> = Vec::new();
    crate::xml::push_escaped(&mut value, cell_ref, true);
    assert(value@ =~= escaped(cell_ref@, true));
    push_attribute(tag, "r".as_bytes(), value.as_slice());
}

/// Appends an element that holds text and nothing else.
fn emit_text_element(out: &mut Vec<XmlEvent>, name: &str, text: Vec<u8>)
    ensures
        models(final(out)@) == models(old(out)@) + text_element(utf8(name@), text@),
{
    let mut open: Vec<u8> = Vec::new();
    push_text(&mut open, name);
    let mut close: Vec<u8> = Vec::new();
    push_text(&mut close, name);
    assert(open@ =~= utf8(name@) && close@ =~= utf8(name@));
    emit(out, EventKind::Start, open);
    emit(out, EventKind::Text, text);
    emit(out, EventKind::End, close);
    assert(models(out@) =~= models(old(out)@) + text_element(utf8(name@), text@));
}

/// Appends what stands inside a cell element that holds `value`.
fn emit_value(out: &mut Vec<XmlEvent>, value: &CellValue)
    ensures
        models(final(out)@) == models(old(out)@) + value_events(value@),
{
    match value {
        CellValue::Blank => {
            assert(models(out@) =~= models(old(out)@) + value_events(value@));
        },
        CellValue::Number(n) => {
            let mut text: Vec<u8> = Vec::new();
            push_number(&mut text, *n);
            assert(text@ =~= number_text(n.mantissa as int, n.exponent as int));
            emit_text_element(out, "v", text);
        },
        CellValue::String(s) => {
            let mut text: Vec<u8> = Vec::new();
            crate::xml::push_escaped(&mut text, s.as_str().as_bytes(), true);
            assert(text@ =~= escaped(utf8(s@), true));
            emit_text_element(out, "v", text);
        },
        CellValue::Boolean(b) => {
            let mut text: Vec<u8> = Vec::new();
            if *b {
                push_text(&mut text, "1");
            } else {
                push_text(&mut text, "0");
            }
            assert(text@ =~= if *b {
                utf8("1"@)
            } else {
                utf8("0"@)
            });
            emit_text_element(out, "v", text);
        },
        CellValue::Formula(f) => {
            let mut text: Vec<u8> = Vec::new();
            crate::xml::push_escaped(&mut text, f.as_str().as_bytes(), true);
            assert(text@ =~= escaped(utf8(f@), true));
            emit_text_element(out, "f", text);
        },
    }
}

/// Writes a whole cell element that stands for the patch: with its value,
/// and with its style, or with `old_style` where it has none.
pub fn write_patched_cell(
    out: &mut Vec<XmlEvent>,
    cell_ref: &[u8],
    old_style: Option<u32>,
    patch: &CellPatch,
)
    ensures
        models(final(out)@) == models(old(out)@) + cell_events(
            cell_ref@,
            either(patch.style_index, old_style),
            patch@.value,
        ),
{
    let style = match patch.style_index {
        Some(s) => Some(s),
        None => old_style,
    };
    let mut tag: Vec<u8> = Vec::new();
    push_text(&mut tag, "c");
    push_reference(&mut tag, cell_ref);
    push_style(&mut tag, style);
    match &patch.value {
        Some(CellValue::String(_)) => {
            push_attribute(&mut tag, "t".as_bytes(), "str".as_bytes());
        },
        Some(CellValue::Boolean(_)) => {
            push_attribute(&mut tag, "t".as_bytes(), "b".as_bytes());
        },
        _ => {},
    }
    assert(tag@ =~= cell_tag(cell_ref@, style, patch@.value));
    match &patch.value {
        None => {
            emit(out, EventKind::Empty, tag);
            assert(models(out@) =~= models(old(out)@) + cell_events(cell_ref@, style, patch@.value));
        },
        Some(CellValue::Blank) => {
            emit(out, EventKind::Empty, tag);
            assert(models(out@) =~= models(old(out)@) + cell_events(cell_ref@, style, patch@.value));
        },
        Some(value) => {
            emit(out, EventKind::Start, tag);
            emit_value(out, value);
            let mut close: Vec<u8> = Vec::new();
            push_text(&mut close, "c");
            assert(close@ =~= utf8("c"@));
            emit(out, EventKind::End, close);
            assert(models(out@) =~= models(old(out)@) + cell_events(cell_ref@, style, patch@.value));
        },
    }
}

/// Writes the cell element that a patch puts where the sheet had no cell.
pub fn write_new_cell(out: &mut Vec<XmlEvent>, patch: &CellPatch)
    ensures
        models(final(out)@) == models(old(out)@) + new_cell(patch@),
{
    let mut cell_ref: Vec<u8> = Vec::new();
    push_a1(&mut cell_ref, patch.col, patch.row);
    assert(cell_ref@ =~= a1_of(patch.col as nat, patch.row as nat));
    write_patched_cell(out, cell_ref.as_slice(), None, patch);
}

// ---------------------------------------------------------------------------
// What the tags of a sheet say
// ---------------------------------------------------------------------------
/// The number of a row element: its attribute `r`, or 0 where that is
/// missing or no number.
pub open spec fn row_number(content: Seq<u8>) -> u32 {
    match attr_value_of(content, utf8("r"@)) {
        Some(v) => match parsed_u32(v) {
            Some(n) => n,
            None => 0,
        },
        None => 0,
    }
}

/// The reference of a cell element: its attribute `r`, or nothing where that
/// is missing.
pub open spec fn cell_ref_of(content: Seq<u8>) -> Seq<u8> {
    match attr_value_of(content, utf8("r"@)) {
        Some(v) => v,
        None => Seq::empty(),
    }
}

/// The column of a cell element, from the letters of its reference.
pub open spec fn cell_column(content: Seq<u8>) -> u32 {
    ref_column(cell_ref_of(content)) as u32
}

/// The style of a cell element: its attribute `s`, where that is a number.
pub open spec fn cell_style(content: Seq<u8>) -> Option<u32> {
    match attr_value_of(content, utf8("s"@)) {
        Some(v) => parsed_u32(v),
        None => None,
    }
}

/// The attributes of a cell that a change of style leaves alone, as they
/// stand in the tag: all but the reference and the style.  `None` where the
/// parser reported an error among the attributes.
pub open spec fn kept_attributes(attrs: Seq<Option<AttrModel>>) -> Option<Seq<u8>>
    decreases attrs.len(),
{
    if attrs.len() == 0 {
        Some(Seq::empty())
    } else {
        match (kept_attributes(attrs.drop_last()), attrs.last()) {
            (Some(kept), Some(a)) => Some(
                if a.key == utf8("r"@) || a.key == utf8("s"@) {
                    kept
                } else {
                    kept + attribute_text(a.key, a.value)
                },
            ),
            _ => None,
        }
    }
}

/// The content of the tag of a cell after a change of style alone: the
/// attributes that are kept, then the reference, then the style, which is
/// `style` or, where that is `None`, the one that the cell had.
pub open spec fn restyled_tag(content: Seq<u8>, style: Option<u32>) -> Option<Seq<u8>> {
    match kept_attributes(attributes_of(content, true)) {
        Some(kept) => Some(
            utf8("c"@) + kept + attribute_text(utf8("r"@), escaped(cell_ref_of(content), true))
                + style_text(either(style, cell_style(content))),
        ),
        None => None,
    }
}

/// Reads the number of a row element.
pub fn read_row_number(content: &[u8]) -> (n: u32)
    ensures
        n == row_number(content@),
{
    match attr_value(content, "r") {
        Some(v) => match parse_u32(v.as_str().as_bytes()) {
            Some(n) => n,
            None => 0,
        },
        None => 0,
    }
}

/// Reads the reference of a cell element.
pub fn read_cell_ref(content: &[u8]) -> (cell_ref: String)
    ensures
        utf8(cell_ref@) == cell_ref_of(content@),
{
    match attr_value(content, "r") {
        Some(v) => v,
        None => {
            let none = String::new();
            assert(utf8(none@) =~= Seq::<u8>::empty());
            none
        },
    }
}

/// Reads the style of a cell element.
pub fn read_style(content: &[u8]) -> (style: Option<u32>)
    ensures
        style == cell_style(content@),
{
    match attr_value(content, "s") {
        Some(v) => parse_u32(v.as_str().as_bytes()),
        None => None,
    }
}

/// Builds the content of the tag of a cell for a change of style alone; see
/// [`restyled_tag`].
pub fn write_style_only_cell_start(content: &[u8], style: Option<u32>) -> (tag: Option<Vec<u8>>)
    ensures
        match tag {
            Some(t) => restyled_tag(content@, style) == Some(t@),
            None => restyled_tag(content@, style).is_none(),
        },
{
    let attrs = attributes(content, true);
    let ghost list = attributes_of(content@, true);
    let mut tag: Vec<u8> = Vec::new();
    push_text(&mut tag, "c");
    let mut i: usize = 0;
    assert(list.subrange(0, 0) =~= Seq::empty());
    while i < attrs.len()
        invariant
            i <= attrs.len(),
            attr_models(attrs@) == list,
            list == attributes_of(content@, true),
            kept_attributes(list.subrange(0, i as int)) matches Some(kept) && tag@ == utf8("c"@)
                + kept,
        decreases attrs.len() - i,
    {
        let ghost next = list.subrange(0, i + 1);
        assert(next.drop_last() =~= list.subrange(0, i as int));
        assert(next.last() == attr_model(attrs@[i as int]));
        match &attrs[i] {
            Some(attr) => {
                let is_ref = crate::text::bytes_eq(attr.key.as_slice(), "r".as_bytes());
                let is_style = crate::text::bytes_eq(attr.key.as_slice(), "s".as_bytes());
                if !is_ref && !is_style {
                    push_attribute(&mut tag, attr.key.as_slice(), attr.value.as_slice());
                    assert(tag@ =~= utf8("c"@) + (kept_attributes(next.drop_last()).unwrap()
                        + attribute_text(attr.key@, attr.value@)));
                }
            },
            None => {
                proof {
                    lemma_kept_attributes_fail(list, i as int);
                }
                return None;
            },
        }
        i += 1;
    }
    assert(list.subrange(0, attrs.len() as int) =~= list);
    let cell_ref = read_cell_ref(content);
    push_reference(&mut tag, cell_ref.as_str().as_bytes());
    let kept = read_style(content);
    let chosen = match style {
        Some(s) => Some(s),
        None => kept,
    };
    push_style(&mut tag, chosen);
    assert(tag@ =~= restyled_tag(content@, style).unwrap());
    Some(tag)
}

/// An error among the attributes leaves no kept attributes, wherever it
/// stands.
pub proof fn lemma_kept_attributes_fail(attrs: Seq<Option<AttrModel>>, at: int)
    requires
        0 <= at < attrs.len(),
        attrs[at].is_none(),
    ensures
        kept_attributes(attrs).is_none(),
    decreases attrs.len(),
{
    if at < attrs.len() - 1 {
        lemma_kept_attributes_fail(attrs.drop_last(), at);
    }
}

// ---------------------------------------------------------------------------
// The pass over a sheet
// ---------------------------------------------------------------------------
/// Where a pass over the events of a sheet stands.
pub struct Walk {
    /// Whether the pass is inside the `sheetData` element.
    pub in_sheet_data: bool,
    /// The number of the row element that the pass is in.
    pub row: Option<u32>,
    /// The columns of the cells that the current row has shown so far.
    pub cols_seen: Set<u32>,
    /// The rows that need no new row element any more: the sheet has shown
    /// them or a later one, or they have been written.
    pub settled: Set<u32>,
    /// Whether the pass is inside a cell element that it has replaced, whose
    /// content it drops.
    pub skipping: bool,
    /// Whether the pass has met attributes that it could not copy.
    pub failed: bool,
    /// The events written so far.
    pub output: Seq<EventModel>,
}

/// The pass before its first event.
pub open spec fn start_walk() -> Walk {
    Walk {
        in_sheet_data: false,
        row: None,
        cols_seen: Set::empty(),
        settled: Set::empty(),
        skipping: false,
        failed: false,
        output: Seq::empty(),
    }
}

/// An event that the pass does not look into: it is handed on, unless it
/// stands inside a replaced cell.
pub open spec fn pass(w: Walk, ev: EventModel) -> Walk {
    if w.skipping {
        w
    } else {
        Walk { output: w.output.push(ev), ..w }
    }
}

/// Before the row `n` of the sheet, the pass writes the rows below `n` that
/// have patches and are not settled, in ascending order.  After that every
/// row up to `n` is settled.
pub open spec fn enter_row(w: Walk, n: u32, np: Seq<PatchModel>) -> Walk {
    Walk {
        output: w.output + row_pieces(np, w.settled, 0, rank(np, n as int, 0)),
        settled: Set::new(|r: u32| w.settled.contains(r) || r <= n),
        ..w
    }
}

/// The patch for the cell in column `col` of the current row.
pub open spec fn current_patch(row: Option<u32>, col: u32, np: Seq<PatchModel>) -> Option<
    PatchModel,
> {
    match row {
        Some(r) => patch_for(np, r as int, col as int),
        None => None,
    }
}

/// A cell element of the sheet.  Without a patch it is handed on.  A patch
/// without a value changes the tag alone, so that what the cell holds
/// stays; a patch with a value puts a new element in place of the old one,
/// whose content, where it has any (`open`), is then dropped.
pub open spec fn at_cell(w: Walk, ev: EventModel, np: Seq<PatchModel>, open: bool) -> Walk {
    let col = cell_column(ev.content);
    let seen = Walk { cols_seen: w.cols_seen.insert(col), ..w };
    match current_patch(w.row, col, np) {
        None => Walk { output: seen.output.push(ev), ..seen },
        Some(p) => match p.value {
            None => match restyled_tag(ev.content, p.style) {
                Some(tag) => Walk { output: seen.output.push(event(ev.kind, tag)), ..seen },
                None => Walk { failed: true, ..seen },
            },
            Some(_) => Walk {
                output: seen.output + cell_events(
                    cell_ref_of(ev.content),
                    either(p.style, cell_style(ev.content)),
                    p.value,
                ),
                skipping: open || seen.skipping,
                ..seen
            },
        },
    }
}

/// An opening tag.
pub open spec fn at_start(w: Walk, ev: EventModel, np: Seq<PatchModel>) -> Walk {
    let name = tag_name(ev.content);
    if name == utf8("sheetData"@) {
        Walk { in_sheet_data: true, output: w.output.push(ev), ..w }
    } else if name == utf8("row"@) && w.in_sheet_data {
        let n = row_number(ev.content);
        let entered = enter_row(w, n, np);
        Walk {
            row: Some(n),
            cols_seen: Set::empty(),
            output: entered.output.push(ev),
            ..entered
        }
    } else if name == utf8("c"@) && w.in_sheet_data {
        at_cell(w, ev, np, true)
    } else {
        pass(w, ev)
    }
}

/// A self-closed tag.  A row without cells becomes a whole row where it has
/// patches, and so does a `sheetData` element without rows.
pub open spec fn at_empty(w: Walk, ev: EventModel, np: Seq<PatchModel>) -> Walk {
    let name = tag_name(ev.content);
    if name == utf8("row"@) && w.in_sheet_data {
        let n = row_number(ev.content);
        let entered = enter_row(w, n, np);
        let from = rank(np, n as int, 0);
        let to = rank(np, n + 1, 0);
        Walk {
            output: entered.output + (if from < to {
                row_pieces(np, Set::empty(), from, to)
            } else {
                seq![ev]
            }),
            ..entered
        }
    } else if name == utf8("c"@) && w.in_sheet_data {
        at_cell(w, ev, np, false)
    } else if name == utf8("sheetData"@) {
        Walk {
            output: w.output.push(event(EventKind::Start, utf8("sheetData"@))) + row_pieces(
                np,
                Set::empty(),
                0,
                np.len() as int,
            ) + seq![event(EventKind::End, utf8("sheetData"@))],
            settled: Set::full(),
            ..w
        }
    } else {
        pass(w, ev)
    }
}

/// A closing tag.  Before a row closes, the pass writes the patched cells
/// that the row did not show, in ascending order; before `sheetData` closes,
/// the rows with patches that are not settled, after which every row is
/// settled.
pub open spec fn at_end(w: Walk, ev: EventModel, np: Seq<PatchModel>) -> Walk {
    let name = ev.content;
    if name == utf8("c"@) && w.skipping {
        Walk { skipping: false, ..w }
    } else if name == utf8("row"@) && w.in_sheet_data {
        let cells = match w.row {
            Some(r) => cell_pieces(np, w.cols_seen, rank(np, r as int, 0), rank(np, r + 1, 0)),
            None => Seq::empty(),
        };
        Walk { row: None, output: (w.output + cells).push(ev), ..w }
    } else if name == utf8("sheetData"@) && w.in_sheet_data {
        Walk {
            in_sheet_data: false,
            settled: Set::full(),
            output: (w.output + row_pieces(np, w.settled, 0, np.len() as int)).push(ev),
            ..w
        }
    } else {
        pass(w, ev)
    }
}

/// One event of the sheet.
#[verifier::opaque]
pub open spec fn step(w: Walk, ev: EventModel, np: Seq<PatchModel>) -> Walk {
    if w.failed {
        w
    } else {
        match ev.kind {
            EventKind::Start => at_start(w, ev, np),
            EventKind::Empty => at_empty(w, ev, np),
            EventKind::End => at_end(w, ev, np),
            _ => pass(w, ev),
        }
    }
}

/// The pass over all events of a sheet, with ascending patches.
pub open spec fn walk(events: Seq<EventModel>, np: Seq<PatchModel>) -> Walk
    decreases events.len(),
{
    if events.len() == 0 {
        start_walk()
    } else {
        step(walk(events.drop_last(), np), events.last(), np)
    }
}

/// The events of a sheet after patching, or `None` where a cell whose style
/// alone changes has attributes that cannot be copied.
pub open spec fn patched(events: Seq<EventModel>, np: Seq<PatchModel>) -> Option<Seq<EventModel>> {
    let end = walk(events, np);
    if end.failed {
        None
    } else {
        Some(end.output)
    }
}

/// The patches of one row stand together: from the rank of the row to the
/// rank of the next.
pub proof fn lemma_row_span(np: Seq<PatchModel>, r: int)
    requires
        ascending(np),
    ensures
        0 <= rank(np, r, 0) <= rank(np, r + 1, 0) <= np.len(),
        forall|i: int|
            0 <= i < np.len() ==> ((#[trigger] np[i]).row == r <==> rank(np, r, 0) <= i < rank(
                np,
                r + 1,
                0,
            )),
        forall|i: int| 0 <= i < rank(np, r, 0) ==> (#[trigger] np[i]).row < r,
        forall|i: int| rank(np, r + 1, 0) <= i < np.len() ==> (#[trigger] np[i]).row > r,
{
    lemma_rank(np, r, 0);
    lemma_rank(np, r + 1, 0);
    let lo = rank(np, r, 0);
    let hi = rank(np, r + 1, 0);
    if hi < lo {
        assert(before_cell(np[hi], r, 0));
        assert(!before_cell(np[hi], r + 1, 0));
    }
    assert forall|i: int| 0 <= i < np.len() implies ((#[trigger] np[i]).row == r <==> lo <= i
        < hi) by {
        if i < lo {
            assert(before_cell(np[i], r, 0));
        } else {
            assert(!before_cell(np[i], r, 0));
        }
        if i < hi {
            assert(before_cell(np[i], r + 1, 0));
        } else {
            assert(!before_cell(np[i], r + 1, 0));
        }
    }
    assert forall|i: int| 0 <= i < lo implies (#[trigger] np[i]).row < r by {
        assert(before_cell(np[i], r, 0));
    }
    assert forall|i: int| hi <= i < np.len() implies (#[trigger] np[i]).row > r by {
        assert(!before_cell(np[i], r + 1, 0));
    }
}

/// New rows can be written in two parts.
pub proof fn lemma_row_pieces_split(
    np: Seq<PatchModel>,
    skip: Set<u32>,
    from: int,
    mid: int,
    to: int,
)
    requires
        from <= mid <= to,
    ensures
        row_pieces(np, skip, from, to) == row_pieces(np, skip, from, mid) + row_pieces(
            np,
            skip,
            mid,
            to,
        ),
    decreases to - mid,
{
    if mid < to {
        lemma_row_pieces_split(np, skip, from, mid, to - 1);
        assert(row_pieces(np, skip, from, to) =~= row_pieces(np, skip, from, mid) + row_pieces(
            np,
            skip,
            mid,
            to,
        ));
    } else {
        assert(row_pieces(np, skip, from, to) =~= row_pieces(np, skip, from, mid) + row_pieces(
            np,
            skip,
            mid,
            to,
        ));
    }
}

/// Patches whose rows are all skipped make no new rows.
pub proof fn lemma_row_pieces_skipped(np: Seq<PatchModel>, skip: Set<u32>, from: int, to: int)
    requires
        0 <= from,
        to <= np.len(),
        forall|i: int| from <= i < to ==> skip.contains((#[trigger] np[i]).row),
    ensures
        row_pieces(np, skip, from, to) == Seq::<EventModel>::empty(),
    decreases to - from,
{
    if from < to {
        lemma_row_pieces_skipped(np, skip, from, to - 1);
        assert(skip.contains(np[to - 1].row));
    }
}

/// Only what the skipped set says of the rows in range matters.
pub proof fn lemma_row_pieces_same(
    np: Seq<PatchModel>,
    skip: Set<u32>,
    other: Set<u32>,
    from: int,
    to: int,
)
    requires
        0 <= from,
        to <= np.len(),
        forall|i: int|
            from <= i < to ==> (skip.contains((#[trigger] np[i]).row) <==> other.contains(np[i].row)),
    ensures
        row_pieces(np, skip, from, to) == row_pieces(np, other, from, to),
    decreases to - from,
{
    if from < to {
        lemma_row_pieces_same(np, skip, other, from, to - 1);
        assert(skip.contains(np[to - 1].row) <==> other.contains(np[to - 1].row));
    }
}

/// Why a sheet could not be patched.
#[derive(Debug, Clone, Copy, PartialEq, Eq, Structural)]
pub enum PatchError {
    /// The parser rejected the sheet.
    Malformed,
    /// A cell whose style alone changes has attributes that cannot be
    /// copied.
    Attributes,
    /// The patched sheet is not valid UTF-8.
    NotUtf8,
}

/// The running state of a pass: the flags of [`Walk`], and for each patch
/// whether its row is settled and whether the current row has shown its
/// cell.
struct Walker {
    in_sheet_data: bool,
    row: Option<u32>,
    row_lo: usize,
    row_hi: usize,
    skipping: bool,
    done: Vec<bool>,
    cell_done: Vec<bool>,
    low: usize,
    out: Vec<XmlEvent>,
}

impl Walker {
    #[verifier::opaque]
    spec fn agrees(&self, w: Walk, np: Seq<PatchModel>) -> bool {
        &&& !w.failed
        &&& self.in_sheet_data == w.in_sheet_data
        &&& self.row == w.row
        &&& self.skipping == w.skipping
        &&& models(self.out@) == w.output
        &&& self.done@.len() == np.len()
        &&& self.cell_done@.len() == np.len()
        &&& forall|i: int|
            0 <= i < np.len() ==> (#[trigger] self.done@[i]) == w.settled.contains(np[i].row)
        &&& self.low <= np.len()
        &&& forall|i: int| 0 <= i < self.low ==> #[trigger] self.done@[i]
        &&& (self.row matches Some(r) ==> {
            &&& self.row_lo == rank(np, r as int, 0)
            &&& self.row_hi == rank(np, r + 1, 0)
            &&& forall|i: int|
                self.row_lo <= i < self.row_hi ==> (#[trigger] self.cell_done@[i])
                    == w.cols_seen.contains(np[i].col)
        })
    }
}

/// Writes what the patch at index `i` adds to the new rows; see
/// [`row_piece`].
fn write_row_piece(out: &mut Vec<XmlEvent>, np: &Vec<CellPatch>, i: usize)
    requires
        i < np.len(),
    ensures
        models(final(out)@) == models(old(out)@) + row_piece(patch_models(np@), i as int),
{
    let ghost npm = patch_models(np@);
    assert(npm[i as int] == np@[i as int]@);
    let row = np[i].row;
    let first = i == 0 || np[i - 1].row != row;
    let last = i + 1 == np.len() || np[i + 1].row != row;
    if i > 0 {
        assert(npm[i - 1] == np@[i - 1]@);
    }
    if i + 1 < np.len() {
        assert(npm[i + 1] == np@[i + 1]@);
    }
    let ghost start = models(out@);
    if first {
        let mut tag: Vec<u8> = Vec::new();
        push_text(&mut tag, "row");
        let mut digits: Vec<u8> = Vec::new();
        push_decimal(&mut digits, row as u64);
        assert(digits@ =~= decimal(row as nat));
        push_attribute(&mut tag, "r".as_bytes(), digits.as_slice());
        assert(tag@ =~= row_tag(row));
        emit(out, EventKind::Start, tag);
    }
    write_new_cell(out, &np[i]);
    if last {
        let mut close: Vec<u8> = Vec::new();
        push_text(&mut close, "row");
        assert(close@ =~= utf8("row"@));
        emit(out, EventKind::End, close);
    }
    assert(models(out@) =~= start + row_piece(npm, i as int));
}

/// Writes the new rows of the patches from `from` up to `to`; with `heed`,
/// without those whose row is settled.
fn write_rows(
    out: &mut Vec<XmlEvent>,
    np: &Vec<CellPatch>,
    done: &Vec<bool>,
    heed: bool,
    from: usize,
    to: usize,
    Ghost(skip): Ghost<Set<u32>>,
)
    requires
        from <= to <= np.len(),
        done.len() == np.len(),
        heed ==> forall|i: int|
            from <= i < to ==> (#[trigger] done@[i]) == skip.contains(np@[i].row),
        !heed ==> skip == Set::<u32>::empty(),
    ensures
        models(final(out)@) == models(old(out)@) + row_pieces(
            patch_models(np@),
            skip,
            from as int,
            to as int,
        ),
{
    let ghost npm = patch_models(np@);
    let mut i: usize = from;
    assert(models(out@) =~= models(old(out)@) + row_pieces(npm, skip, from as int, from as int));
    while i < to
        invariant
            from <= i <= to <= np.len(),
            done.len() == np.len(),
            npm == patch_models(np@),
            heed ==> forall|k: int|
                from <= k < to ==> (#[trigger] done@[k]) == skip.contains(np@[k].row),
            !heed ==> skip == Set::<u32>::empty(),
            models(out@) == models(old(out)@) + row_pieces(npm, skip, from as int, i as int),
        decreases to - i,
    {
        assert(npm[i as int] == np@[i as int]@);
        if !(heed && done[i]) {
            write_row_piece(out, np, i);
            assert(!skip.contains(npm[i as int].row));
            assert(models(out@) =~= models(old(out)@) + (row_pieces(npm, skip, from as int, i as int)
                + row_piece(npm, i as int)));
        } else {
            assert(skip.contains(npm[i as int].row));
            assert(models(out@) =~= models(old(out)@) + (row_pieces(npm, skip, from as int, i as int)
                + Seq::<EventModel>::empty()));
        }
        i += 1;
    }
}

/// Writes the new cells of the patches from `from` up to `to` whose cell the
/// row has not shown.
fn write_cells(
    out: &mut Vec<XmlEvent>,
    np: &Vec<CellPatch>,
    cell_done: &Vec<bool>,
    from: usize,
    to: usize,
    Ghost(skip): Ghost<Set<u32>>,
)
    requires
        from <= to <= np.len(),
        cell_done.len() == np.len(),
        forall|i: int| from <= i < to ==> (#[trigger] cell_done@[i]) == skip.contains(np@[i].col),
    ensures
        models(final(out)@) == models(old(out)@) + cell_pieces(
            patch_models(np@),
            skip,
            from as int,
            to as int,
        ),
{
    let ghost npm = patch_models(np@);
    let mut i: usize = from;
    assert(models(out@) =~= models(old(out)@) + cell_pieces(npm, skip, from as int, from as int));
    while i < to
        invariant
            from <= i <= to <= np.len(),
            cell_done.len() == np.len(),
            npm == patch_models(np@),
            forall|k: int|
                from <= k < to ==> (#[trigger] cell_done@[k]) == skip.contains(np@[k].col),
            models(out@) == models(old(out)@) + cell_pieces(npm, skip, from as int, i as int),
        decreases to - i,
    {
        assert(npm[i as int] == np@[i as int]@);
        if !cell_done[i] {
            write_new_cell(out, &np[i]);
        }
        assert(models(out@) =~= models(old(out)@) + cell_pieces(npm, skip, from as int, i + 1));
        i += 1;
    }
}

/// Sets the flags from `from` up to `to`.
fn set_flags(flags: &mut Vec<bool>, from: usize, to: usize, value: bool)
    requires
        from <= to <= old(flags).len(),
    ensures
        final(flags)@.len() == old(flags)@.len(),
        forall|i: int| from <= i < to ==> final(flags)@[i] == value,
        forall|i: int|
            0 <= i < old(flags)@.len() && !(from <= i < to) ==> final(flags)@[i] == old(flags)@[i],
{
    let mut i: usize = from;
    while i < to
        invariant
            from <= i <= to <= flags.len(),
            flags@.len() == old(flags)@.len(),
            forall|k: int| from <= k < i ==> flags@[k] == value,
            forall|k: int|
                0 <= k < flags@.len() && !(from <= k < i) ==> flags@[k] == old(flags)@[k],
        decreases to - i,
    {
        flags.set(i, value);
        i += 1;
    }
}

/// Finds where the patches of the row after `row` begin, from the place
/// `from` where those of `row` begin.
fn row_end(np: &Vec<CellPatch>, from: usize, row: u32) -> (to: usize)
    requires
        ascending(patch_models(np@)),
        from == rank(patch_models(np@), row as int, 0),
    ensures
        to == rank(patch_models(np@), row + 1, 0),
        from <= to <= np.len(),
{
    let ghost npm = patch_models(np@);
    proof {
        lemma_row_span(npm, row as int);
    }
    let mut to: usize = from;
    while to < np.len() && np[to].row == row
        invariant
            from <= to <= np.len(),
            npm == patch_models(np@),
            to <= rank(npm, row + 1, 0) <= np.len(),
            forall|i: int|
                0 <= i < np.len() ==> ((#[trigger] npm[i]).row == row <==> rank(npm, row as int, 0)
                    <= i < rank(npm, row + 1, 0)),
            from == rank(npm, row as int, 0),
        decreases np.len() - to,
    {
        assert(npm[to as int] == np@[to as int]@);
        to += 1;
    }
    if to < np.len() {
        assert(npm[to as int] == np@[to as int]@);
    }
    to
}

/// Writes the rows that belong before row `n` and settles the rows up to
/// `n`.  Returns where the patches of row `n` begin and end.
fn do_enter_row(st: &mut Walker, np: &Vec<CellPatch>, n: u32, Ghost(w): Ghost<Walk>) -> (span: (
    usize,
    usize,
))
    requires
        old(st).agrees(w, patch_models(np@)),
        ascending(patch_models(np@)),
    ensures
        final(st).agrees(enter_row(w, n, patch_models(np@)), patch_models(np@)),
        span.0 == rank(patch_models(np@), n as int, 0),
        span.1 == rank(patch_models(np@), n + 1, 0),
        span.0 <= span.1 <= np.len(),
        final(st).row_lo == old(st).row_lo,
        final(st).row_hi == old(st).row_hi,
        final(st).cell_done == old(st).cell_done,
{
    reveal(Walker::agrees);
    let ghost npm = patch_models(np@);
    let ghost after = enter_row(w, n, npm);
    let from = find_rank(np, n, 0);
    let to = row_end(np, from, n);
    proof {
        lemma_row_span(npm, n as int);
    }
    if st.low < from {
        proof {
            lemma_row_pieces_split(npm, w.settled, 0, st.low as int, from as int);
            assert forall|i: int| 0 <= i < st.low implies w.settled.contains(
                (#[trigger] npm[i]).row,
            ) by {
                assert(st.done@[i]);
            }
            lemma_row_pieces_skipped(npm, w.settled, 0, st.low as int);
            assert forall|i: int| st.low <= i < from implies (#[trigger] st.done@[i])
                == w.settled.contains(np@[i].row) by {
                assert(npm[i] == np@[i]@);
            }
        }
        write_rows(&mut st.out, np, &st.done, true, st.low, from, Ghost(w.settled));
    } else {
        proof {
            assert forall|i: int| 0 <= i < from implies w.settled.contains(
                (#[trigger] npm[i]).row,
            ) by {
                assert(st.done@[i]);
            }
            lemma_row_pieces_skipped(npm, w.settled, 0, from as int);
        }
    }
    assert(models(st.out@) =~= after.output);
    let ghost flags = st.done@;
    if st.low < to {
        set_flags(&mut st.done, st.low, to, true);
        st.low = to;
    }
    proof {
        assert forall|i: int| 0 <= i < npm.len() implies (#[trigger] st.done@[i])
            == after.settled.contains(npm[i].row) by {
            if i < to {
                assert(npm[i].row <= n);
                if i < old(st).low {
                    assert(flags[i]);
                }
            } else {
                assert(npm[i].row > n);
                assert(st.done@[i] == flags[i]);
            }
        }
        assert forall|i: int| 0 <= i < st.low implies #[trigger] st.done@[i] by {
            if i < old(st).low {
                assert(flags[i]);
            }
        }
    }
    (from, to)
}

/// Hands an event on, unless the pass is inside a replaced cell.
fn do_pass(st: &mut Walker, ev: &XmlEvent, np: &Vec<CellPatch>, Ghost(w): Ghost<Walk>)
    requires
        old(st).agrees(w, patch_models(np@)),
    ensures
        final(st).agrees(pass(w, ev@), patch_models(np@)),
{
    reveal(Walker::agrees);
    if !st.skipping {
        emit_copy(&mut st.out, ev);
    }
}

/// Finds the patch for the cell in column `col` of the current row.
fn find_current(st: &Walker, np: &Vec<CellPatch>, col: u32, Ghost(w): Ghost<Walk>) -> (found:
    Option<usize>)
    requires
        st.agrees(w, patch_models(np@)),
        ascending(patch_models(np@)),
    ensures
        match found {
            Some(k) => {
                &&& k < np.len()
                &&& st.row matches Some(r) && st.row_lo <= k < st.row_hi
                &&& current_patch(w.row, col, patch_models(np@)) == Some(np@[k as int]@)
                &&& np@[k as int].col == col
            },
            None => {
                &&& current_patch(w.row, col, patch_models(np@)).is_none()
                &&& st.row.is_some() ==> forall|i: int|
                    st.row_lo <= i < st.row_hi ==> (#[trigger] np@[i]).col != col
            },
        },
{
    reveal(Walker::agrees);
    let ghost npm = patch_models(np@);
    match st.row {
        Some(r) => {
            let k = find_rank(np, r, col);
            proof {
                lemma_rank(npm, r as int, col as int);
                lemma_row_span(npm, r as int);
            }
            if k < np.len() && np[k].row == r && np[k].col == col {
                assert(npm[k as int] == np@[k as int]@);
                Some(k)
            } else {
                if k < np.len() {
                    assert(npm[k as int] == np@[k as int]@);
                }
                assert forall|i: int| st.row_lo <= i < st.row_hi implies (#[trigger] np@[i]).col
                    != col by {
                    assert(npm[i] == np@[i]@);
                    assert(npm[i].row == r);
                    if npm[i].col == col {
                        assert(!before_cell(npm[i], r as int, col as int));
                        assert(i >= k);
                        if i > k {
                            assert(before_cell(npm[k as int], npm[i].row as int, npm[i].col as int));
                            assert(!before_cell(npm[k as int], r as int, col as int));
                        }
                    }
                }
                None
            }
        },
        None => None,
    }
}

/// Handles a cell element of the sheet; see [`at_cell`].
fn do_cell(st: &mut Walker, ev: &XmlEvent, np: &Vec<CellPatch>, open: bool, Ghost(w): Ghost<Walk>) -> (ok:
    bool)
    requires
        old(st).agrees(w, patch_models(np@)),
        ascending(patch_models(np@)),
    ensures
        ok == !at_cell(w, ev@, patch_models(np@), open).failed,
        ok ==> final(st).agrees(at_cell(w, ev@, patch_models(np@), open), patch_models(np@)),
{
    reveal(Walker::agrees);
    let ghost npm = patch_models(np@);
    let ghost after = at_cell(w, ev@, npm, open);
    let content = ev.content.as_slice();
    let cell_text = read_cell_ref(content);
    let cell_ref = cell_text.as_str().as_bytes();
    let (_, col) = parse_cell_ref_bytes(cell_ref);
    proof {
        lemma_ref_column_fits(cell_ref@);
    }
    assert(col == cell_column(ev@.content));
    match find_current(st, np, col, Ghost(w)) {
        None => {
            emit_copy(&mut st.out, ev);
            proof {
                if st.row.is_some() {
                    assert forall|i: int| st.row_lo <= i < st.row_hi implies (
                    #[trigger] st.cell_done@[i]) == after.cols_seen.contains(npm[i].col) by {
                        lemma_row_span(npm, st.row.unwrap() as int);
                        assert(npm[i] == np@[i]@);
                        assert(np@[i].col != col);
                    }
                }
            }
            assert(st.agrees(after, npm));
            true
        },
        Some(k) => {
            let ghost flags = st.cell_done@;
            let ghost lo = st.row_lo;
            let ghost hi = st.row_hi;
            st.cell_done.set(k, true);
            proof {
                lemma_row_span(npm, st.row.unwrap() as int);
                assert forall|i: int| lo <= i < hi implies (#[trigger] st.cell_done@[i])
                    == after.cols_seen.contains(npm[i].col) by {
                    assert(npm[i] == np@[i]@);
                    assert(npm[k as int] == np@[k as int]@);
                    if i != k {
                        assert(st.cell_done@[i] == flags[i]);
                        if i < k {
                            assert(before_cell(npm[i], npm[k as int].row as int, npm[k as int].col as int));
                        } else {
                            assert(before_cell(npm[k as int], npm[i].row as int, npm[i].col as int));
                        }
                    }
                }
            }
            let patch = &np[k];
            match &patch.value {
                None => {
                    match write_style_only_cell_start(content, patch.style_index) {
                        Some(tag) => {
                            emit(&mut st.out, ev.kind, tag);
                            assert(st.agrees(after, npm));
                            true
                        },
                        None => false,
                    }
                },
                Some(_) => {
                    let kept = read_style(content);
                    write_patched_cell(&mut st.out, cell_ref, kept, patch);
                    if open {
                        st.skipping = true;
                    }
                    assert(st.agrees(after, npm));
                    true
                },
            }
        },
    }
}

/// Handles an opening tag; see [`at_start`].
fn do_start(st: &mut Walker, ev: &XmlEvent, np: &Vec<CellPatch>, Ghost(w): Ghost<Walk>) -> (ok:
    bool)
    requires
        old(st).agrees(w, patch_models(np@)),
        ascending(patch_models(np@)),
    ensures
        ok == !at_start(w, ev@, patch_models(np@)).failed,
        ok ==> final(st).agrees(at_start(w, ev@, patch_models(np@)), patch_models(np@)),
{
    reveal(Walker::agrees);
    let ghost npm = patch_models(np@);
    let content = ev.content.as_slice();
    if tag_is(content, "sheetData") {
        st.in_sheet_data = true;
        emit_copy(&mut st.out, ev);
        true
    } else if tag_is(content, "row") && st.in_sheet_data {
        let n = read_row_number(content);
        let (lo, hi) = do_enter_row(st, np, n, Ghost(w));
        st.row = Some(n);
        st.row_lo = lo;
        st.row_hi = hi;
        set_flags(&mut st.cell_done, lo, hi, false);
        emit_copy(&mut st.out, ev);
        true
    } else if tag_is(content, "c") && st.in_sheet_data {
        do_cell(st, ev, np, true, Ghost(w))
    } else {
        do_pass(st, ev, np, Ghost(w));
        true
    }
}

/// Handles a self-closed tag; see [`at_empty`].
fn do_empty(st: &mut Walker, ev: &XmlEvent, np: &Vec<CellPatch>, Ghost(w): Ghost<Walk>) -> (ok:
    bool)
    requires
        old(st).agrees(w, patch_models(np@)),
        ascending(patch_models(np@)),
    ensures
        ok == !at_empty(w, ev@, patch_models(np@)).failed,
        ok ==> final(st).agrees(at_empty(w, ev@, patch_models(np@)), patch_models(np@)),
{
    reveal(Walker::agrees);
    let ghost npm = patch_models(np@);
    let ghost after = at_empty(w, ev@, npm);
    let content = ev.content.as_slice();
    if tag_is(content, "row") && st.in_sheet_data {
        let n = read_row_number(content);
        let (lo, hi) = do_enter_row(st, np, n, Ghost(w));
        if lo < hi {
            write_rows(&mut st.out, np, &st.done, false, lo, hi, Ghost(Set::empty()));
        } else {
            emit_copy(&mut st.out, ev);
            assert(models(st.out@) =~= after.output);
        }
        true
    } else if tag_is(content, "c") && st.in_sheet_data {
        do_cell(st, ev, np, false, Ghost(w))
    } else if tag_is(content, "sheetData") {
        let mut open: Vec<u8> = Vec::new();
        push_text(&mut open, "sheetData");
        let mut close: Vec<u8> = Vec::new();
        push_text(&mut close, "sheetData");
        assert(open@ =~= utf8("sheetData"@) && close@ =~= utf8("sheetData"@));
        emit(&mut st.out, EventKind::Start, open);
        write_rows(&mut st.out, np, &st.done, false, 0, np.len(), Ghost(Set::empty()));
        emit(&mut st.out, EventKind::End, close);
        assert(models(st.out@) =~= after.output);
        let len = np.len();
        set_flags(&mut st.done, 0, len, true);
        st.low = len;
        true
    } else {
        do_pass(st, ev, np, Ghost(w));
        true
    }
}

/// Handles a closing tag; see [`at_end`].
fn do_end(st: &mut Walker, ev: &XmlEvent, np: &Vec<CellPatch>, Ghost(w): Ghost<Walk>)
    requires
        old(st).agrees(w, patch_models(np@)),
        ascending(patch_models(np@)),
    ensures
        final(st).agrees(at_end(w, ev@, patch_models(np@)), patch_models(np@)),
{
    reveal(Walker::agrees);
    let ghost npm = patch_models(np@);
    let ghost after = at_end(w, ev@, npm);
    let content = ev.content.as_slice();
    if crate::text::bytes_eq(content, "c".as_bytes()) && st.skipping {
        st.skipping = false;
    } else if crate::text::bytes_eq(content, "row".as_bytes()) && st.in_sheet_data {
        match st.row {
            Some(r) => {
                proof {
                    lemma_row_span(npm, r as int);
                    assert forall|i: int| st.row_lo <= i < st.row_hi implies (
                    #[trigger] st.cell_done@[i]) == w.cols_seen.contains(np@[i].col) by {
                        assert(npm[i] == np@[i]@);
                    }
                }
                write_cells(
                    &mut st.out,
                    np,
                    &st.cell_done,
                    st.row_lo,
                    st.row_hi,
                    Ghost(w.cols_seen),
                );
            },
            None => {
                assert(models(st.out@) =~= w.output + Seq::<EventModel>::empty());
            },
        }
        st.row = None;
        emit_copy(&mut st.out, ev);
    } else if crate::text::bytes_eq(content, "sheetData".as_bytes()) && st.in_sheet_data {
        proof {
            lemma_row_pieces_split(npm, w.settled, 0, st.low as int, npm.len() as int);
            assert forall|i: int| 0 <= i < st.low implies w.settled.contains(
                (#[trigger] npm[i]).row,
            ) by {
                assert(st.done@[i]);
            }
            lemma_row_pieces_skipped(npm, w.settled, 0, st.low as int);
            assert forall|i: int| st.low <= i < np.len() implies (#[trigger] st.done@[i])
                == w.settled.contains(np@[i].row) by {
                assert(npm[i] == np@[i]@);
            }
        }
        write_rows(&mut st.out, np, &st.done, true, st.low, np.len(), Ghost(w.settled));
        st.in_sheet_data = false;
        emit_copy(&mut st.out, ev);
        assert(models(st.out@) =~= after.output);
        let len = np.len();
        set_flags(&mut st.done, 0, len, true);
        st.low = len;
    } else {
        do_pass(st, ev, np, Ghost(w));
    }
}

/// Handles one event of the sheet; see [`step`].
fn advance(st: &mut Walker, ev: &XmlEvent, np: &Vec<CellPatch>, Ghost(w): Ghost<Walk>) -> (ok:
    bool)
    requires
        old(st).agrees(w, patch_models(np@)),
        ascending(patch_models(np@)),
    ensures
        ok == !step(w, ev@, patch_models(np@)).failed,
        ok ==> final(st).agrees(step(w, ev@, patch_models(np@)), patch_models(np@)),
{
    reveal(step);
    reveal(Walker::agrees);
    match ev.kind {
        EventKind::Start => do_start(st, ev, np, Ghost(w)),
        EventKind::Empty => do_empty(st, ev, np, Ghost(w)),
        EventKind::End => {
            do_end(st, ev, np, Ghost(w));
            true
        },
        _ => {
            do_pass(st, ev, np, Ghost(w));
            true
        },
    }
}

/// The pass over one more event is one more step.
pub proof fn lemma_walk_next(events: Seq<EventModel>, np: Seq<PatchModel>, len: int)
    requires
        0 <= len < events.len(),
    ensures
        walk(events.subrange(0, len + 1), np) == step(
            walk(events.subrange(0, len), np),
            events[len],
            np,
        ),
{
    let next = events.subrange(0, len + 1);
    assert(next.drop_last() =~= events.subrange(0, len));
    assert(next.last() == events[len]);
}

/// A pass that has failed stays failed.
pub proof fn lemma_failed_stays(events: Seq<EventModel>, np: Seq<PatchModel>, len: int)
    requires
        0 <= len <= events.len(),
        walk(events.subrange(0, len), np).failed,
    ensures
        walk(events, np).failed,
    decreases events.len() - len,
{
    reveal(step);
    if len < events.len() {
        let next = events.subrange(0, len + 1);
        assert(next.drop_last() =~= events.subrange(0, len));
        lemma_failed_stays(events, np, len + 1);
    } else {
        assert(events.subrange(0, len) =~= events);
    }
}

/// Patches the events of a sheet.
///
/// The patches may come in any order; of several for one cell the last one
/// counts.  The result is `patched` of the events and the ordered patches.
pub fn patch_events(events: &[XmlEvent], patches: &[CellPatch]) -> (result: Result<
    Vec<XmlEvent>,
    PatchError,
>)
    ensures
        match result {
            Ok(out) => patched(models(events@), grouped(patch_models(patches@))) == Some(
                models(out@),
            ),
            Err(e) => e == PatchError::Attributes && patched(
                models(events@),
                grouped(patch_models(patches@)),
            ).is_none(),
        },
{
    let np = group_patches(patches);
    let ghost npm = patch_models(np@);
    let ghost all = models(events@);
    let mut st = Walker {
        in_sheet_data: false,
        row: None,
        row_lo: 0,
        row_hi: 0,
        skipping: false,
        done: vec![false; np.len()],
        cell_done: vec![false; np.len()],
        low: 0,
        out: Vec::new(),
    };
    assert(models(st.out@) =~= Seq::<EventModel>::empty());
    assert(all.subrange(0, 0) =~= Seq::<EventModel>::empty());
    assert(st.agrees(start_walk(), npm)) by {
        reveal(Walker::agrees);
    }
    let mut i: usize = 0;
    while i < events.len()
        invariant
            i <= events.len(),
            all == models(events@),
            npm == patch_models(np@),
            npm == grouped(patch_models(patches@)),
            ascending(npm),
            st.agrees(walk(all.subrange(0, i as int), npm), npm),
        decreases events.len() - i,
    {
        let ghost w = walk(all.subrange(0, i as int), npm);
        proof {
            lemma_walk_next(all, npm, i as int);
        }
        let ok = advance(&mut st, &events[i], &np, Ghost(w));
        if !ok {
            proof {
                lemma_failed_stays(all, npm, i + 1);
            }
            return Err(PatchError::Attributes);
        }
        i += 1;
    }
    assert(all.subrange(0, events.len() as int) =~= all);
    assert(models(st.out@) == walk(all, npm).output && !walk(all, npm).failed) by {
        reveal(Walker::agrees);
    }
    Ok(st.out)
}

/// What patching makes of the text of a worksheet part.
///
/// Without patches the text stays as it is.  With patches, the sheet is
/// read into events, which the parser must accept; the events are patched,
/// which needs attributes that can be copied wherever the style of a cell
/// changes alone; and the patched events are written out, which must give
/// valid UTF-8.
pub open spec fn worksheet_patched(xml: Seq<u8>, patches: Seq<PatchModel>) -> Result<
    Seq<u8>,
    PatchError,
> {
    if patches.len() == 0 {
        Ok(xml)
    } else if !accepted(document_events(xml)) {
        Err(PatchError::Malformed)
    } else {
        match patched(document_events(xml), grouped(patches)) {
            None => Err(PatchError::Attributes),
            Some(out) => if valid_utf8(rendered_all(out)) {
                Ok(rendered_all(out))
            } else {
                Err(PatchError::NotUtf8)
            },
        }
    }
}

/// Patches the text of a worksheet part with the given changes to cells.
///
/// A cell that the sheet has is replaced or restyled where it stands; a cell
/// or a row that it does not have is put in at its sorted place.  Everything
/// else in the part stays as it is.
pub fn patch_worksheet(xml: &str, patches: &[CellPatch]) -> (result: Result<String, PatchError>)
    ensures
        match result {
            Ok(text) => worksheet_patched(utf8(xml@), patch_models(patches@)) == Ok::<
                Seq<u8>,
                PatchError,
            >(utf8(text@)),
            Err(e) => worksheet_patched(utf8(xml@), patch_models(patches@)) == Err::<
                Seq<u8>,
                PatchError,
            >(e),
        },
{
    if patches.len() == 0 {
        return Ok(xml.to_owned());
    }
    let events = match read_events(xml) {
        Ok(events) => events,
        Err(_) => {
            return Err(PatchError::Malformed);
        },
    };
    let out = match patch_events(events.as_slice(), patches) {
        Ok(out) => out,
        Err(e) => {
            return Err(e);
        },
    };
    let bytes = render(out.as_slice());
    match string_from_utf8(bytes) {
        Some(text) => Ok(text),
        None => Err(PatchError::NotUtf8),
    }
}

} // verus!
