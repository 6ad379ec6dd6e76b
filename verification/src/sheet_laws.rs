//! What holds of every pass over a sheet.

use crate::sheet_patcher::{
    grouped, lemma_grouped_ascending, lemma_rank_is, lemma_with_patch_ascending, patch_for,
    with_patch,
};
use crate::sheet_patcher::{
    ascending, at_cell, before_cell, cell_column, cell_events, cell_pieces, cell_ref_of, cell_tag,
    current_patch, either, event, lemma_rank, lemma_row_pieces_split, lemma_row_span,
    lemma_walk_next, new_cell, cell_style, pass, rank, restyled_tag, row_number, row_piece,
    row_pieces, row_tag, step, walk, PatchModel, ValueModel, Walk,
};
use crate::text::utf8;
use crate::xml::{tag_name, EventKind, EventModel};
use vstd::prelude::*;

verus! {

/// Whether `long` begins with `short`.
pub open spec fn begins_with(long: Seq<EventModel>, short: Seq<EventModel>) -> bool {
    short.len() <= long.len() && long.subrange(0, short.len() as int) == short
}

/// A pass only adds to what it has written.
pub proof fn lemma_step_adds(w: Walk, ev: EventModel, np: Seq<PatchModel>)
    ensures
        begins_with(step(w, ev, np).output, w.output),
{
    reveal(step);
    let after = step(w, ev, np).output;
    assert(after.subrange(0, w.output.len() as int) =~= w.output);
}

/// What a pass has written after some events stays when more events
/// follow.
pub proof fn lemma_output_stays(events: Seq<EventModel>, np: Seq<PatchModel>, len: int)
    requires
        0 <= len <= events.len(),
    ensures
        begins_with(walk(events, np).output, walk(events.subrange(0, len), np).output),
    decreases events.len() - len,
{
    let here = walk(events.subrange(0, len), np).output;
    if len < events.len() {
        crate::sheet_patcher::lemma_walk_next(events, np, len);
        lemma_step_adds(walk(events.subrange(0, len), np), events[len], np);
        lemma_output_stays(events, np, len + 1);
        let next = walk(events.subrange(0, len + 1), np).output;
        let all = walk(events, np).output;
        assert(all.subrange(0, here.len() as int) =~= next.subrange(0, here.len() as int));
    } else {
        assert(events.subrange(0, len) =~= events);
        assert(walk(events, np).output.subrange(0, here.len() as int) =~= here);
    }
}

/// Whether a pass in state `w` leaves the event `ev` alone: the pass is not
/// inside a replaced cell, and the event is no cell with a patch, no empty
/// row that has patches, and no empty `sheetData` element.
pub open spec fn untouched(w: Walk, ev: EventModel, np: Seq<PatchModel>) -> bool {
    let name = tag_name(ev.content);
    let is_row = name == utf8("row"@) && w.in_sheet_data;
    let is_cell = name == utf8("c"@) && w.in_sheet_data;
    &&& !w.failed
    &&& !w.skipping
    &&& match ev.kind {
        EventKind::Start => is_cell ==> current_patch(w.row, cell_column(ev.content), np).is_none(),
        EventKind::Empty => if is_row {
            rank(np, crate::sheet_patcher::row_number(ev.content) as int, 0) == rank(
                np,
                crate::sheet_patcher::row_number(ev.content) + 1,
                0,
            )
        } else if is_cell {
            current_patch(w.row, cell_column(ev.content), np).is_none()
        } else {
            name != utf8("sheetData"@)
        },
        _ => true,
    }
}

/// An event that the pass leaves alone is written as it is, after whatever
/// the pass puts in before it.
pub proof fn lemma_untouched_step(w: Walk, ev: EventModel, np: Seq<PatchModel>)
    requires
        untouched(w, ev, np),
    ensures
        !step(w, ev, np).failed,
        !step(w, ev, np).skipping,
        step(w, ev, np).output.len() > w.output.len(),
        step(w, ev, np).output.last() == ev,
{
    reveal(step);
    lemma_names_differ();
}

/// Every event of a sheet that the pass leaves alone stands in the patched
/// sheet as it is.  It is the last event that the pass has written when it
/// is done with the event, so that these events keep their order.
pub proof fn lemma_untouched_events_stay(events: Seq<EventModel>, np: Seq<PatchModel>, at: int)
    requires
        0 <= at < events.len(),
        untouched(walk(events.subrange(0, at), np), events[at], np),
    ensures
        ({
            let before = walk(events.subrange(0, at), np).output.len();
            let place = walk(events.subrange(0, at + 1), np).output.len() - 1;
            &&& before <= place < walk(events, np).output.len()
            &&& walk(events, np).output[place] == events[at]
        }),
{
    let w = walk(events.subrange(0, at), np);
    crate::sheet_patcher::lemma_walk_next(events, np, at);
    lemma_untouched_step(w, events[at], np);
    lemma_output_stays(events, np, at + 1);
    let next = walk(events.subrange(0, at + 1), np).output;
    let all = walk(events, np).output;
    assert(all.subrange(0, next.len() as int)[next.len() - 1] == all[next.len() - 1]);
}

/// Whether an event can stand inside a cell: it is no tag of a cell, of a
/// row or of the `sheetData` element.
pub open spec fn inner(ev: EventModel) -> bool {
    match ev.kind {
        EventKind::Start | EventKind::Empty => {
            let name = tag_name(ev.content);
            name != utf8("sheetData"@) && name != utf8("row"@) && name != utf8("c"@)
        },
        EventKind::End => ev.content != utf8("sheetData"@) && ev.content != utf8("row"@)
            && ev.content != utf8("c"@),
        _ => true,
    }
}

/// Whether all events from `from` up to `to` can stand inside a cell.
pub open spec fn all_inner(events: Seq<EventModel>, from: int, to: int) -> bool {
    forall|i: int| from <= i < to ==> inner(#[trigger] events[i])
}

/// Inside a replaced cell the pass writes nothing.
pub proof fn lemma_replaced_content_is_dropped(
    events: Seq<EventModel>,
    np: Seq<PatchModel>,
    from: int,
    to: int,
)
    requires
        0 <= from <= to <= events.len(),
        all_inner(events, from, to),
        walk(events.subrange(0, from), np).skipping,
        !walk(events.subrange(0, from), np).failed,
    ensures
        walk(events.subrange(0, to), np) == walk(events.subrange(0, from), np),
    decreases to - from,
{
    reveal(step);
    if from < to {
        lemma_replaced_content_is_dropped(events, np, from, to - 1);
        crate::sheet_patcher::lemma_walk_next(events, np, to - 1);
        assert(inner(events[to - 1]));
    }
}

/// The opening tag of a cell in the `sheetData` element is handled as a
/// cell.
proof fn lemma_cell_opens(w: Walk, ev: EventModel, np: Seq<PatchModel>)
    requires
        ev.kind == EventKind::Start,
        tag_name(ev.content) == utf8("c"@),
        !w.failed,
        w.in_sheet_data,
    ensures
        step(w, ev, np) == at_cell(w, ev, np, true),
{
    reveal(step);
    lemma_names_differ();
}

/// The closing tag of a cell ends a replaced cell, and is handed on
/// otherwise.
proof fn lemma_cell_closes(w: Walk, ev: EventModel, np: Seq<PatchModel>)
    requires
        ev.kind == EventKind::End,
        ev.content == utf8("c"@),
        !w.failed,
    ensures
        step(w, ev, np) == (if w.skipping {
            Walk { skipping: false, ..w }
        } else {
            Walk { output: w.output.push(ev), ..w }
        }),
{
    reveal(step);
    lemma_names_differ();
}

/// A cell with a new value is replaced as a whole.
///
/// Where the sheet has a cell element from `open` to `close` for which a
/// patch with a value is queued, the patched sheet has the new cell element
/// in its place, and nothing of what the old one held: neither a value nor
/// a formula of the old cell is left.
pub proof fn lemma_patched_cell_is_replaced(
    events: Seq<EventModel>,
    np: Seq<PatchModel>,
    open: int,
    close: int,
    p: PatchModel,
)
    requires
        0 <= open < close < events.len(),
        events[open].kind == EventKind::Start,
        tag_name(events[open].content) == utf8("c"@),
        events[close].kind == EventKind::End,
        events[close].content == utf8("c"@),
        all_inner(events, open + 1, close),
        !walk(events.subrange(0, open), np).failed,
        walk(events.subrange(0, open), np).in_sheet_data,
        current_patch(
            walk(events.subrange(0, open), np).row,
            cell_column(events[open].content),
            np,
        ) == Some(p),
        p.value.is_some(),
    ensures
        walk(events.subrange(0, close + 1), np).output == walk(
            events.subrange(0, open),
            np,
        ).output + cell_events(
            cell_ref_of(events[open].content),
            either(p.style, cell_style(events[open].content)),
            p.value,
        ),
        !walk(events.subrange(0, close + 1), np).skipping,
        !walk(events.subrange(0, close + 1), np).failed,
{
    let before = walk(events.subrange(0, open), np);
    lemma_walk_next(events, np, open);
    lemma_cell_opens(before, events[open], np);
    lemma_replaced_content_is_dropped(events, np, open + 1, close);
    lemma_walk_next(events, np, close);
    lemma_cell_closes(walk(events.subrange(0, close), np), events[close], np);
}

/// A cell whose style alone changes keeps what it holds.
///
/// Where the sheet has a cell element from `open` to `close` for which a
/// patch without a value is queued, the patched sheet has the same element
/// with a new opening tag: every event after the opening tag up to the
/// closing tag is as it was, so that the value of the cell stays.
pub proof fn lemma_restyled_cell_keeps_content(
    events: Seq<EventModel>,
    np: Seq<PatchModel>,
    open: int,
    close: int,
    p: PatchModel,
)
    requires
        0 <= open < close < events.len(),
        events[open].kind == EventKind::Start,
        tag_name(events[open].content) == utf8("c"@),
        events[close].kind == EventKind::End,
        events[close].content == utf8("c"@),
        all_inner(events, open + 1, close),
        !walk(events.subrange(0, open), np).failed,
        !walk(events.subrange(0, open), np).skipping,
        walk(events.subrange(0, open), np).in_sheet_data,
        current_patch(
            walk(events.subrange(0, open), np).row,
            cell_column(events[open].content),
            np,
        ) == Some(p),
        p.value.is_none(),
        restyled_tag(events[open].content, p.style).is_some(),
    ensures
        walk(events.subrange(0, close + 1), np).output == walk(
            events.subrange(0, open),
            np,
        ).output.push(
            event(EventKind::Start, restyled_tag(events[open].content, p.style).unwrap()),
        ) + events.subrange(open + 1, close + 1),
        !walk(events.subrange(0, close + 1), np).failed,
{
    let before = walk(events.subrange(0, open), np);
    lemma_walk_next(events, np, open);
    lemma_cell_opens(before, events[open], np);
    let inside = walk(events.subrange(0, open + 1), np);
    lemma_kept_content(events, np, open + 1, close);
    lemma_walk_next(events, np, close);
    let last = walk(events.subrange(0, close), np);
    lemma_cell_closes(last, events[close], np);
    assert((inside.output + events.subrange(open + 1, close)).push(events[close]) =~= inside.output
        + events.subrange(open + 1, close + 1));
}

/// Outside of replaced cells the pass hands on what can stand inside a
/// cell.
pub proof fn lemma_kept_content(events: Seq<EventModel>, np: Seq<PatchModel>, from: int, to: int)
    requires
        0 <= from <= to <= events.len(),
        all_inner(events, from, to),
        !walk(events.subrange(0, from), np).skipping,
        !walk(events.subrange(0, from), np).failed,
    ensures
        walk(events.subrange(0, to), np) == (Walk {
            output: walk(events.subrange(0, from), np).output + events.subrange(from, to),
            ..walk(events.subrange(0, from), np)
        }),
    decreases to - from,
{
    reveal(step);
    let start = walk(events.subrange(0, from), np);
    if from < to {
        lemma_kept_content(events, np, from, to - 1);
        crate::sheet_patcher::lemma_walk_next(events, np, to - 1);
        assert(inner(events[to - 1]));
        assert((start.output + events.subrange(from, to - 1)).push(events[to - 1]) =~= start.output
            + events.subrange(from, to));
    } else {
        assert(start.output + events.subrange(from, to) =~= start.output);
    }
}

/// The names of the elements that the pass knows are different names.
pub proof fn lemma_names_differ()
    ensures
        utf8("c"@) != utf8("row"@),
        utf8("c"@) != utf8("sheetData"@),
        utf8("row"@) != utf8("sheetData"@),
        utf8("v"@) != utf8("f"@),
        utf8("v"@) != utf8("c"@),
{
    reveal_strlit("c");
    reveal_strlit("row");
    reveal_strlit("sheetData");
    reveal_strlit("v");
    reveal_strlit("f");
    crate::text::lemma_ascii_text("c"@);
    crate::text::lemma_ascii_text("row"@);
    crate::text::lemma_ascii_text("sheetData"@);
    crate::text::lemma_ascii_text("v"@);
    crate::text::lemma_ascii_text("f"@);
    assert(utf8("v"@)[0] == 118 && utf8("f"@)[0] == 102 && utf8("c"@)[0] == 99);
}

/// A formula is written without a cached value: of the events of its cell,
/// none but the tags of the `f` element and of the cell itself is a tag, so
/// that no `v` element stands beside the formula.
pub proof fn lemma_formula_has_no_cached_value(
    cell: Seq<u8>,
    style: Option<u32>,
    formula: Seq<u8>,
)
    ensures
        ({
            let events = cell_events(cell, style, Some(ValueModel::Formula(formula)));
            &&& events.len() == 5
            &&& events[0] == event(
                EventKind::Start,
                cell_tag(cell, style, Some(ValueModel::Formula(formula))),
            )
            &&& events[1] == event(EventKind::Start, utf8("f"@))
            &&& events[2] == event(EventKind::Text, crate::xml::escaped(formula, true))
            &&& events[3] == event(EventKind::End, utf8("f"@))
            &&& events[4] == event(EventKind::End, utf8("c"@))
            &&& forall|i: int|
                0 <= i < events.len() && (#[trigger] events[i]).kind != EventKind::Text
                    ==> events[i].content != utf8("v"@)
        }),
{
    lemma_names_differ();
    let events = cell_events(cell, style, Some(ValueModel::Formula(formula)));
    let tag = cell_tag(cell, style, Some(ValueModel::Formula(formula)));
    reveal_strlit("c");
    reveal_strlit("v");
    reveal_strlit(" ");
    crate::text::lemma_ascii_text("c"@);
    crate::text::lemma_ascii_text("v"@);
    crate::text::lemma_ascii_text(" "@);
    assert(tag.len() >= 2);
    assert(tag != utf8("v"@));
}

// ---------------------------------------------------------------------------
// Patches in order
// ---------------------------------------------------------------------------
/// The last of the patches for the cell at (`row`, `col`).
pub open spec fn last_for(patches: Seq<PatchModel>, row: int, col: int) -> Option<PatchModel>
    decreases patches.len(),
{
    if patches.len() == 0 {
        None
    } else if patches.last().row == row && patches.last().col == col {
        Some(patches.last())
    } else {
        last_for(patches.drop_last(), row, col)
    }
}

/// With one more patch, the patch for its cell is the new one, and the
/// patch for every other cell is what it was.
pub proof fn lemma_patch_for_with_patch(
    patches: Seq<PatchModel>,
    p: PatchModel,
    row: int,
    col: int,
)
    requires
        ascending(patches),
    ensures
        patch_for(with_patch(patches, p), row, col) == (if p.row == row && p.col == col {
            Some(p)
        } else {
            patch_for(patches, row, col)
        }),
{
    let after = with_patch(patches, p);
    let at = rank(patches, p.row as int, p.col as int);
    let old = rank(patches, row, col);
    lemma_rank(patches, p.row as int, p.col as int);
    lemma_rank(patches, row, col);
    lemma_with_patch_ascending(patches, p);
    let replaced = at < patches.len() && patches[at].row == p.row && patches[at].col == p.col;
    let target_before_p = row < p.row || (row == p.row && col < p.col);
    let same = p.row == row && p.col == col;
    // Where the cell stands among the patches after the change.
    let place = if same || target_before_p || replaced {
        old
    } else {
        old + 1
    };
    if same {
        assert(old == at) by {
            lemma_rank_is(patches, row, col, at);
        }
    } else if target_before_p {
        assert(old <= at) by {
            if at < old {
                assert(before_cell(patches[at], row, col));
                assert(!before_cell(patches[at], p.row as int, p.col as int));
            }
        }
    } else {
        assert(at <= old) by {
            if old < at {
                assert(before_cell(patches[old], p.row as int, p.col as int));
                assert(!before_cell(patches[old], row, col));
            }
        }
        if replaced {
            assert(at < old) by {
                if old == at {
                    assert(!before_cell(patches[at], row, col));
                }
            }
        }
    }
    assert forall|i: int| 0 <= i < place implies before_cell(#[trigger] after[i], row, col) by {
        if replaced {
            if i != at {
                assert(after[i] == patches[i]);
                assert(before_cell(patches[i], row, col));
            }
        } else if i < at {
            assert(after[i] == patches[i]);
            assert(before_cell(patches[i], row, col));
        } else if i > at {
            assert(after[i] == patches[i - 1]);
            assert(before_cell(patches[i - 1], row, col));
        }
    }
    assert forall|i: int| place <= i < after.len() implies !before_cell(
        #[trigger] after[i],
        row,
        col,
    ) by {
        if replaced {
            if i != at {
                assert(after[i] == patches[i]);
                assert(!before_cell(patches[i], row, col));
            }
        } else if i < at {
            assert(after[i] == patches[i]);
            assert(!before_cell(patches[i], row, col));
        } else if i > at {
            assert(after[i] == patches[i - 1]);
            assert(!before_cell(patches[i - 1], row, col));
        }
    }
    lemma_rank_is(after, row, col, place);
    if !same {
        if replaced {
            if place < after.len() && place != at {
                assert(after[place] == patches[place]);
            }
        } else if place < at {
            assert(after[place] == patches[place]);
        } else if place > at {
            if place < after.len() {
                assert(after[place] == patches[place - 1]);
            }
        } else {
            if old < patches.len() {
                assert(!before_cell(patches[old], p.row as int, p.col as int));
            }
        }
    }
}

/// Of several patches for one cell the last one counts: the patch that
/// grouped patches hold for a cell is the last of the patches for it.
pub proof fn lemma_grouped_keeps_last(patches: Seq<PatchModel>, row: int, col: int)
    ensures
        patch_for(grouped(patches), row, col) == last_for(patches, row, col),
    decreases patches.len(),
{
    if patches.len() > 0 {
        lemma_grouped_keeps_last(patches.drop_last(), row, col);
        lemma_grouped_ascending(patches.drop_last());
        lemma_patch_for_with_patch(grouped(patches.drop_last()), patches.last(), row, col);
    }
}

// ---------------------------------------------------------------------------
// The order of the rows
// ---------------------------------------------------------------------------
/// Whether numbers ascend, no number twice.
pub open spec fn strictly_ascending(rows: Seq<u32>) -> bool {
    forall|i: int, j: int| 0 <= i < j < rows.len() ==> rows[i] < rows[j]
}

/// The numbers of the new rows that the patches from index `from` up to
/// `to` make, without the rows in `skip`: one number for each opening tag of
/// a row among `row_pieces`, in order.
pub open spec fn piece_rows(np: Seq<PatchModel>, skip: Set<u32>, from: int, to: int) -> Seq<u32>
    decreases to - from,
{
    if to <= from {
        Seq::empty()
    } else {
        let i = to - 1;
        let first = i == 0 || np[i - 1].row != np[i].row;
        piece_rows(np, skip, from, i) + (if first && !skip.contains(np[i].row) {
            seq![np[i].row]
        } else {
            Seq::empty()
        })
    }
}

/// A whole new row: its opening tag, the cells of its patches in ascending
/// order of their columns, and its closing tag.
pub open spec fn whole_row(np: Seq<PatchModel>, row: u32) -> Seq<EventModel> {
    seq![event(EventKind::Start, row_tag(row))] + cell_pieces(
        np,
        Set::empty(),
        rank(np, row as int, 0),
        rank(np, row + 1, 0),
    ) + seq![event(EventKind::End, utf8("row"@))]
}

/// Whole new rows, one after the other.
pub open spec fn whole_rows(np: Seq<PatchModel>, rows: Seq<u32>) -> Seq<EventModel>
    decreases rows.len(),
{
    if rows.len() == 0 {
        Seq::empty()
    } else {
        whole_rows(np, rows.drop_last()) + whole_row(np, rows.last())
    }
}

/// Whether a row begins at index `at` of ascending patches, or the patches
/// end there.
pub open spec fn row_begins(np: Seq<PatchModel>, at: int) -> bool {
    0 <= at <= np.len() && (at == 0 || at == np.len() || np[at - 1].row != np[at].row)
}

/// The numbers of new rows can be given in two parts.
pub proof fn lemma_piece_rows_split(
    np: Seq<PatchModel>,
    skip: Set<u32>,
    from: int,
    mid: int,
    to: int,
)
    requires
        from <= mid <= to,
    ensures
        piece_rows(np, skip, from, to) == piece_rows(np, skip, from, mid) + piece_rows(
            np,
            skip,
            mid,
            to,
        ),
    decreases to - mid,
{
    if mid < to {
        lemma_piece_rows_split(np, skip, from, mid, to - 1);
    }
    assert(piece_rows(np, skip, from, to) =~= piece_rows(np, skip, from, mid) + piece_rows(
        np,
        skip,
        mid,
        to,
    ));
}

/// The patches of one row make its opening tag and its cells, as far as
/// they go.
proof fn lemma_row_begun(np: Seq<PatchModel>, skip: Set<u32>, row: u32, to: int)
    requires
        ascending(np),
        rank(np, row as int, 0) < to < rank(np, row + 1, 0),
        !skip.contains(row),
    ensures
        row_pieces(np, skip, rank(np, row as int, 0), to) == seq![
            event(EventKind::Start, row_tag(row)),
        ] + cell_pieces(np, Set::empty(), rank(np, row as int, 0), to),
        piece_rows(np, skip, rank(np, row as int, 0), to) == seq![row],
    decreases to,
{
    let from = rank(np, row as int, 0);
    lemma_row_span(np, row as int);
    let i = to - 1;
    assert(np[i].row == row && np[i + 1].row == row);
    if i > from {
        lemma_row_begun(np, skip, row, i);
        assert(np[i - 1].row == row);
        assert(row_piece(np, i) =~= new_cell(np[i]));
    } else {
        if i > 0 {
            assert(np[i - 1].row < row);
        }
        assert(row_pieces(np, skip, from, i) =~= Seq::<EventModel>::empty());
        assert(cell_pieces(np, Set::empty(), from, i) =~= Seq::<EventModel>::empty());
        assert(piece_rows(np, skip, from, i) =~= Seq::<u32>::empty());
    }
    assert(row_pieces(np, skip, from, to) =~= seq![event(EventKind::Start, row_tag(row))]
        + cell_pieces(np, Set::empty(), from, to));
    assert(piece_rows(np, skip, from, to) =~= seq![row]);
}

/// The patches of one row make one whole row, unless the row is skipped.
pub proof fn lemma_one_row(np: Seq<PatchModel>, skip: Set<u32>, row: u32)
    requires
        ascending(np),
        rank(np, row as int, 0) < rank(np, row + 1, 0),
    ensures
        row_pieces(np, skip, rank(np, row as int, 0), rank(np, row + 1, 0)) == (if skip.contains(
            row,
        ) {
            Seq::empty()
        } else {
            whole_row(np, row)
        }),
        piece_rows(np, skip, rank(np, row as int, 0), rank(np, row + 1, 0)) == (if skip.contains(
            row,
        ) {
            Seq::empty()
        } else {
            seq![row]
        }),
{
    let from = rank(np, row as int, 0);
    let to = rank(np, row + 1, 0);
    lemma_row_span(np, row as int);
    if skip.contains(row) {
        assert forall|i: int| from <= i < to implies skip.contains((#[trigger] np[i]).row) by {}
        crate::sheet_patcher::lemma_row_pieces_skipped(np, skip, from, to);
        lemma_skipped_rows(np, skip, from, to);
    } else {
        let i = to - 1;
        assert(np[i].row == row);
        if i + 1 < np.len() {
            assert(np[i + 1].row > row);
        }
        if i > from {
            lemma_row_begun(np, skip, row, i);
            assert(np[i - 1].row == row);
            assert(row_piece(np, i) =~= new_cell(np[i]) + seq![
                event(EventKind::End, utf8("row"@)),
            ]);
        } else {
            if i > 0 {
                assert(np[i - 1].row < row);
            }
            assert(row_pieces(np, skip, from, i) =~= Seq::<EventModel>::empty());
            assert(cell_pieces(np, Set::empty(), from, i) =~= Seq::<EventModel>::empty());
            assert(piece_rows(np, skip, from, i) =~= Seq::<u32>::empty());
        }
        assert(row_pieces(np, skip, from, to) =~= whole_row(np, row));
        assert(piece_rows(np, skip, from, to) =~= seq![row]);
    }
}

/// Patches whose rows are all skipped make no numbers of new rows.
pub proof fn lemma_skipped_rows(np: Seq<PatchModel>, skip: Set<u32>, from: int, to: int)
    requires
        0 <= from,
        to <= np.len(),
        forall|i: int| from <= i < to ==> skip.contains((#[trigger] np[i]).row),
    ensures
        piece_rows(np, skip, from, to) == Seq::<u32>::empty(),
    decreases to - from,
{
    if from < to {
        lemma_skipped_rows(np, skip, from, to - 1);
        assert(skip.contains(np[to - 1].row));
    }
}

/// New rows are whole rows: where the patches from `from` up to `to` are
/// all the patches of their rows, what they add to the sheet is one whole
/// row for each number of `piece_rows`, in that order.
pub proof fn lemma_new_rows_are_whole(np: Seq<PatchModel>, skip: Set<u32>, from: int, to: int)
    requires
        ascending(np),
        0 <= from <= to <= np.len(),
        row_begins(np, from),
        row_begins(np, to),
    ensures
        row_pieces(np, skip, from, to) == whole_rows(np, piece_rows(np, skip, from, to)),
    decreases to - from,
{
    if from < to {
        let row = np[to - 1].row;
        lemma_row_span(np, row as int);
        let lo = rank(np, row as int, 0);
        let hi = rank(np, row + 1, 0);
        assert(hi == to) by {
            if to < np.len() {
                assert(before_cell(np[to - 1], np[to].row as int, np[to].col as int));
            }
        }
        assert(from <= lo) by {
            if lo < from {
                assert(np[from - 1].row == row);
                assert(np[from].row == row);
            }
        }
        assert(row_begins(np, lo)) by {
            if 0 < lo {
                assert(np[lo - 1].row < row);
            }
        }
        lemma_new_rows_are_whole(np, skip, from, lo);
        lemma_row_pieces_split(np, skip, from, lo, to);
        lemma_piece_rows_split(np, skip, from, lo, to);
        lemma_one_row(np, skip, row);
        let head = piece_rows(np, skip, from, lo);
        if skip.contains(row) {
            assert(head + Seq::<u32>::empty() =~= head);
            assert(row_pieces(np, skip, from, lo) + Seq::<EventModel>::empty() =~= row_pieces(
                np,
                skip,
                from,
                lo,
            ));
        } else {
            let all = head + seq![row];
            assert(all.drop_last() =~= head);
            assert(all.last() == row);
        }
    } else {
        assert(piece_rows(np, skip, from, to) =~= Seq::<u32>::empty());
    }
}

/// The numbers of the rows that one step of a pass writes, in order: the
/// number of a row of the sheet, after the numbers of the new rows that go
/// in before it; and the numbers of the new rows that go in before
/// `sheetData` closes, or into an empty `sheetData` element.
pub open spec fn rows_of_step(w: Walk, ev: EventModel, np: Seq<PatchModel>) -> Seq<u32> {
    let name = tag_name(ev.content);
    let n = row_number(ev.content);
    if w.failed {
        Seq::empty()
    } else if ev.kind == EventKind::Start && name != utf8("sheetData"@) && name == utf8("row"@)
        && w.in_sheet_data {
        piece_rows(np, w.settled, 0, rank(np, n as int, 0)).push(n)
    } else if ev.kind == EventKind::Empty && name == utf8("row"@) && w.in_sheet_data {
        piece_rows(np, w.settled, 0, rank(np, n as int, 0)).push(n)
    } else if ev.kind == EventKind::Empty && !(name == utf8("c"@) && w.in_sheet_data) && name
        == utf8("sheetData"@) {
        piece_rows(np, Set::empty(), 0, np.len() as int)
    } else if ev.kind == EventKind::End && !(ev.content == utf8("c"@) && w.skipping) && !(
    ev.content == utf8("row"@) && w.in_sheet_data) && ev.content == utf8("sheetData"@)
        && w.in_sheet_data {
        piece_rows(np, w.settled, 0, np.len() as int)
    } else {
        Seq::empty()
    }
}

/// The numbers of the rows of the patched sheet, in the order in which the
/// pass writes them.
pub open spec fn rows_written(events: Seq<EventModel>, np: Seq<PatchModel>) -> Seq<u32>
    decreases events.len(),
{
    if events.len() == 0 {
        Seq::empty()
    } else {
        rows_written(events.drop_last(), np) + rows_of_step(
            walk(events.drop_last(), np),
            events.last(),
            np,
        )
    }
}

/// The numbers of the rows that the sheet has in its `sheetData` element, in
/// order.
pub open spec fn rows_of_sheet(events: Seq<EventModel>, np: Seq<PatchModel>) -> Seq<u32>
    decreases events.len(),
{
    if events.len() == 0 {
        Seq::empty()
    } else {
        let w = walk(events.drop_last(), np);
        let ev = events.last();
        let name = tag_name(ev.content);
        rows_of_sheet(events.drop_last(), np) + (if !w.failed && w.in_sheet_data && name == utf8(
            "row"@,
        ) && (ev.kind == EventKind::Empty || (ev.kind == EventKind::Start && name != utf8(
            "sheetData"@,
        ))) {
            seq![row_number(ev.content)]
        } else {
            Seq::empty()
        })
    }
}

/// How many opening and self-closed `sheetData` tags a sheet has.
pub open spec fn sheet_data_tags(events: Seq<EventModel>) -> nat
    decreases events.len(),
{
    if events.len() == 0 {
        0
    } else {
        let ev = events.last();
        sheet_data_tags(events.drop_last()) + (if (ev.kind == EventKind::Start || ev.kind
            == EventKind::Empty) && tag_name(ev.content) == utf8("sheetData"@) {
            1nat
        } else {
            0nat
        })
    }
}

/// The rows up to the row `m`.
pub open spec fn rows_up_to(m: u32) -> Set<u32> {
    Set::new(|r: u32| r <= m)
}

/// The new rows that a pass writes at one place ascend, and each is the row
/// of a patch in range that is not skipped.
pub proof fn lemma_piece_rows(np: Seq<PatchModel>, skip: Set<u32>, from: int, to: int)
    requires
        ascending(np),
        0 <= from <= to <= np.len(),
    ensures
        strictly_ascending(piece_rows(np, skip, from, to)),
        forall|k: int|
            0 <= k < piece_rows(np, skip, from, to).len() ==> {
                &&& !skip.contains(#[trigger] piece_rows(np, skip, from, to)[k])
                &&& exists|i: int|
                    from <= i < to && (#[trigger] np[i]).row == piece_rows(np, skip, from, to)[k]
            },
    decreases to - from,
{
    if from < to {
        let i = to - 1;
        let head = piece_rows(np, skip, from, i);
        let all = piece_rows(np, skip, from, to);
        lemma_piece_rows(np, skip, from, i);
        let first = i == 0 || np[i - 1].row != np[i].row;
        assert forall|k: int| 0 <= k < all.len() implies {
            &&& !skip.contains(#[trigger] all[k])
            &&& exists|j: int| from <= j < to && (#[trigger] np[j]).row == all[k]
        } by {
            if k < head.len() {
                assert(all[k] == head[k]);
                let j = choose|j: int| from <= j < i && (#[trigger] np[j]).row == head[k];
                assert(np[j].row == all[k]);
            } else {
                assert(np[i].row == all[k]);
            }
        }
        assert forall|a: int, b: int| 0 <= a < b < all.len() implies all[a] < all[b] by {
            if b < head.len() {
                assert(all[a] == head[a] && all[b] == head[b]);
            } else {
                assert(all[a] == head[a]);
                let j = choose|j: int| from <= j < i && (#[trigger] np[j]).row == head[a];
                assert(before_cell(np[j], np[i].row as int, np[i].col as int));
                if j < i - 1 {
                    assert(before_cell(np[j], np[i - 1].row as int, np[i - 1].col as int));
                }
                assert(before_cell(np[i - 1], np[i].row as int, np[i].col as int));
            }
        }
    }
}

/// What kind of step an event makes, as far as rows go.
pub enum RowStep {
    /// The pass has failed and does nothing.
    Failed,
    /// A row of the sheet, in the `sheetData` element.
    Row,
    /// The opening tag of the `sheetData` element.
    Open,
    /// A self-closed `sheetData` element.
    Whole,
    /// The closing tag of the `sheetData` element.
    Close,
    /// Anything else.
    Other,
}

/// The kind of step that an event makes.
pub open spec fn row_step(w: Walk, ev: EventModel) -> RowStep {
    let name = tag_name(ev.content);
    if w.failed {
        RowStep::Failed
    } else if ev.kind == EventKind::Start && name == utf8("sheetData"@) {
        RowStep::Open
    } else if (ev.kind == EventKind::Start || ev.kind == EventKind::Empty) && name == utf8("row"@)
        && w.in_sheet_data {
        RowStep::Row
    } else if ev.kind == EventKind::Empty && !(name == utf8("c"@) && w.in_sheet_data) && name
        == utf8("sheetData"@) {
        RowStep::Whole
    } else if ev.kind == EventKind::End && !(ev.content == utf8("c"@) && w.skipping) && !(
    ev.content == utf8("row"@) && w.in_sheet_data) && ev.content == utf8("sheetData"@)
        && w.in_sheet_data {
        RowStep::Close
    } else {
        RowStep::Other
    }
}

/// What a step does to the part of the state that rows depend on.
proof fn lemma_row_step(w: Walk, ev: EventModel, np: Seq<PatchModel>)
    ensures
        ({
            let after = step(w, ev, np);
            let n = row_number(ev.content);
            match row_step(w, ev) {
                RowStep::Failed => after == w && rows_of_step(w, ev, np).len() == 0,
                RowStep::Row => !after.failed && after.in_sheet_data && after.settled
                    == Set::new(|r: u32| w.settled.contains(r) || r <= n) && rows_of_step(w, ev, np)
                    == piece_rows(np, w.settled, 0, rank(np, n as int, 0)).push(n),
                RowStep::Open => after.in_sheet_data && after.settled == w.settled
                    && rows_of_step(w, ev, np).len() == 0,
                RowStep::Whole => after.in_sheet_data == w.in_sheet_data && after.settled
                    == Set::<u32>::full() && rows_of_step(w, ev, np) == piece_rows(
                    np,
                    Set::empty(),
                    0,
                    np.len() as int,
                ),
                RowStep::Close => !after.in_sheet_data && after.settled == Set::<u32>::full()
                    && rows_of_step(w, ev, np) == piece_rows(np, w.settled, 0, np.len() as int),
                RowStep::Other => after.in_sheet_data == w.in_sheet_data && after.settled
                    == w.settled && rows_of_step(w, ev, np).len() == 0,
            }
        }),
{
    reveal(step);
    lemma_names_differ();
}

/// What holds of the rows while a pass goes over a sheet with one
/// `sheetData` element at most.
spec fn rows_in_order(
    in_sheet_data: bool,
    settled: Set<u32>,
    written: Seq<u32>,
    met: Seq<u32>,
    tags: nat,
) -> bool {
    &&& strictly_ascending(written)
    &&& tags == 0 ==> written.len() == 0 && met.len() == 0 && settled =~= Set::empty()
        && !in_sheet_data
    &&& tags == 1 && in_sheet_data ==> if met.len() == 0 {
        written.len() == 0 && settled =~= Set::empty()
    } else {
        written.len() > 0 && written.last() == met.last() && settled =~= rows_up_to(met.last())
    }
    &&& tags == 1 && !in_sheet_data ==> settled =~= Set::full()
}

/// The same of a pass that may have failed: a pass that has failed writes
/// nothing more.
spec fn rows_in_order_so_far(w: Walk, written: Seq<u32>, met: Seq<u32>, tags: nat) -> bool {
    if w.failed {
        strictly_ascending(written)
    } else {
        rows_in_order(w.in_sheet_data, w.settled, written, met, tags)
    }
}

/// Rows that ascend still ascend when rows are added that ascend and are
/// above them.
proof fn lemma_ascending_joined(first: Seq<u32>, second: Seq<u32>)
    requires
        strictly_ascending(first),
        strictly_ascending(second),
        first.len() > 0 ==> forall|k: int| 0 <= k < second.len() ==> first.last() < second[k],
    ensures
        strictly_ascending(first + second),
{
    let all = first + second;
    assert forall|i: int, j: int| 0 <= i < j < all.len() implies all[i] < all[j] by {
        if j < first.len() {
        } else if i >= first.len() {
            assert(all[i] == second[i - first.len()] && all[j] == second[j - first.len()]);
        } else {
            assert(all[j] == second[j - first.len()]);
            if i < first.len() - 1 {
                assert(first[i] < first[first.len() - 1]);
            }
        }
    }
}

/// A row of the sheet keeps the rows in order.
proof fn lemma_row_keeps_order(
    np: Seq<PatchModel>,
    settled: Set<u32>,
    written: Seq<u32>,
    met: Seq<u32>,
    n: u32,
)
    requires
        ascending(np),
        rows_in_order(true, settled, written, met, 1),
        strictly_ascending(met.push(n)),
    ensures
        rows_in_order(
            true,
            Set::new(|r: u32| settled.contains(r) || r <= n),
            written + piece_rows(np, settled, 0, rank(np, n as int, 0)).push(n),
            met.push(n),
            1,
        ),
{
    let all_met = met.push(n);
    let new_rows = piece_rows(np, settled, 0, rank(np, n as int, 0));
    lemma_rank(np, n as int, 0);
    lemma_row_span(np, n as int);
    lemma_piece_rows(np, settled, 0, rank(np, n as int, 0));
    assert forall|k: int| 0 <= k < new_rows.len() implies #[trigger] new_rows[k] < n by {
        let i = choose|i: int|
            0 <= i < rank(np, n as int, 0) && (#[trigger] np[i]).row == new_rows[k];
    }
    if met.len() > 0 {
        assert(all_met[met.len() - 1] < all_met[met.len() as int]);
        assert forall|k: int| 0 <= k < new_rows.len() implies written.last()
            < #[trigger] new_rows[k] by {
            assert(!settled.contains(new_rows[k]));
            assert(!rows_up_to(met.last()).contains(new_rows[k]));
        }
    }
    lemma_ascending_joined(written, new_rows);
    let joined = written + new_rows;
    assert(strictly_ascending(seq![n]));
    assert(joined.len() > 0 ==> joined.last() < n) by {
        if new_rows.len() > 0 {
            assert(joined.last() == new_rows[new_rows.len() - 1]);
        } else if written.len() > 0 {
            assert(joined.last() == written.last());
        }
    }
    lemma_ascending_joined(joined, seq![n]);
    assert(written + new_rows.push(n) =~= joined + seq![n]);
    assert(Set::new(|r: u32| settled.contains(r) || r <= n) =~= rows_up_to(n));
}

/// The end of the `sheetData` element keeps the rows in order.
proof fn lemma_close_keeps_order(
    np: Seq<PatchModel>,
    settled: Set<u32>,
    written: Seq<u32>,
    met: Seq<u32>,
)
    requires
        ascending(np),
        rows_in_order(true, settled, written, met, 1),
    ensures
        strictly_ascending(written + piece_rows(np, settled, 0, np.len() as int)),
{
    let more = piece_rows(np, settled, 0, np.len() as int);
    lemma_piece_rows(np, settled, 0, np.len() as int);
    if met.len() > 0 {
        assert forall|k: int| 0 <= k < more.len() implies written.last() < #[trigger] more[k] by {
            assert(!settled.contains(more[k]));
            assert(!rows_up_to(met.last()).contains(more[k]));
        }
    }
    lemma_ascending_joined(written, more);
}

/// What the last event adds to the rows of the sheet.
proof fn lemma_rows_of_sheet_next(events: Seq<EventModel>, np: Seq<PatchModel>)
    requires
        events.len() > 0,
    ensures
        ({
            let w = walk(events.drop_last(), np);
            let met = rows_of_sheet(events.drop_last(), np);
            rows_of_sheet(events, np) == (if row_step(w, events.last()) is Row {
                met.push(row_number(events.last().content))
            } else {
                met
            })
        }),
{
    lemma_names_differ();
    let met = rows_of_sheet(events.drop_last(), np);
    assert(met + seq![row_number(events.last().content)] =~= met.push(
        row_number(events.last().content),
    ));
    assert(met + Seq::<u32>::empty() =~= met);
}

/// What the last event adds to the count of `sheetData` tags.
proof fn lemma_tags_next(events: Seq<EventModel>, np: Seq<PatchModel>)
    requires
        events.len() > 0,
        !walk(events.drop_last(), np).failed,
    ensures
        ({
            let w = walk(events.drop_last(), np);
            let tags = sheet_data_tags(events.drop_last());
            match row_step(w, events.last()) {
                RowStep::Open => sheet_data_tags(events) == tags + 1,
                RowStep::Whole => sheet_data_tags(events) == tags + 1,
                RowStep::Row => sheet_data_tags(events) == tags,
                RowStep::Close => sheet_data_tags(events) == tags,
                _ => sheet_data_tags(events) == tags,
            }
        }),
{
    lemma_names_differ();
}

proof fn lemma_rows_in_order(events: Seq<EventModel>, np: Seq<PatchModel>)
    requires
        ascending(np),
        sheet_data_tags(events) <= 1,
        strictly_ascending(rows_of_sheet(events, np)),
    ensures
        rows_in_order_so_far(
            walk(events, np),
            rows_written(events, np),
            rows_of_sheet(events, np),
            sheet_data_tags(events),
        ),
    decreases events.len(),
{
    if events.len() > 0 {
        let head = events.drop_last();
        let ev = events.last();
        let w = walk(head, np);
        let met = rows_of_sheet(head, np);
        let written = rows_written(head, np);
        let tags = sheet_data_tags(head);
        lemma_rows_of_sheet_next(events, np);
        assert(strictly_ascending(met)) by {
            let all = rows_of_sheet(events, np);
            assert forall|i: int, j: int| 0 <= i < j < met.len() implies met[i] < met[j] by {
                assert(all[i] == met[i] && all[j] == met[j]);
            }
        }
        lemma_rows_in_order(head, np);
        lemma_row_step(w, ev, np);
        let more = rows_of_step(w, ev, np);
        let after = walk(events, np);
        assert(after == step(w, ev, np));
        assert(rows_written(events, np) == written + more);
        let goal = rows_in_order_so_far(
            after,
            rows_written(events, np),
            rows_of_sheet(events, np),
            sheet_data_tags(events),
        );
        match row_step(w, ev) {
            RowStep::Failed => {
                assert(written + more =~= written);
                assert(goal);
            },
            RowStep::Row => {
                lemma_tags_next(events, np);
                assert(tags == 1);
                lemma_row_keeps_order(np, w.settled, written, met, row_number(ev.content));
                assert(goal);
            },
            RowStep::Open => {
                lemma_tags_next(events, np);
                assert(written + more =~= written);
                assert(goal);
            },
            RowStep::Whole => {
                lemma_tags_next(events, np);
                lemma_piece_rows(np, Set::empty(), 0, np.len() as int);
                assert(written + more =~= more);
                assert(goal);
            },
            RowStep::Close => {
                lemma_tags_next(events, np);
                lemma_close_keeps_order(np, w.settled, written, met);
                assert(goal);
            },
            RowStep::Other => {
                lemma_tags_next(events, np);
                assert(written + more =~= written);
                assert(goal);
            },
        }
    }
}

/// The rows of a patched sheet ascend where the rows of the sheet do.
///
/// Where the rows that a sheet has in its one `sheetData` element ascend,
/// the rows that the pass writes, those of the sheet and the new ones,
/// ascend as well: each new row stands at its sorted place.
pub proof fn lemma_rows_ascend(events: Seq<EventModel>, np: Seq<PatchModel>)
    requires
        ascending(np),
        sheet_data_tags(events) <= 1,
        strictly_ascending(rows_of_sheet(events, np)),
    ensures
        strictly_ascending(rows_written(events, np)),
{
    lemma_rows_in_order(events, np);
}

/// Every row of the sheet is a row of the patched sheet.
pub proof fn lemma_sheet_rows_are_written(events: Seq<EventModel>, np: Seq<PatchModel>, row: u32)
    requires
        rows_of_sheet(events, np).contains(row),
    ensures
        rows_written(events, np).contains(row),
    decreases events.len(),
{
    if events.len() > 0 {
        let head = events.drop_last();
        let ev = events.last();
        let w = walk(head, np);
        let written = rows_written(head, np);
        let more = rows_of_step(w, ev, np);
        let all = rows_written(events, np);
        let had = rows_of_sheet(head, np);
        let k = choose|k: int| 0 <= k < rows_of_sheet(events, np).len() && rows_of_sheet(
            events,
            np,
        )[k] == row;
        lemma_names_differ();
        if k < had.len() {
            assert(had[k] == row);
            lemma_sheet_rows_are_written(head, np, row);
            let j = choose|j: int| 0 <= j < written.len() && written[j] == row;
            assert(all[j] == written[j]);
        } else {
            assert(more.last() == row);
            assert(all[written.len() + more.len() - 1] == more[more.len() - 1]);
        }
    }
}

/// The patched sheet has no rows but those of the sheet and those of the
/// patches.
pub proof fn lemma_written_rows_are_known(events: Seq<EventModel>, np: Seq<PatchModel>, row: u32)
    requires
        ascending(np),
        rows_written(events, np).contains(row),
    ensures
        rows_of_sheet(events, np).contains(row) || exists|i: int|
            0 <= i < np.len() && (#[trigger] np[i]).row == row,
    decreases events.len(),
{
    if events.len() > 0 {
        let head = events.drop_last();
        let ev = events.last();
        let w = walk(head, np);
        let written = rows_written(head, np);
        let more = rows_of_step(w, ev, np);
        let all = rows_written(events, np);
        let had = rows_of_sheet(head, np);
        let has = rows_of_sheet(events, np);
        let n = row_number(ev.content);
        let k = choose|k: int| 0 <= k < all.len() && all[k] == row;
        lemma_names_differ();
        lemma_rank(np, n as int, 0);
        if k < written.len() {
            assert(written[k] == row);
            lemma_written_rows_are_known(head, np, row);
            if had.contains(row) {
                let j = choose|j: int| 0 <= j < had.len() && had[j] == row;
                assert(has[j] == had[j]);
            }
        } else {
            let j = k - written.len();
            assert(more[j] == row);
            let upto = rank(np, n as int, 0);
            lemma_piece_rows(np, w.settled, 0, upto);
            lemma_piece_rows(np, w.settled, 0, np.len() as int);
            lemma_piece_rows(np, Set::empty(), 0, np.len() as int);
            let name = tag_name(ev.content);
            let is_row = w.in_sheet_data && name == utf8("row"@) && (ev.kind == EventKind::Start
                || ev.kind == EventKind::Empty);
            if is_row {
                assert(more == piece_rows(np, w.settled, 0, upto).push(n));
                if j == more.len() - 1 {
                    assert(has == had + seq![n]);
                    assert(has[had.len() as int] == n);
                } else {
                    assert(piece_rows(np, w.settled, 0, upto)[j] == row);
                }
            } else if more == piece_rows(np, Set::empty(), 0, np.len() as int) {
                assert(piece_rows(np, Set::empty(), 0, np.len() as int)[j] == row);
            } else {
                assert(more == piece_rows(np, w.settled, 0, np.len() as int));
                assert(piece_rows(np, w.settled, 0, np.len() as int)[j] == row);
            }
        }
    }
}

/// The rows of a step are what the step writes: the new rows stand in the
/// patched sheet as whole rows, in the order of their numbers, before the
/// event of the sheet that the step is for.
pub proof fn lemma_step_writes_whole_rows(w: Walk, ev: EventModel, np: Seq<PatchModel>)
    requires
        ascending(np),
    ensures
        ({
            let after = step(w, ev, np).output;
            let n = row_number(ev.content);
            match row_step(w, ev) {
                RowStep::Row => after == w.output + whole_rows(
                    np,
                    piece_rows(np, w.settled, 0, rank(np, n as int, 0)),
                ) + (if ev.kind == EventKind::Empty && rank(np, n as int, 0) < rank(np, n + 1, 0) {
                    whole_row(np, n)
                } else {
                    seq![ev]
                }),
                RowStep::Whole => after == w.output.push(
                    event(EventKind::Start, utf8("sheetData"@)),
                ) + whole_rows(np, piece_rows(np, Set::empty(), 0, np.len() as int)) + seq![
                    event(EventKind::End, utf8("sheetData"@)),
                ],
                RowStep::Close => after == (w.output + whole_rows(
                    np,
                    piece_rows(np, w.settled, 0, np.len() as int),
                )).push(ev),
                _ => true,
            }
        }),
{
    reveal(step);
    lemma_names_differ();
    let n = row_number(ev.content);
    let after = step(w, ev, np).output;
    match row_step(w, ev) {
        RowStep::Row => {
            lemma_row_span(np, n as int);
            let from = rank(np, n as int, 0);
            let to = rank(np, n + 1, 0);
            assert(row_begins(np, from)) by {
                if 0 < from < np.len() {
                    assert(np[from - 1].row < n);
                    assert(np[from].row >= n);
                }
            }
            lemma_new_rows_are_whole(np, w.settled, 0, from);
            if ev.kind == EventKind::Empty && from < to {
                lemma_one_row(np, Set::empty(), n);
            }
            let new_rows = whole_rows(np, piece_rows(np, w.settled, 0, from));
            if ev.kind == EventKind::Start {
                assert(after =~= w.output + new_rows + seq![ev]);
            }
        },
        RowStep::Whole => {
            lemma_new_rows_are_whole(np, Set::empty(), 0, np.len() as int);
        },
        RowStep::Close => {
            lemma_new_rows_are_whole(np, w.settled, 0, np.len() as int);
        },
        _ => {},
    }
}

// ---------------------------------------------------------------------------
// Every patch reaches the sheet
// ---------------------------------------------------------------------------
/// The new rows that a pass writes at one place have the row of every patch
/// in range that is not skipped.
pub proof fn lemma_piece_rows_have(
    np: Seq<PatchModel>,
    skip: Set<u32>,
    from: int,
    to: int,
    i: int,
)
    requires
        ascending(np),
        0 <= from <= i < to <= np.len(),
        row_begins(np, from),
        !skip.contains(np[i].row),
    ensures
        piece_rows(np, skip, from, to).contains(np[i].row),
    decreases to - from,
{
    let last = to - 1;
    let head = piece_rows(np, skip, from, last);
    let all = piece_rows(np, skip, from, to);
    let first = last == 0 || np[last - 1].row != np[last].row;
    if i < last {
        lemma_piece_rows_have(np, skip, from, last, i);
        let k = choose|k: int| 0 <= k < head.len() && head[k] == np[i].row;
        assert(all[k] == head[k]);
    } else if first {
        assert(all[head.len() as int] == np[i].row);
    } else {
        // The patch before this one has the same row, and is in range.
        assert(from <= last - 1) by {
            if from == last {
                assert(np[from - 1].row != np[from].row);
            }
        }
        lemma_piece_rows_have(np, skip, from, last, last - 1);
        let k = choose|k: int| 0 <= k < head.len() && head[k] == np[last - 1].row;
        assert(all[k] == head[k]);
    }
}

/// Every row that is settled and has a patch has been written: it is among
/// the rows of the patched sheet.
pub proof fn lemma_settled_rows_are_written(
    events: Seq<EventModel>,
    np: Seq<PatchModel>,
    i: int,
)
    requires
        ascending(np),
        0 <= i < np.len(),
        !walk(events, np).failed,
        walk(events, np).settled.contains(np[i].row),
    ensures
        rows_written(events, np).contains(np[i].row),
    decreases events.len(),
{
    if events.len() > 0 {
        let head = events.drop_last();
        let ev = events.last();
        let w = walk(head, np);
        let written = rows_written(head, np);
        let more = rows_of_step(w, ev, np);
        let all = rows_written(events, np);
        let row = np[i].row;
        lemma_row_step(w, ev, np);
        assert(!w.failed) by {
            reveal(step);
        }
        if w.settled.contains(row) {
            lemma_settled_rows_are_written(head, np, i);
            let k = choose|k: int| 0 <= k < written.len() && written[k] == row;
            assert(all[k] == written[k]);
        } else {
            let n = row_number(ev.content);
            match row_step(w, ev) {
                RowStep::Row => {
                    lemma_row_span(np, n as int);
                    lemma_rank(np, n as int, 0);
                    let new_rows = piece_rows(np, w.settled, 0, rank(np, n as int, 0));
                    if row < n {
                        assert(i < rank(np, n as int, 0));
                        lemma_piece_rows_have(np, w.settled, 0, rank(np, n as int, 0), i);
                        let k = choose|k: int| 0 <= k < new_rows.len() && new_rows[k] == row;
                        assert(more[k] == new_rows[k]);
                        assert(all[written.len() + k] == more[k]);
                    } else {
                        assert(more[new_rows.len() as int] == n);
                        assert(all[(written.len() + new_rows.len()) as int] == n);
                    }
                },
                RowStep::Whole => {
                    lemma_piece_rows_have(np, Set::empty(), 0, np.len() as int, i);
                    let k = choose|k: int| 0 <= k < more.len() && more[k] == row;
                    assert(all[written.len() + k] == more[k]);
                },
                RowStep::Close => {
                    lemma_piece_rows_have(np, w.settled, 0, np.len() as int, i);
                    let k = choose|k: int| 0 <= k < more.len() && more[k] == row;
                    assert(all[written.len() + k] == more[k]);
                },
                _ => {},
            }
        }
    }
}

/// When the `sheetData` element of a sheet has closed, every row with a
/// patch has been written: it is a row that the sheet had, or a new row.
pub proof fn lemma_every_patched_row_is_written(
    events: Seq<EventModel>,
    np: Seq<PatchModel>,
    close: int,
    i: int,
)
    requires
        ascending(np),
        0 <= i < np.len(),
        0 <= close < events.len(),
        !walk(events, np).failed,
        row_step(walk(events.subrange(0, close), np), events[close]) is Close || row_step(
            walk(events.subrange(0, close), np),
            events[close],
        ) is Whole,
    ensures
        rows_written(events, np).contains(np[i].row),
{
    let w = walk(events.subrange(0, close), np);
    lemma_walk_next(events, np, close);
    lemma_row_step(w, events[close], np);
    lemma_settled_stays(events, np, close + 1, np[i].row);
    lemma_settled_rows_are_written(events, np, i);
}

/// A row that is settled stays settled, unless the pass fails.
pub proof fn lemma_settled_stays(events: Seq<EventModel>, np: Seq<PatchModel>, len: int, row: u32)
    requires
        0 <= len <= events.len(),
        !walk(events, np).failed,
        walk(events.subrange(0, len), np).settled.contains(row),
    ensures
        walk(events, np).settled.contains(row),
        !walk(events.subrange(0, len), np).failed,
    decreases events.len() - len,
{
    if len < events.len() {
        lemma_walk_next(events, np, len);
        let w = walk(events.subrange(0, len), np);
        lemma_row_step(w, events[len], np);
        if w.failed {
            crate::sheet_patcher::lemma_failed_stays(events, np, len);
        }
        let next = walk(events.subrange(0, len + 1), np);
        if next.failed {
            crate::sheet_patcher::lemma_failed_stays(events, np, len + 1);
        }
        lemma_settled_stays(events, np, len + 1, row);
    } else {
        assert(events.subrange(0, len) =~= events);
    }
}

/// A whole new row holds the cell of each of its patches: where a patch
/// stands among the patches of its row, its cell stands among the cells of
/// the row.
pub proof fn lemma_whole_row_has_cell(np: Seq<PatchModel>, i: int)
    requires
        ascending(np),
        0 <= i < np.len(),
    ensures
        ({
            let row = np[i].row;
            let from = rank(np, row as int, 0);
            let to = rank(np, row + 1, 0);
            let at = 1 + cell_pieces(np, Set::empty(), from, i).len() as int;
            &&& from <= i < to
            &&& whole_row(np, row).subrange(at, at + new_cell(np[i]).len()) == new_cell(np[i])
        }),
{
    let row = np[i].row;
    let from = rank(np, row as int, 0);
    let to = rank(np, row + 1, 0);
    lemma_row_span(np, row as int);
    lemma_cell_pieces_split(np, Set::empty(), from, i, to);
    lemma_cell_pieces_split(np, Set::empty(), i, i + 1, to);
    let before = cell_pieces(np, Set::empty(), from, i);
    let own = cell_pieces(np, Set::empty(), i, i + 1);
    assert(cell_pieces(np, Set::empty(), i, i) =~= Seq::<EventModel>::empty());
    assert(own =~= new_cell(np[i]));
    let at = 1 + before.len() as int;
    assert(whole_row(np, row).subrange(at, at + new_cell(np[i]).len()) =~= new_cell(np[i]));
}

/// New cells can be written in two parts.
pub proof fn lemma_cell_pieces_split(
    np: Seq<PatchModel>,
    skip: Set<u32>,
    from: int,
    mid: int,
    to: int,
)
    requires
        from <= mid <= to,
    ensures
        cell_pieces(np, skip, from, to) == cell_pieces(np, skip, from, mid) + cell_pieces(
            np,
            skip,
            mid,
            to,
        ),
    decreases to - mid,
{
    if mid < to {
        lemma_cell_pieces_split(np, skip, from, mid, to - 1);
    }
    assert(cell_pieces(np, skip, from, to) =~= cell_pieces(np, skip, from, mid) + cell_pieces(
        np,
        skip,
        mid,
        to,
    ));
}

/// When a row of the sheet closes, the cell of every patch for the row whose
/// column the row has not shown is written, before the closing tag.
pub proof fn lemma_missing_cell_is_written(w: Walk, ev: EventModel, np: Seq<PatchModel>, i: int)
    requires
        ascending(np),
        0 <= i < np.len(),
        !w.failed,
        w.in_sheet_data,
        ev.kind == EventKind::End,
        ev.content == utf8("row"@),
        w.row == Some(np[i].row),
        !w.cols_seen.contains(np[i].col),
    ensures
        ({
            let row = np[i].row;
            let at = (w.output.len() + cell_pieces(
                np,
                w.cols_seen,
                rank(np, row as int, 0),
                i,
            ).len()) as int;
            let after = step(w, ev, np).output;
            &&& at + new_cell(np[i]).len() < after.len()
            &&& after.subrange(at, at + new_cell(np[i]).len()) == new_cell(np[i])
            &&& after.last() == ev
        }),
{
    reveal(step);
    lemma_names_differ();
    let row = np[i].row;
    let from = rank(np, row as int, 0);
    let to = rank(np, row + 1, 0);
    lemma_row_span(np, row as int);
    lemma_cell_pieces_split(np, w.cols_seen, from, i, to);
    lemma_cell_pieces_split(np, w.cols_seen, i, i + 1, to);
    assert(cell_pieces(np, w.cols_seen, i, i) =~= Seq::<EventModel>::empty());
    assert(cell_pieces(np, w.cols_seen, i, i + 1) =~= new_cell(np[i]));
    let at = (w.output.len() + cell_pieces(np, w.cols_seen, from, i).len()) as int;
    let after = step(w, ev, np).output;
    assert(after.subrange(at, at + new_cell(np[i]).len()) =~= new_cell(np[i]));
}

/// Whether an event is the tag of a cell: an opening or self-closed tag
/// named `c`.
pub open spec fn is_cell_tag(ev: EventModel) -> bool {
    (ev.kind == EventKind::Start || ev.kind == EventKind::Empty) && tag_name(ev.content) == utf8(
        "c"@,
    )
}

/// Whether an event is a tag of a row or of the `sheetData` element.
pub open spec fn is_row_or_sheet_tag(ev: EventModel) -> bool {
    match ev.kind {
        EventKind::Start | EventKind::Empty => tag_name(ev.content) == utf8("row"@) || tag_name(
            ev.content,
        ) == utf8("sheetData"@),
        EventKind::End => ev.content == utf8("row"@) || ev.content == utf8("sheetData"@),
        _ => false,
    }
}

/// Whether the events from `from` up to `to` are the inside of one row: no
/// tag of a row or of the `sheetData` element is among them.
pub open spec fn inside_row(events: Seq<EventModel>, from: int, to: int) -> bool {
    forall|j: int| from <= j < to ==> !is_row_or_sheet_tag(#[trigger] events[j])
}

/// Among ascending patches, the patch for the cell of a patch is that patch.
pub proof fn lemma_patch_for_own_cell(np: Seq<PatchModel>, i: int)
    requires
        ascending(np),
        0 <= i < np.len(),
    ensures
        patch_for(np, np[i].row as int, np[i].col as int) == Some(np[i]),
{
    assert forall|k: int| 0 <= k < i implies before_cell(
        #[trigger] np[k],
        np[i].row as int,
        np[i].col as int,
    ) by {}
    assert forall|k: int| i <= k < np.len() implies !before_cell(
        #[trigger] np[k],
        np[i].row as int,
        np[i].col as int,
    ) by {
        if k > i {
            assert(before_cell(np[i], np[k].row as int, np[k].col as int));
        }
    }
    lemma_rank_is(np, np[i].row as int, np[i].col as int, i);
}

/// What a step does to the row that the pass is in and to the columns that
/// it has seen, where the event is no tag of a row or of the `sheetData`
/// element: only the tag of a cell adds a column.
proof fn lemma_step_in_row(w: Walk, ev: EventModel, np: Seq<PatchModel>)
    requires
        !is_row_or_sheet_tag(ev),
        !w.failed,
    ensures
        step(w, ev, np).in_sheet_data == w.in_sheet_data,
        step(w, ev, np).row == w.row,
        step(w, ev, np).cols_seen == (if is_cell_tag(ev) && w.in_sheet_data {
            w.cols_seen.insert(cell_column(ev.content))
        } else {
            w.cols_seen
        }),
{
    reveal(step);
    lemma_names_differ();
}

/// What the opening tag of a row does: the pass is in that row, and has
/// seen no column of it.
proof fn lemma_step_opens_row(w: Walk, ev: EventModel, np: Seq<PatchModel>)
    requires
        ev.kind == EventKind::Start,
        tag_name(ev.content) == utf8("row"@),
        w.in_sheet_data,
        !w.failed,
    ensures
        step(w, ev, np).in_sheet_data,
        step(w, ev, np).row == Some(row_number(ev.content)),
        step(w, ev, np).cols_seen == Set::<u32>::empty(),
        !step(w, ev, np).failed,
{
    reveal(step);
    lemma_names_differ();
}

/// A pass that has not failed had not failed before.
pub proof fn lemma_had_not_failed(events: Seq<EventModel>, np: Seq<PatchModel>, len: int)
    requires
        0 <= len <= events.len(),
        !walk(events, np).failed,
    ensures
        !walk(events.subrange(0, len), np).failed,
{
    if walk(events.subrange(0, len), np).failed {
        crate::sheet_patcher::lemma_failed_stays(events, np, len);
    }
}

/// Inside a row, the pass stays in the row, and has seen a column exactly
/// where a cell of that column stood in the row.
pub proof fn lemma_columns_seen(
    events: Seq<EventModel>,
    np: Seq<PatchModel>,
    open: int,
    upto: int,
    col: u32,
)
    requires
        0 <= open < upto <= events.len(),
        events[open].kind == EventKind::Start,
        tag_name(events[open].content) == utf8("row"@),
        walk(events.subrange(0, open), np).in_sheet_data,
        inside_row(events, open + 1, upto),
        !walk(events.subrange(0, upto), np).failed,
    ensures
        walk(events.subrange(0, upto), np).in_sheet_data,
        walk(events.subrange(0, upto), np).row == Some(row_number(events[open].content)),
        walk(events.subrange(0, upto), np).cols_seen.contains(col) <==> exists|j: int|
            open < j < upto && is_cell_tag(#[trigger] events[j]) && cell_column(events[j].content)
                == col,
    decreases upto - open,
{
    let last = upto - 1;
    lemma_walk_next(events, np, last);
    let w = walk(events.subrange(0, last), np);
    let after = walk(events.subrange(0, upto), np);
    lemma_had_not_failed(events.subrange(0, upto), np, last);
    assert(events.subrange(0, upto).subrange(0, last) =~= events.subrange(0, last));
    if last == open {
        lemma_step_opens_row(w, events[open], np);
    } else {
        lemma_columns_seen(events, np, open, last, col);
        assert(!is_row_or_sheet_tag(events[last]));
        lemma_step_in_row(w, events[last], np);
        if is_cell_tag(events[last]) && cell_column(events[last].content) == col {
        } else if w.cols_seen.contains(col) {
            let j = choose|j: int|
                open < j < last && is_cell_tag(#[trigger] events[j]) && cell_column(
                    events[j].content,
                ) == col;
            assert(open < j < upto);
        } else if exists|j: int|
            open < j < upto && is_cell_tag(#[trigger] events[j]) && cell_column(events[j].content)
                == col {
            let j = choose|j: int|
                open < j < upto && is_cell_tag(#[trigger] events[j]) && cell_column(
                    events[j].content,
                ) == col;
            assert(j < last);
        }
    }
}

/// Every patch for a row that the sheet has is applied in that row.
///
/// Where the sheet has a row from `open` to `close` in its `sheetData`
/// element, each patch for that row meets a cell of its column in the row,
/// where it is applied, or else its cell is written as a new cell before the
/// closing tag of the row.
pub proof fn lemma_row_applies_every_patch(
    events: Seq<EventModel>,
    np: Seq<PatchModel>,
    open: int,
    close: int,
    i: int,
)
    requires
        ascending(np),
        0 <= i < np.len(),
        0 <= open < close < events.len(),
        events[open].kind == EventKind::Start,
        tag_name(events[open].content) == utf8("row"@),
        row_number(events[open].content) == np[i].row,
        walk(events.subrange(0, open), np).in_sheet_data,
        inside_row(events, open + 1, close),
        events[close].kind == EventKind::End,
        events[close].content == utf8("row"@),
        !walk(events.subrange(0, close + 1), np).failed,
    ensures
        (exists|j: int|
            open < j < close && is_cell_tag(#[trigger] events[j]) && current_patch(
                walk(events.subrange(0, j), np).row,
                cell_column(events[j].content),
                np,
            ) == Some(np[i])) || ({
            let before = walk(events.subrange(0, close), np);
            let after = walk(events.subrange(0, close + 1), np).output;
            let at = (before.output.len() + cell_pieces(
                np,
                before.cols_seen,
                rank(np, np[i].row as int, 0),
                i,
            ).len()) as int;
            after.subrange(at, at + new_cell(np[i]).len()) == new_cell(np[i])
        }),
{
    let before = walk(events.subrange(0, close), np);
    lemma_walk_next(events, np, close);
    lemma_had_not_failed(events.subrange(0, close + 1), np, close);
    assert(events.subrange(0, close + 1).subrange(0, close) =~= events.subrange(0, close));
    lemma_columns_seen(events, np, open, close, np[i].col);
    if before.cols_seen.contains(np[i].col) {
        let j = choose|j: int|
            open < j < close && is_cell_tag(#[trigger] events[j]) && cell_column(events[j].content)
                == np[i].col;
        lemma_had_not_failed(events.subrange(0, close), np, j);
        assert(events.subrange(0, close).subrange(0, j) =~= events.subrange(0, j));
        lemma_lasts(events, np, open, j);
        lemma_patch_for_own_cell(np, i);
    } else {
        lemma_missing_cell_is_written(before, events[close], np, i);
    }
}

/// Inside a row, the pass stays in the row.
proof fn lemma_lasts(events: Seq<EventModel>, np: Seq<PatchModel>, open: int, upto: int)
    requires
        0 <= open < upto <= events.len(),
        events[open].kind == EventKind::Start,
        tag_name(events[open].content) == utf8("row"@),
        walk(events.subrange(0, open), np).in_sheet_data,
        inside_row(events, open + 1, upto),
        !walk(events.subrange(0, upto), np).failed,
    ensures
        walk(events.subrange(0, upto), np).row == Some(row_number(events[open].content)),
{
    lemma_columns_seen(events, np, open, upto, 0);
}

} // verus!
