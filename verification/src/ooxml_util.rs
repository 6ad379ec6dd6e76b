//! Paths of parts inside a package, and the two parts that say where the
//! worksheets are: the workbook and its relationships.

use crate::text::{
    bytes_eq, into_text, lemma_boundary_after_ascii, lemma_boundary_at, lemma_piece_is_utf8,
    matches_at, occurs_at, push_bytes, push_piece, push_text, utf8,
};
use crate::xml::{
    accepted, attr_value, attr_value_of, document_events, models, read_events, tag_is, tag_name,
    EventKind, EventModel, XmlEvent,
};
use vstd::prelude::*;
use vstd::utf8::{encode_utf8_valid_utf8, is_char_boundary, valid_utf8};

verus! {

// ---------------------------------------------------------------------------
// Paths
// ---------------------------------------------------------------------------
/// The segments of a path that are settled, with one more segment: an empty
/// one and `.` change nothing, `..` takes the last segment away, if there is
/// one, and any other segment is added.
pub open spec fn with_segment(stack: Seq<Seq<u8>>, segment: Seq<u8>) -> Seq<Seq<u8>> {
    if segment.len() == 0 || segment == utf8("."@) {
        stack
    } else if segment == utf8(".."@) {
        if stack.len() > 0 {
            stack.drop_last()
        } else {
            stack
        }
    } else {
        stack.push(segment)
    }
}

/// A path that has been read up to some point: the segments that are
/// settled, and the segment that is being read.
pub struct PathWalk {
    pub stack: Seq<Seq<u8>>,
    pub segment: Seq<u8>,
}

/// Reading a path byte by byte: a slash ends a segment.
pub open spec fn path_walk(path: Seq<u8>) -> PathWalk
    decreases path.len(),
{
    if path.len() == 0 {
        PathWalk { stack: Seq::empty(), segment: Seq::empty() }
    } else {
        let before = path_walk(path.drop_last());
        if path.last() == 47 {
            PathWalk { stack: with_segment(before.stack, before.segment), segment: Seq::empty() }
        } else {
            PathWalk { segment: before.segment.push(path.last()), ..before }
        }
    }
}

/// The segments that a path comes down to.
pub open spec fn path_segments(path: Seq<u8>) -> Seq<Seq<u8>> {
    with_segment(path_walk(path).stack, path_walk(path).segment)
}

/// Segments with slashes between them.
pub open spec fn slash_joined(segments: Seq<Seq<u8>>) -> Seq<u8>
    decreases segments.len(),
{
    if segments.len() == 0 {
        Seq::empty()
    } else if segments.len() == 1 {
        segments[0]
    } else {
        slash_joined(segments.drop_last()) + utf8("/"@) + segments.last()
    }
}

/// A path without empty segments, `.` and `..`.
pub open spec fn normalized_path(path: Seq<u8>) -> Seq<u8> {
    slash_joined(path_segments(path))
}

/// The pieces of a path that a stack of ranges stands for.
spec fn pieces(path: Seq<u8>, ranges: Seq<(usize, usize)>) -> Seq<Seq<u8>> {
    Seq::new(ranges.len(), |i: int| path.subrange(ranges[i].0 as int, ranges[i].1 as int))
}

/// Whether ranges lie inside a path and are cut at character boundaries.
spec fn ranges_fit(path: Seq<u8>, ranges: Seq<(usize, usize)>) -> bool {
    forall|i: int|
        0 <= i < ranges.len() ==> {
            &&& (#[trigger] ranges[i]).0 <= ranges[i].1 <= path.len()
            &&& valid_utf8(path) ==> is_char_boundary(path, ranges[i].0 as int)
                && is_char_boundary(path, ranges[i].1 as int)
        }
}

/// Settles one segment of a path on the stack of ranges.
fn settle_segment(path: &[u8], stack: &mut Vec<(usize, usize)>, from: usize, to: usize)
    requires
        from <= to <= path.len(),
        ranges_fit(path@, old(stack)@),
        valid_utf8(path@) ==> is_char_boundary(path@, from as int) && is_char_boundary(
            path@,
            to as int,
        ),
    ensures
        ranges_fit(path@, final(stack)@),
        pieces(path@, final(stack)@) == with_segment(
            pieces(path@, old(stack)@),
            path@.subrange(from as int, to as int),
        ),
{
    let segment = vstd::slice::slice_subrange(path, from, to);
    let ghost before = pieces(path@, stack@);
    if from == to || bytes_eq(segment, ".".as_bytes()) {
    } else if bytes_eq(segment, "..".as_bytes()) {
        if stack.len() > 0 {
            stack.pop();
            assert(pieces(path@, stack@) =~= before.drop_last());
        }
    } else {
        stack.push((from, to));
        assert(pieces(path@, stack@) =~= before.push(path@.subrange(from as int, to as int)));
    }
}

/// Writes the pieces of a path out with slashes between them.
fn join_pieces(path: &[u8], stack: &Vec<(usize, usize)>) -> (out: Vec<u8>)
    requires
        ranges_fit(path@, stack@),
    ensures
        out@ == slash_joined(pieces(path@, stack@)),
        valid_utf8(path@) ==> valid_utf8(out@),
{
    let mut out: Vec<u8> = Vec::new();
    let ghost all = pieces(path@, stack@);
    let mut i: usize = 0;
    assert(all.subrange(0, 0) =~= Seq::<Seq<u8>>::empty());
    while i < stack.len()
        invariant
            i <= stack.len(),
            all == pieces(path@, stack@),
            ranges_fit(path@, stack@),
            out@ == slash_joined(all.subrange(0, i as int)),
            valid_utf8(path@) ==> valid_utf8(out@),
        decreases stack.len() - i,
    {
        let ghost next = all.subrange(0, i + 1);
        assert(next.drop_last() =~= all.subrange(0, i as int));
        assert(next.last() == path@.subrange(stack@[i as int].0 as int, stack@[i as int].1 as int));
        let (from, to) = stack[i];
        if i > 0 {
            push_text(&mut out, "/");
        } else {
            assert(next[0] == next.last());
        }
        push_piece(&mut out, path, from, to);
        assert(out@ =~= slash_joined(next));
        i += 1;
    }
    assert(all.subrange(0, stack.len() as int) =~= all);
    out
}

/// Normalizes a path given as bytes; see [`normalized_path`].
pub fn normalize_path_bytes(path: &[u8]) -> (out: Vec<u8>)
    ensures
        out@ == normalized_path(path@),
        valid_utf8(path@) ==> valid_utf8(out@),
{
    let mut stack: Vec<(usize, usize)> = Vec::new();
    let mut from: usize = 0;
    let mut i: usize = 0;
    proof {
        assert(pieces(path@, stack@) =~= path_walk(path@.subrange(0, 0)).stack);
        assert(path@.subrange(0, 0) =~= path_walk(path@.subrange(0, 0)).segment);
        if valid_utf8(path@) {
            lemma_boundary_at(path@, 0);
        }
    }
    while i < path.len()
        invariant
            from <= i <= path.len(),
            ranges_fit(path@, stack@),
            pieces(path@, stack@) == path_walk(path@.subrange(0, i as int)).stack,
            path@.subrange(from as int, i as int) == path_walk(path@.subrange(0, i as int)).segment,
            valid_utf8(path@) ==> is_char_boundary(path@, from as int),
        decreases path.len() - i,
    {
        let ghost next = path@.subrange(0, i + 1);
        assert(next.drop_last() =~= path@.subrange(0, i as int));
        assert(next.last() == path@[i as int]);
        if path[i] == 47 {
            proof {
                if valid_utf8(path@) {
                    lemma_boundary_at(path@, i as int);
                    lemma_boundary_after_ascii(path@, i as int);
                }
            }
            settle_segment(path, &mut stack, from, i);
            from = i + 1;
            assert(path@.subrange(from as int, i + 1) =~= Seq::<u8>::empty());
        } else {
            assert(path@.subrange(from as int, i + 1) =~= path@.subrange(from as int, i as int).push(
                path@[i as int],
            ));
        }
        i += 1;
    }
    assert(path@.subrange(0, path.len() as int) =~= path@);
    proof {
        if valid_utf8(path@) {
            lemma_boundary_at(path@, path.len() as int);
        }
    }
    settle_segment(path, &mut stack, from, path.len());
    join_pieces(path, &stack)
}

/// Normalizes the path of a part: takes out empty segments and `.`, and lets
/// `..` take back the segment before it.
pub fn normalize_zip_path(path: &str) -> (out: String)
    ensures
        utf8(out@) == normalized_path(utf8(path@)),
{
    proof {
        encode_utf8_valid_utf8(path@);
    }
    into_text(normalize_path_bytes(path.as_bytes()))
}

/// How many slashes a path begins with.
pub open spec fn leading_slashes(path: Seq<u8>) -> int
    decreases path.len(),
{
    if path.len() > 0 && path[0] == 47 {
        1 + leading_slashes(path.drop_first())
    } else {
        0
    }
}

/// The path that a target names, seen from the directory `base_dir`: the
/// target itself, without leading slashes, where it begins with `xl/`, and
/// else the target inside the directory.
pub open spec fn joined_path(base_dir: Seq<u8>, target: Seq<u8>) -> Seq<u8> {
    let rest = target.subrange(leading_slashes(target), target.len() as int);
    if occurs_at(rest, utf8("xl/"@), 0) {
        normalized_path(rest)
    } else {
        normalized_path(base_dir + rest)
    }
}

proof fn lemma_leading_slashes(path: Seq<u8>, count: int)
    requires
        0 <= count <= path.len(),
        forall|i: int| 0 <= i < count ==> path[i] == 47,
        count < path.len() ==> path[count] != 47,
    ensures
        leading_slashes(path) == count,
    decreases path.len(),
{
    if count > 0 {
        let rest = path.drop_first();
        assert forall|i: int| 0 <= i < count - 1 implies rest[i] == 47 by {
            assert(rest[i] == path[i + 1]);
        }
        lemma_leading_slashes(rest, count - 1);
    }
}

/// Resolves the target of a relationship against a directory of the
/// package, and normalizes the path.
pub fn join_and_normalize(base_dir: &str, target: &str) -> (out: String)
    ensures
        utf8(out@) == joined_path(utf8(base_dir@), utf8(target@)),
{
    let bytes = target.as_bytes();
    proof {
        encode_utf8_valid_utf8(target@);
        encode_utf8_valid_utf8(base_dir@);
        lemma_boundary_at(bytes@, 0);
        lemma_boundary_at(bytes@, bytes@.len() as int);
    }
    let mut start: usize = 0;
    while start < bytes.len() && bytes[start] == 47
        invariant
            start <= bytes.len(),
            forall|i: int| 0 <= i < start ==> bytes@[i] == 47,
            valid_utf8(bytes@),
            is_char_boundary(bytes@, start as int),
        decreases bytes.len() - start,
    {
        proof {
            lemma_boundary_after_ascii(bytes@, start as int);
        }
        start += 1;
    }
    proof {
        lemma_leading_slashes(bytes@, start as int);
        lemma_piece_is_utf8(bytes@, start as int, bytes@.len() as int);
    }
    let rest = vstd::slice::slice_subrange(bytes, start, bytes.len());
    if matches_at(rest, "xl/".as_bytes(), 0) {
        into_text(normalize_path_bytes(rest))
    } else {
        let mut combined: Vec<u8> = Vec::new();
        push_text(&mut combined, base_dir);
        push_bytes(&mut combined, rest);
        assert(combined@ =~= utf8(base_dir@) + rest@);
        into_text(normalize_path_bytes(combined.as_slice()))
    }
}

// ---------------------------------------------------------------------------
// The workbook and its relationships
// ---------------------------------------------------------------------------
/// Why the parts that describe a package could not be used.
#[derive(Debug, Clone, Copy, PartialEq, Eq, Structural)]
pub enum PackageError {
    /// The parser rejected the workbook part.
    Workbook,
    /// The parser rejected the relationships of the workbook.
    Relationships,
}

/// Whether an event is an opening or self-closed tag with the given name.
pub open spec fn is_tag(ev: EventModel, name: Seq<u8>) -> bool {
    (ev.kind == EventKind::Start || ev.kind == EventKind::Empty) && tag_name(ev.content) == name
}

/// The pairs of values that the elements named `element` give for the
/// attributes `first` and `second`, in the order of the document.  Elements
/// that lack one of the two give nothing.
pub open spec fn attribute_pairs(
    events: Seq<EventModel>,
    element: Seq<u8>,
    first: Seq<u8>,
    second: Seq<u8>,
) -> Seq<(Seq<u8>, Seq<u8>)>
    decreases events.len(),
{
    if events.len() == 0 {
        Seq::empty()
    } else {
        let before = attribute_pairs(events.drop_last(), element, first, second);
        let ev = events.last();
        if is_tag(ev, element) {
            match (attr_value_of(ev.content, first), attr_value_of(ev.content, second)) {
                (Some(a), Some(b)) => before.push((a, b)),
                _ => before,
            }
        } else {
            before
        }
    }
}

/// The bytes of pairs of strings.
pub open spec fn pair_bytes(pairs: Seq<(String, String)>) -> Seq<(Seq<u8>, Seq<u8>)> {
    Seq::new(pairs.len(), |i: int| (utf8(pairs[i].0@), utf8(pairs[i].1@)))
}

/// Gathers two attributes from every element of a given name among the
/// events of a part, in order; see [`attribute_pairs`].  An element that
/// lacks one of the two is passed over.
pub fn collect_pairs(events: &[XmlEvent], element: &str, first: &str, second: &str) -> (pairs: Vec<
    (String, String),
>)
    ensures
        pair_bytes(pairs@) == attribute_pairs(
            models(events@),
            utf8(element@),
            utf8(first@),
            utf8(second@),
        ),
{
    let ghost all = models(events@);
    let mut pairs: Vec<(String, String)> = Vec::new();
    let mut i: usize = 0;
    assert(all.subrange(0, 0) =~= Seq::<EventModel>::empty());
    assert(pair_bytes(pairs@) =~= Seq::<(Seq<u8>, Seq<u8>)>::empty());
    while i < events.len()
        invariant
            i <= events.len(),
            all == models(events@),
            pair_bytes(pairs@) == attribute_pairs(
                all.subrange(0, i as int),
                utf8(element@),
                utf8(first@),
                utf8(second@),
            ),
        decreases events.len() - i,
    {
        let ghost next = all.subrange(0, i + 1);
        assert(next.drop_last() =~= all.subrange(0, i as int));
        assert(next.last() == events@[i as int]@);
        let ev = &events[i];
        let is_element = match ev.kind {
            EventKind::Start => true,
            EventKind::Empty => true,
            _ => false,
        };
        if is_element && tag_is(ev.content.as_slice(), element) {
            let a = attr_value(ev.content.as_slice(), first);
            let b = attr_value(ev.content.as_slice(), second);
            match (a, b) {
                (Some(a), Some(b)) => {
                    let ghost before = pair_bytes(pairs@);
                    pairs.push((a, b));
                    assert(pair_bytes(pairs@) =~= before.push((utf8(a@), utf8(b@))));
                },
                _ => {},
            }
        }
        i += 1;
    }
    assert(all.subrange(0, events.len() as int) =~= all);
    pairs
}

/// The sheets that a workbook part lists: for each `sheet` element its name
/// and the id of its relationship.
pub open spec fn workbook_sheets(xml: Seq<u8>) -> Seq<(Seq<u8>, Seq<u8>)> {
    attribute_pairs(document_events(xml), utf8("sheet"@), utf8("name"@), utf8("r:id"@))
}

/// The relationships that a relationships part lists: for each
/// `Relationship` element its id and its target.
pub open spec fn relationship_targets(xml: Seq<u8>) -> Seq<(Seq<u8>, Seq<u8>)> {
    attribute_pairs(document_events(xml), utf8("Relationship"@), utf8("Id"@), utf8("Target"@))
}

/// Reads the sheets of a workbook part, in the order of the workbook: the
/// name of each and the id of its relationship.
///
/// Fails exactly when the parser rejects the part.
pub fn parse_workbook_sheet_rids(xml: &str) -> (result: Result<Vec<(String, String)>, PackageError>)
    ensures
        match result {
            Ok(sheets) => accepted(document_events(utf8(xml@))) && pair_bytes(sheets@)
                == workbook_sheets(utf8(xml@)),
            Err(e) => e == PackageError::Workbook && !accepted(document_events(utf8(xml@))),
        },
{
    match read_events(xml) {
        Ok(events) => Ok(collect_pairs(events.as_slice(), "sheet", "name", "r:id")),
        Err(_) => Err(PackageError::Workbook),
    }
}

/// Reads the relationships of a workbook, in the order of the part: the id
/// of each and its target.
///
/// Fails exactly when the parser rejects the part.
pub fn parse_relationship_targets(xml: &str) -> (result: Result<
    Vec<(String, String)>,
    PackageError,
>)
    ensures
        match result {
            Ok(targets) => accepted(document_events(utf8(xml@))) && pair_bytes(targets@)
                == relationship_targets(utf8(xml@)),
            Err(e) => e == PackageError::Relationships && !accepted(document_events(utf8(xml@))),
        },
{
    match read_events(xml) {
        Ok(events) => Ok(collect_pairs(events.as_slice(), "Relationship", "Id", "Target")),
        Err(_) => Err(PackageError::Relationships),
    }
}

} // verus!
