//! The shared string table of a package.
//!
//! A cell of type `s` holds an index into this table.  The library only
//! reads the table: the strings that it writes stand inline in their cells.

use crate::text::{bytes_eq, into_text, push_text, utf8};
use crate::xml::{
    accepted_events, document_events, models, read_accepted, tag_is, tag_name, unescape,
    unescaped_value, EventKind, EventModel, XmlEvent,
};
use vstd::prelude::*;
use vstd::utf8::valid_utf8;

verus! {

/// Where a pass through the events of a string table stands.
pub struct TableWalk {
    /// The text of the entry (`si`) that the pass is in, as far as it has
    /// been read.
    pub current: Option<Seq<u8>>,
    /// Whether the pass is inside a text element (`t`).
    pub in_text: bool,
    /// The entries that are complete.
    pub strings: Seq<Seq<u8>>,
}

/// One event of a string table.  The text of an entry is what its `t`
/// elements hold, unescaped and put together, so that the runs of a rich
/// text make one string.  Text that cannot be unescaped is left out.
pub open spec fn table_step(w: TableWalk, ev: EventModel) -> TableWalk {
    match ev.kind {
        EventKind::Start => if tag_name(ev.content) == utf8("si"@) {
            TableWalk { current: Some(Seq::empty()), ..w }
        } else if tag_name(ev.content) == utf8("t"@) {
            TableWalk { in_text: true, ..w }
        } else {
            w
        },
        EventKind::End => if ev.content == utf8("si"@) {
            TableWalk {
                current: None,
                strings: w.strings.push(
                    match w.current {
                        Some(text) => text,
                        None => Seq::empty(),
                    },
                ),
                ..w
            }
        } else if ev.content == utf8("t"@) {
            TableWalk { in_text: false, ..w }
        } else {
            w
        },
        EventKind::Text => match (w.in_text, w.current, unescaped_value(ev.content)) {
            (true, Some(text), Some(more)) => TableWalk { current: Some(text + more), ..w },
            _ => w,
        },
        _ => w,
    }
}

/// The pass through all events of a string table.
pub open spec fn table_walk(events: Seq<EventModel>) -> TableWalk
    decreases events.len(),
{
    if events.len() == 0 {
        TableWalk { current: None, in_text: false, strings: Seq::empty() }
    } else {
        table_step(table_walk(events.drop_last()), events.last())
    }
}

/// The bytes of a sequence of strings.
pub open spec fn string_bytes(strings: Seq<String>) -> Seq<Seq<u8>> {
    Seq::new(strings.len(), |i: int| utf8(strings[i]@))
}

/// Gathers the strings among the events of a shared string table, one for
/// each `si` element, in order; see [`table_walk`].
pub fn table_strings(events: &[XmlEvent]) -> (strings: Vec<String>)
    ensures
        string_bytes(strings@) == table_walk(models(events@)).strings,
{
    let ghost all = models(events@);
    let mut strings: Vec<String> = Vec::new();
    let mut current: Option<Vec<u8>> = None;
    let mut in_text = false;
    let mut i: usize = 0;
    assert(all.subrange(0, 0) =~= Seq::<EventModel>::empty());
    assert(string_bytes(strings@) =~= Seq::<Seq<u8>>::empty());
    while i < events.len()
        invariant
            i <= events.len(),
            all == models(events@),
            table_walk(all.subrange(0, i as int)).in_text == in_text,
            table_walk(all.subrange(0, i as int)).strings == string_bytes(strings@),
            match current {
                Some(text) => table_walk(all.subrange(0, i as int)).current == Some(text@)
                    && valid_utf8(text@),
                None => table_walk(all.subrange(0, i as int)).current.is_none(),
            },
        decreases events.len() - i,
    {
        let ghost next = all.subrange(0, i + 1);
        assert(next.drop_last() =~= all.subrange(0, i as int));
        assert(next.last() == events@[i as int]@);
        let ev = &events[i];
        match ev.kind {
            EventKind::Start => {
                if tag_is(ev.content.as_slice(), "si") {
                    current = Some(Vec::new());
                } else if tag_is(ev.content.as_slice(), "t") {
                    in_text = true;
                }
            },
            EventKind::End => {
                if bytes_eq(ev.content.as_slice(), "si".as_bytes()) {
                    let ghost before = string_bytes(strings@);
                    let text = match current {
                        Some(text) => into_text(text),
                        None => {
                            let none = String::new();
                            assert(utf8(none@) =~= Seq::<u8>::empty());
                            none
                        },
                    };
                    strings.push(text);
                    assert(string_bytes(strings@) =~= before.push(utf8(text@)));
                    current = None;
                } else if bytes_eq(ev.content.as_slice(), "t".as_bytes()) {
                    in_text = false;
                }
            },
            EventKind::Text => {
                if in_text {
                    match current {
                        Some(mut text) => {
                            match unescape(ev.content.as_slice()) {
                                Some(more) => {
                                    push_text(&mut text, more.as_str());
                                },
                                None => {},
                            }
                            current = Some(text);
                        },
                        None => {},
                    }
                }
            },
            _ => {},
        }
        i += 1;
    }
    assert(all.subrange(0, events.len() as int) =~= all);
    strings
}

/// Reads a shared string table into its strings; see [`table_strings`].
/// Reading ends where the parser rejects the part.
pub fn parse_shared_strings(xml: &str) -> (strings: Vec<String>)
    ensures
        string_bytes(strings@) == table_walk(
            accepted_events(document_events(utf8(xml@))),
        ).strings,
{
    let (events, _) = read_accepted(xml);
    table_strings(events.as_slice())
}

} // verus!
