//! A flat model of an XML document as the sequence of events that a pull
//! parser reports, and the reader that produces it.

use crate::text::{bytes_eq, push_bytes, push_text, utf8};
use quick_xml::events::attributes::{Attribute, Attributes};
use quick_xml::events::Event;
use quick_xml::Reader;
use vstd::prelude::*;
use vstd::utf8::valid_utf8;

verus! {

/// What kind of markup an event stands for.
#[derive(Debug, Clone, Copy, PartialEq, Eq, Structural)]
pub enum EventKind {
    /// An opening tag, `<name attrs>`.
    Start,
    /// A self-closed tag, `<name attrs/>`.
    Empty,
    /// A closing tag, `</name>`.
    End,
    /// Character data between tags, still escaped.
    Text,
    /// A `<![CDATA[ ]]>` section.
    CData,
    /// A `<!-- -->` comment.
    Comment,
    /// The `<?xml ?>` declaration.
    Decl,
    /// Another `<? ?>` processing instruction.
    PI,
    /// A `<!DOCTYPE >` declaration.
    DocType,
    /// The end of the document.
    Eof,
    /// Markup that the parser rejected.
    Malformed,
}

/// One event of a document: its kind and the bytes that the markup encloses.
///
/// For a tag the content is what stands between `<` (or `</`) and `>` (or
/// `/>`): the name, and for an opening tag the attributes after it.
#[derive(Debug, Clone)]
pub struct XmlEvent {
    pub kind: EventKind,
    pub content: Vec<u8>,
}

/// The mathematical value of an [`XmlEvent`].
pub struct EventModel {
    pub kind: EventKind,
    pub content: Seq<u8>,
}

impl View for XmlEvent {
    type V = EventModel;

    open spec fn view(&self) -> EventModel {
        EventModel { kind: self.kind, content: self.content@ }
    }
}

/// The models of a vector of events.
pub open spec fn models(events: Seq<XmlEvent>) -> Seq<EventModel> {
    Seq::new(events.len(), |i: int| events[i]@)
}

/// `quick_xml::Reader`: the pull parser.  Nothing of its inside is known
/// here; what it has still to report goes by the name `pending_steps`.
#[verifier::external_type_specification]
#[verifier::external_body]
#[verifier::reject_recursive_types(R)]
pub struct ExReader<R>(Reader<R>);

/// One step of a parser through a document: an event, and the position in
/// the document at which the parser stands when it has reported the event.
pub struct StepModel {
    pub event: EventModel,
    pub end: u64,
}

/// The steps that a parser over `input` takes, in order, up to the end of
/// the document.  A rejected piece of markup appears as an event of kind
/// `Malformed`; the end of the document itself is not part of the sequence.
pub uninterp spec fn document_steps(input: Seq<u8>) -> Seq<StepModel>;

/// The steps that `reader` has still to take.
pub uninterp spec fn pending_steps(reader: &Reader<&[u8]>) -> Seq<StepModel>;

/// The position in the document at which `reader` stands.
pub uninterp spec fn reader_position(reader: &Reader<&[u8]>) -> u64;

/// The events of steps.
pub open spec fn events_of(steps: Seq<StepModel>) -> Seq<EventModel> {
    Seq::new(steps.len(), |i: int| steps[i].event)
}

/// The positions of steps.
pub open spec fn ends_of(steps: Seq<StepModel>) -> Seq<u64> {
    Seq::new(steps.len(), |i: int| steps[i].end)
}

/// The events that a parser over `input` reports, in order, up to the end of
/// the document.
pub open spec fn document_events(input: Seq<u8>) -> Seq<EventModel> {
    events_of(document_steps(input))
}

/// For each event of `document_events`, the position in the document at
/// which the parser stands when it has reported the event.
pub open spec fn document_ends(input: Seq<u8>) -> Seq<u64> {
    ends_of(document_steps(input))
}

/// `quick_xml::Reader::from_str`: a parser over `xml` with the default
/// configuration, which has taken no step yet.
#[verifier::external_body]
fn open_reader<'a>(xml: &'a str) -> (reader: Reader<&'a [u8]>)
    ensures
        pending_steps(&reader) == document_steps(utf8(xml@)),
{
    Reader::from_str(xml)
}

/// `quick_xml::Reader::read_event`: takes the next event off the reader,
/// which then stands at the position that goes with the event.
/// An error of the parser is handed on as an event of kind `Malformed`;
/// once nothing is pending the reader answers `Eof`, with no content.
#[verifier::external_body]
fn next_event(reader: &mut Reader<&[u8]>) -> (event: XmlEvent)
    ensures
        pending_steps(old(reader)).len() > 0 ==> {
            &&& event@ == pending_steps(old(reader))[0].event
            &&& event.kind != EventKind::Eof
            &&& pending_steps(final(reader)) == pending_steps(old(reader)).drop_first()
            &&& reader_position(final(reader)) == pending_steps(old(reader))[0].end
        },
        pending_steps(old(reader)).len() == 0 ==> {
            &&& event.kind == EventKind::Eof
            &&& event.content@.len() == 0
            &&& pending_steps(final(reader)).len() == 0
        },
{
    let Ok(event) = reader.read_event() else {
        return XmlEvent { kind: EventKind::Malformed, content: Vec::new() };
    };
    let kind = match event {
        Event::Start(_) => EventKind::Start, Event::Empty(_) => EventKind::Empty,
        Event::End(_) => EventKind::End, Event::Text(_) => EventKind::Text,
        Event::CData(_) => EventKind::CData, Event::Comment(_) => EventKind::Comment,
        Event::Decl(_) => EventKind::Decl, Event::PI(_) => EventKind::PI,
        Event::DocType(_) => EventKind::DocType, Event::Eof => EventKind::Eof,
    };
    XmlEvent { kind, content: event.to_vec() }
}

/// `quick_xml::Reader::buffer_position`: where the reader stands in the
/// document.
#[verifier::external_body]
fn position(reader: &Reader<&[u8]>) -> (at: u64)
    ensures
        at == reader_position(reader),
{
    reader.buffer_position()
}

/// Why a document could not be read.
#[derive(Debug, Clone, Copy, PartialEq, Eq, Structural)]
pub enum XmlError {
    /// The parser rejected a piece of markup.
    Malformed,
}

/// Whether the parser accepts every piece of markup of a document.
pub open spec fn accepted(events: Seq<EventModel>) -> bool {
    forall|i: int| 0 <= i < events.len() ==> (#[trigger] events[i]).kind != EventKind::Malformed
}

/// Where the first rejected piece of markup stands among the events of a
/// document, or their number if there is none.
pub open spec fn first_rejected(events: Seq<EventModel>) -> int
    decreases events.len(),
{
    if events.len() == 0 {
        0
    } else {
        let before = first_rejected(events.drop_last());
        if before < events.len() - 1 || events.last().kind == EventKind::Malformed {
            before
        } else {
            events.len() as int
        }
    }
}

/// The events of a document up to the first piece of markup that the parser
/// rejects.
pub open spec fn accepted_events(events: Seq<EventModel>) -> Seq<EventModel> {
    events.subrange(0, first_rejected(events))
}

/// The first rejected event is found where accepted events end.
pub proof fn lemma_first_rejected(events: Seq<EventModel>, at: int)
    requires
        0 <= at <= events.len(),
        accepted(events.subrange(0, at)),
        at < events.len() ==> events[at].kind == EventKind::Malformed,
    ensures
        first_rejected(events) == at,
        0 <= first_rejected(events) <= events.len(),
        accepted(events) <==> at == events.len(),
    decreases events.len(),
{
    if events.len() > 0 {
        let head = events.drop_last();
        if at < events.len() {
            assert(head.subrange(0, at) =~= events.subrange(0, at));
            if at < head.len() {
                assert(head[at] == events[at]);
            }
            lemma_first_rejected(head, at);
        } else {
            assert(accepted(head)) by {
                assert forall|i: int| 0 <= i < head.len() implies (#[trigger] head[i]).kind
                    != EventKind::Malformed by {
                    assert(head[i] == events.subrange(0, at)[i]);
                }
            }
            assert(head.subrange(0, head.len() as int) =~= head);
            lemma_first_rejected(head, head.len() as int);
            assert(events.last() == events.subrange(0, at)[events.len() - 1]);
            assert(events.subrange(0, at) =~= events);
        }
    } else {
        assert(events.subrange(0, at) =~= events);
    }
}

/// The positions that go with the events of `accepted_events`.
pub open spec fn accepted_ends(input: Seq<u8>) -> Seq<u64> {
    document_ends(input).subrange(0, first_rejected(document_events(input)))
}

/// Reads a document into its events, up to the first piece of markup that
/// the parser rejects, with the position in the document after each event.
/// Also tells whether that was all of the document.
pub fn read_accepted_with_ends(xml: &str) -> (result: (Vec<XmlEvent>, Vec<u64>, bool))
    ensures
        models(result.0@) == accepted_events(document_events(utf8(xml@))),
        accepted(models(result.0@)),
        result.1@ == accepted_ends(utf8(xml@)),
        result.1@.len() == result.0@.len(),
        result.2 == accepted(document_events(utf8(xml@))),
{
    let mut reader = open_reader(xml);
    let mut events: Vec<XmlEvent> = Vec::new();
    let mut ends: Vec<u64> = Vec::new();
    let ghost steps = document_steps(utf8(xml@));
    let ghost all = events_of(steps);
    let ghost all_ends = ends_of(steps);
    let ghost mut taken: int = 0;
    assert(steps.subrange(0, steps.len() as int) =~= steps);
    loop
        invariant
            steps == document_steps(utf8(xml@)),
            all == events_of(steps),
            all_ends == ends_of(steps),
            0 <= taken <= steps.len(),
            pending_steps(&reader) == steps.subrange(taken, steps.len() as int),
            models(events@) == all.subrange(0, taken),
            ends@ == all_ends.subrange(0, taken),
            accepted(models(events@)),
        decreases pending_steps(&reader).len(),
    {
        let ghost read = models(events@);
        let event = next_event(&mut reader);
        let end = position(&reader);
        match event.kind {
            EventKind::Eof => {
                proof {
                    assert(taken == steps.len());
                    lemma_first_rejected(all, all.len() as int);
                }
                return (events, ends, true);
            },
            EventKind::Malformed => {
                proof {
                    assert(steps.subrange(taken, steps.len() as int)[0] == steps[taken]);
                    assert(all[taken] == steps[taken].event);
                    lemma_first_rejected(all, taken);
                }
                return (events, ends, false);
            },
            _ => {
                events.push(event);
                ends.push(end);
                proof {
                    assert(steps.subrange(taken, steps.len() as int)[0] == steps[taken]);
                    assert(steps.subrange(taken, steps.len() as int).drop_first()
                        =~= steps.subrange(taken + 1, steps.len() as int));
                    assert(all[taken] == steps[taken].event);
                    assert(all_ends[taken] == steps[taken].end);
                    assert(models(events@) =~= read.push(all[taken]));
                    assert(models(events@) =~= all.subrange(0, taken + 1));
                    assert(ends@ =~= all_ends.subrange(0, taken + 1));
                    taken = taken + 1;
                }
            },
        }
    }
}

/// Reads a document into its events, up to the first piece of markup that
/// the parser rejects.  Also tells whether that was all of the document.
pub fn read_accepted(xml: &str) -> (result: (Vec<XmlEvent>, bool))
    ensures
        models(result.0@) == accepted_events(document_events(utf8(xml@))),
        accepted(models(result.0@)),
        result.1 == accepted(document_events(utf8(xml@))),
{
    let (events, _, complete) = read_accepted_with_ends(xml);
    (events, complete)
}

/// Reads a whole document into its events.
///
/// Succeeds exactly when the parser accepts all of the document, and then
/// returns every event up to the end of the document.
pub fn read_events(xml: &str) -> (result: Result<Vec<XmlEvent>, XmlError>)
    ensures
        match result {
            Ok(events) => {
                &&& accepted(document_events(utf8(xml@)))
                &&& models(events@) == document_events(utf8(xml@))
            },
            Err(_) => !accepted(document_events(utf8(xml@))),
        },
{
    let (events, complete) = read_accepted(xml);
    if complete {
        proof {
            let all = document_events(utf8(xml@));
            assert(all.subrange(0, all.len() as int) =~= all);
            lemma_first_rejected(all, all.len() as int);
        }
        Ok(events)
    } else {
        Err(XmlError::Malformed)
    }
}

/// Whether a byte is white space in XML markup.
pub open spec fn is_xml_space(b: u8) -> bool {
    b == 32 || b == 13 || b == 10 || b == 9
}

/// The length of the name that a tag's content begins with: the bytes before
/// the first white space.
pub open spec fn name_len(content: Seq<u8>) -> int
    decreases content.len(),
{
    if content.len() == 0 || is_xml_space(content[0]) {
        0
    } else {
        1 + name_len(content.drop_first())
    }
}

/// The name of an opening or self-closed tag.
pub open spec fn tag_name(content: Seq<u8>) -> Seq<u8> {
    content.subrange(0, name_len(content))
}

/// The name ends inside the content, before the first white space.
pub proof fn lemma_name_len(content: Seq<u8>)
    ensures
        0 <= name_len(content) <= content.len(),
        forall|i: int| 0 <= i < name_len(content) ==> !is_xml_space(#[trigger] content[i]),
        name_len(content) < content.len() ==> is_xml_space(content[name_len(content)]),
    decreases content.len(),
{
    if content.len() > 0 && !is_xml_space(content[0]) {
        let rest = content.drop_first();
        lemma_name_len(rest);
        assert forall|i: int| 0 <= i < name_len(content) implies !is_xml_space(
            #[trigger] content[i],
        ) by {
            if i > 0 {
                assert(content[i] == rest[i - 1]);
            }
        }
    }
}

/// A prefix without white space that stops at white space, or at the end, is
/// the name.
pub proof fn lemma_name_len_is(content: Seq<u8>, len: int)
    requires
        0 <= len <= content.len(),
        forall|i: int| 0 <= i < len ==> !is_xml_space(#[trigger] content[i]),
        len < content.len() ==> is_xml_space(content[len]),
    ensures
        name_len(content) == len,
    decreases content.len(),
{
    if len > 0 {
        let rest = content.drop_first();
        assert forall|i: int| 0 <= i < len - 1 implies !is_xml_space(#[trigger] rest[i]) by {
            assert(rest[i] == content[i + 1]);
        }
        lemma_name_len_is(rest, len - 1);
    }
}

/// Measures the name of a tag.
pub fn tag_name_len(content: &[u8]) -> (len: usize)
    ensures
        len == name_len(content@),
        len <= content@.len(),
{
    let mut i: usize = 0;
    while i < content.len() && !(content[i] == 32 || content[i] == 13 || content[i] == 10
        || content[i] == 9)
        invariant
            i <= content.len(),
            forall|k: int| 0 <= k < i ==> !is_xml_space(#[trigger] content@[k]),
        decreases content.len() - i,
    {
        i += 1;
    }
    proof {
        lemma_name_len_is(content@, i as int);
    }
    i
}

/// Whether a tag has the given name.
pub fn tag_is(content: &[u8], name: &str) -> (same: bool)
    ensures
        same == (tag_name(content@) == utf8(name@)),
{
    let len = tag_name_len(content);
    bytes_eq(vstd::slice::slice_subrange(content, 0, len), name.as_bytes())
}

/// One attribute of a tag: its key, and its value as it stands between the
/// quotes, still escaped.
#[derive(Debug, Clone)]
pub struct XmlAttr {
    pub key: Vec<u8>,
    pub value: Vec<u8>,
}

/// The mathematical value of an [`XmlAttr`].
pub struct AttrModel {
    pub key: Seq<u8>,
    pub value: Seq<u8>,
}

impl View for XmlAttr {
    type V = AttrModel;

    open spec fn view(&self) -> AttrModel {
        AttrModel { key: self.key@, value: self.value@ }
    }
}

/// The model of what the attribute parser reports for one attribute.
pub open spec fn attr_model(attr: Option<XmlAttr>) -> Option<AttrModel> {
    match attr {
        Some(a) => Some(a@),
        None => None,
    }
}

/// The models of a vector of parsed attributes.
pub open spec fn attr_models(attrs: Seq<Option<XmlAttr>>) -> Seq<Option<AttrModel>> {
    Seq::new(attrs.len(), |i: int| attr_model(attrs[i]))
}

/// What the attribute parser reports for the tag content `tag`, read from
/// index `from` on: one entry for each attribute that it finds, in order, and
/// `None` where it found an error.  With `checked`, a key that occurs a second
/// time is an error.
pub uninterp spec fn attribute_list(tag: Seq<u8>, from: int, checked: bool) -> Seq<
    Option<AttrModel>,
>;

/// The unescaped form of an attribute value or of text: the bytes with each
/// entity and character reference replaced by what it stands for.  `None`
/// where the bytes hold a reference that XML does not define, or are not
/// valid UTF-8.
pub uninterp spec fn unescaped_value(raw: Seq<u8>) -> Option<Seq<u8>>;

/// `quick_xml::events::attributes::Attributes`: runs the attribute parser
/// over a tag's content from index `from` on, and collects what it reports,
/// with `None` in place of each error.
#[verifier::external_body]
fn parse_attributes(tag: &str, from: usize, checked: bool) -> (attrs: Vec<Option<XmlAttr>>)
    requires
        from <= utf8(tag@).len(),
    ensures
        attr_models(attrs@) == attribute_list(utf8(tag@), from as int, checked),
{
    Attributes::new(tag, from)
        .with_checks(checked)
        .map(|a| a.ok().map(|a| XmlAttr { key: a.key.as_ref().to_vec(), value: a.value.to_vec() }))
        .collect()
}

/// `quick_xml::events::attributes::Attribute::unescape_value`: reads the raw
/// value as UTF-8 and replaces the entities in it, as
/// `quick_xml::escape::unescape` does for any text.
#[verifier::external_body]
fn unescape_value(raw: &[u8]) -> (value: Option<String>)
    ensures
        match value {
            Some(v) => unescaped_value(raw@) == Some(utf8(v@)),
            None => unescaped_value(raw@).is_none(),
        },
{
    let attr = Attribute::from(("".as_bytes(), raw));
    attr.unescape_value().ok().map(|v| v.into_owned())
}

/// `core::str::from_utf8`: the bytes as a string slice, if they are valid
/// UTF-8.
#[verifier::external_body]
pub(crate) fn str_from_utf8(bytes: &[u8]) -> (text: Option<&str>)
    ensures
        text.is_some() == valid_utf8(bytes@),
        text matches Some(s) ==> utf8(s@) == bytes@,
{
    core::str::from_utf8(bytes).ok()
}

/// Replaces the entities in a raw attribute value or in raw text.
pub fn unescape(raw: &[u8]) -> (value: Option<String>)
    ensures
        match value {
            Some(v) => unescaped_value(raw@) == Some(utf8(v@)),
            None => unescaped_value(raw@).is_none(),
        },
{
    unescape_value(raw)
}

/// The attributes of an opening or self-closed tag, as the attribute parser
/// reports them for what follows the name.  A tag that is only a name has
/// none, and neither has content that is not valid UTF-8.
pub open spec fn attributes_of(content: Seq<u8>, checked: bool) -> Seq<Option<AttrModel>> {
    if name_len(content) >= content.len() {
        Seq::empty()
    } else if valid_utf8(content) {
        attribute_list(content, name_len(content), checked)
    } else {
        Seq::empty()
    }
}

/// Parses the attributes of an opening or self-closed tag.
pub fn attributes(content: &[u8], checked: bool) -> (attrs: Vec<Option<XmlAttr>>)
    ensures
        attr_models(attrs@) == attributes_of(content@, checked),
{
    let from = tag_name_len(content);
    let tag = if from < content.len() {
        str_from_utf8(content)
    } else {
        None
    };
    match tag {
        Some(tag) => parse_attributes(tag, from, checked),
        None => {
            let attrs: Vec<Option<XmlAttr>> = Vec::new();
            assert(attr_models(attrs@) =~= Seq::empty());
            attrs
        },
    }
}

/// The value that an attribute denotes: its unescaped form, or the raw value
/// where that has none.  A raw value that is not valid UTF-8 denotes
/// nothing.
pub open spec fn attr_text(raw: Seq<u8>) -> Seq<u8> {
    match unescaped_value(raw) {
        Some(v) => v,
        None => if valid_utf8(raw) {
            raw
        } else {
            Seq::empty()
        },
    }
}

/// The value of the first well-formed attribute with the given key among
/// `attrs`, from index `from` on.
pub open spec fn lookup(attrs: Seq<Option<AttrModel>>, key: Seq<u8>, from: int) -> Option<Seq<u8>>
    decreases attrs.len() - from,
{
    if from < 0 || from >= attrs.len() {
        None
    } else {
        match attrs[from] {
            Some(a) if a.key == key => Some(attr_text(a.value)),
            _ => lookup(attrs, key, from + 1),
        }
    }
}

/// The value of the attribute `key` of a tag: that of the first well-formed
/// attribute with that key, read without the check for repeated keys.
pub open spec fn attr_value_of(content: Seq<u8>, key: Seq<u8>) -> Option<Seq<u8>> {
    lookup(attributes_of(content, false), key, 0)
}

/// Reads the attribute `key` of an opening or self-closed tag.
pub fn attr_value(content: &[u8], key: &str) -> (value: Option<String>)
    ensures
        match value {
            Some(v) => attr_value_of(content@, utf8(key@)) == Some(utf8(v@)),
            None => attr_value_of(content@, utf8(key@)).is_none(),
        },
{
    let attrs = attributes(content, false);
    let ghost list = attributes_of(content@, false);
    let mut i: usize = 0;
    while i < attrs.len()
        invariant
            i <= attrs.len(),
            attr_models(attrs@) == list,
            list == attributes_of(content@, false),
            lookup(list, utf8(key@), 0) == lookup(list, utf8(key@), i as int),
        decreases attrs.len() - i,
    {
        assert(list[i as int] == attr_model(attrs@[i as int]));
        match &attrs[i] {
            Some(attr) => {
                if bytes_eq(attr.key.as_slice(), key.as_bytes()) {
                    return match unescape_value(attr.value.as_slice()) {
                        Some(v) => Some(v),
                        None => match str_from_utf8(attr.value.as_slice()) {
                            Some(raw) => Some(raw.to_owned()),
                            None => {
                                let none = String::new();
                                assert(utf8(none@) =~= Seq::<u8>::empty());
                                Some(none)
                            },
                        },
                    };
                }
            },
            None => {},
        }
        i += 1;
    }
    None
}

/// One byte of text as it stands in markup: `<`, `>`, `&` and `"` by their
/// entities, the apostrophe by its entity where `apos` is set, and every
/// other byte as itself.
pub open spec fn escaped_byte(b: u8, apos: bool) -> Seq<u8> {
    if b == 60 {
        utf8("&lt;"@)
    } else if b == 62 {
        utf8("&gt;"@)
    } else if b == 38 {
        utf8("&amp;"@)
    } else if b == 34 {
        utf8("&quot;"@)
    } else if b == 39 && apos {
        utf8("&apos;"@)
    } else {
        seq![b]
    }
}

/// Text as it stands in markup: each byte escaped.
pub open spec fn escaped(text: Seq<u8>, apos: bool) -> Seq<u8>
    decreases text.len(),
{
    if text.len() == 0 {
        Seq::empty()
    } else {
        escaped(text.drop_last(), apos) + escaped_byte(text.last(), apos)
    }
}

/// Escaping goes piece by piece.
pub proof fn lemma_escaped_concat(a: Seq<u8>, b: Seq<u8>, apos: bool)
    ensures
        escaped(a + b, apos) == escaped(a, apos) + escaped(b, apos),
    decreases b.len(),
{
    if b.len() == 0 {
        assert(a + b =~= a);
        assert(escaped(a, apos) + escaped(b, apos) =~= escaped(a, apos));
    } else {
        lemma_escaped_concat(a, b.drop_last(), apos);
        assert((a + b).drop_last() =~= a + b.drop_last());
        assert((a + b).last() == b.last());
        assert(escaped(a + b, apos) =~= escaped(a, apos) + escaped(b, apos));
    }
}

/// Escaping leaves bytes beyond ASCII as they are.
pub proof fn lemma_escaped_high(text: Seq<u8>, apos: bool)
    requires
        forall|i: int| 0 <= i < text.len() ==> #[trigger] text[i] >= 0x80,
    ensures
        escaped(text, apos) == text,
    decreases text.len(),
{
    if text.len() > 0 {
        let head = text.drop_last();
        assert forall|i: int| 0 <= i < head.len() implies #[trigger] head[i] >= 0x80 by {
            assert(head[i] == text[i]);
        }
        lemma_escaped_high(head, apos);
        assert(text.last() == text[text.len() - 1]);
        assert(escaped(text, apos) =~= text);
    } else {
        assert(escaped(text, apos) =~= text);
    }
}

/// Escaped text is valid UTF-8 where the text is.
pub proof fn lemma_escaped_is_utf8(text: Seq<u8>, apos: bool)
    requires
        valid_utf8(text),
    ensures
        valid_utf8(escaped(text, apos)),
    decreases text.len(),
{
    if text.len() > 0 {
        let len = vstd::utf8::length_of_first_scalar(text);
        let first = text.subrange(0, len);
        let rest = vstd::utf8::pop_first_scalar(text);
        assert(text =~= first + rest);
        lemma_escaped_is_utf8(rest, apos);
        lemma_escaped_concat(first, rest, apos);
        assert(valid_utf8(escaped(first, apos))) by {
            if vstd::utf8::is_leading_byte_width_1(text[0]) {
                assert(first =~= seq![text[0]]);
                assert(first.drop_last() =~= Seq::<u8>::empty());
                assert(escaped(first.drop_last(), apos) =~= Seq::<u8>::empty());
                assert(first.last() == text[0]);
                assert(escaped(first, apos) =~= escaped_byte(text[0], apos));
                vstd::utf8::encode_utf8_valid_utf8("&lt;"@);
                vstd::utf8::encode_utf8_valid_utf8("&gt;"@);
                vstd::utf8::encode_utf8_valid_utf8("&amp;"@);
                vstd::utf8::encode_utf8_valid_utf8("&quot;"@);
                vstd::utf8::encode_utf8_valid_utf8("&apos;"@);
                assert(crate::text::all_ascii(seq![text[0]]));
                crate::text::lemma_ascii_is_utf8(seq![text[0]]);
            } else {
                assert forall|i: int| 0 <= i < first.len() implies #[trigger] first[i]
                    >= 0x80 by {
                    assert(first[i] == text[i]);
                }
                lemma_escaped_high(first, apos);
                vstd::utf8::is_char_boundary_start_end_of_seq(rest);
                assert(vstd::utf8::is_char_boundary(text, len)) by {
                    reveal_with_fuel(vstd::utf8::is_char_boundary, 2);
                }
                vstd::utf8::valid_utf8_split(text, len);
            }
        }
        vstd::utf8::valid_utf8_concat(escaped(first, apos), escaped(rest, apos));
    }
}

/// Appends `text` to `out` as it stands in markup.
pub fn push_escaped(out: &mut Vec<u8>, text: &[u8], apos: bool)
    ensures
        final(out)@ == old(out)@ + escaped(text@, apos),
        valid_utf8(old(out)@) && valid_utf8(text@) ==> valid_utf8(final(out)@),
{
    proof {
        if valid_utf8(old(out)@) && valid_utf8(text@) {
            lemma_escaped_is_utf8(text@, apos);
            vstd::utf8::valid_utf8_concat(old(out)@, escaped(text@, apos));
        }
    }
    let mut i: usize = 0;
    while i < text.len()
        invariant
            i <= text.len(),
            out@ == old(out)@ + escaped(text@.subrange(0, i as int), apos),
        decreases text.len() - i,
    {
        let b = text[i];
        let ghost next = text@.subrange(0, i + 1);
        assert(next.drop_last() =~= text@.subrange(0, i as int));
        assert(next.last() == b);
        let ghost before = out@;
        if b == 60 {
            push_text(out, "&lt;");
        } else if b == 62 {
            push_text(out, "&gt;");
        } else if b == 38 {
            push_text(out, "&amp;");
        } else if b == 34 {
            push_text(out, "&quot;");
        } else if b == 39 && apos {
            push_text(out, "&apos;");
        } else {
            out.push(b);
        }
        assert(out@ =~= before + escaped_byte(b, apos));
        assert(out@ =~= old(out)@ + escaped(next, apos));
        i += 1;
    }
    assert(text@.subrange(0, text.len() as int) =~= text@);
}

/// The bytes that an event stands for in a document.
pub open spec fn rendered(event: EventModel) -> Seq<u8> {
    match event.kind {
        EventKind::Start => utf8("<"@) + event.content + utf8(">"@),
        EventKind::Empty => utf8("<"@) + event.content + utf8("/>"@),
        EventKind::End => utf8("</"@) + event.content + utf8(">"@),
        EventKind::Text => event.content,
        EventKind::CData => utf8("<![CDATA["@) + event.content + utf8("]]>"@),
        EventKind::Comment => utf8("<!--"@) + event.content + utf8("-->"@),
        EventKind::Decl => utf8("<?"@) + event.content + utf8("?>"@),
        EventKind::PI => utf8("<?"@) + event.content + utf8("?>"@),
        EventKind::DocType => utf8("<!DOCTYPE "@) + event.content + utf8(">"@),
        EventKind::Eof => Seq::empty(),
        EventKind::Malformed => Seq::empty(),
    }
}

/// The document that a sequence of events stands for.
pub open spec fn rendered_all(events: Seq<EventModel>) -> Seq<u8>
    decreases events.len(),
{
    if events.len() == 0 {
        Seq::empty()
    } else {
        rendered_all(events.drop_last()) + rendered(events.last())
    }
}

/// Appends the markup of one event to `out`.
pub fn write_event(out: &mut Vec<u8>, event: &XmlEvent)
    ensures
        final(out)@ == old(out)@ + rendered(event@),
{
    match event.kind {
        EventKind::Start => {
            push_text(out, "<");
            push_bytes(out, event.content.as_slice());
            push_text(out, ">");
        },
        EventKind::Empty => {
            push_text(out, "<");
            push_bytes(out, event.content.as_slice());
            push_text(out, "/>");
        },
        EventKind::End => {
            push_text(out, "</");
            push_bytes(out, event.content.as_slice());
            push_text(out, ">");
        },
        EventKind::Text => {
            push_bytes(out, event.content.as_slice());
        },
        EventKind::CData => {
            push_text(out, "<![CDATA[");
            push_bytes(out, event.content.as_slice());
            push_text(out, "]]>");
        },
        EventKind::Comment => {
            push_text(out, "<!--");
            push_bytes(out, event.content.as_slice());
            push_text(out, "-->");
        },
        EventKind::Decl => {
            push_text(out, "<?");
            push_bytes(out, event.content.as_slice());
            push_text(out, "?>");
        },
        EventKind::PI => {
            push_text(out, "<?");
            push_bytes(out, event.content.as_slice());
            push_text(out, "?>");
        },
        EventKind::DocType => {
            push_text(out, "<!DOCTYPE ");
            push_bytes(out, event.content.as_slice());
            push_text(out, ">");
        },
        EventKind::Eof => {},
        EventKind::Malformed => {},
    }
    assert(out@ =~= old(out)@ + rendered(event@));
}

/// Writes a sequence of events out as a document.
pub fn render(events: &[XmlEvent]) -> (out: Vec<u8>)
    ensures
        out@ == rendered_all(models(events@)),
{
    let mut out: Vec<u8> = Vec::new();
    let mut i: usize = 0;
    while i < events.len()
        invariant
            i <= events.len(),
            out@ == rendered_all(models(events@).subrange(0, i as int)),
        decreases events.len() - i,
    {
        let ghost done = models(events@).subrange(0, i as int);
        let ghost next = models(events@).subrange(0, i + 1);
        assert(next.drop_last() =~= done);
        assert(next.last() == events@[i as int]@);
        write_event(&mut out, &events[i]);
        i += 1;
    }
    assert(models(events@).subrange(0, events.len() as int) =~= models(events@));
    out
}

} // verus!
