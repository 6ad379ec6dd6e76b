use wolfxl::xml::{
    attr_value, attributes, read_accepted, read_events, render, tag_is, tag_name_len, unescape,
    EventKind, XmlError, XmlEvent,
};

fn event(kind: EventKind, content: &str) -> XmlEvent {
    XmlEvent { kind, content: content.as_bytes().to_vec() }
}

fn kinds_and_contents(events: &[XmlEvent]) -> Vec<(EventKind, String)> {
    events
        .iter()
        .map(|e| (e.kind, String::from_utf8(e.content.clone()).unwrap()))
        .collect()
}

fn pair(kind: EventKind, content: &str) -> (EventKind, String) {
    (kind, content.to_string())
}

#[test]
fn events_of_a_document() {
    let xml = "<?xml version=\"1.0\"?><!DOCTYPE a><a x=\"1\"><!-- c --><b/>t&amp;u<![CDATA[<raw>]]><?pi data?></a >\n";
    let events = read_events(xml).unwrap();
    assert_eq!(
        kinds_and_contents(&events),
        vec![
            pair(EventKind::Decl, "xml version=\"1.0\""),
            pair(EventKind::DocType, "a"),
            pair(EventKind::Start, "a x=\"1\""),
            pair(EventKind::Comment, " c "),
            pair(EventKind::Empty, "b"),
            pair(EventKind::Text, "t&amp;u"),
            pair(EventKind::CData, "<raw>"),
            pair(EventKind::PI, "pi data"),
            pair(EventKind::End, "a"),
            pair(EventKind::Text, "\n"),
        ]
    );
}

#[test]
fn empty_document_has_no_events() {
    assert_eq!(read_events("").unwrap().len(), 0);
}

#[test]
fn rejected_documents() {
    assert_eq!(read_events("<a></b>").err(), Some(XmlError::Malformed));
    assert_eq!(read_events("<a></a></a>").err(), Some(XmlError::Malformed));
    assert_eq!(read_events("<a").err(), Some(XmlError::Malformed));
    assert_eq!(read_events("<a><!-- ").err(), Some(XmlError::Malformed));
    let (events, complete) = read_accepted("<a><b/></c><d/>");
    assert!(!complete);
    assert_eq!(
        kinds_and_contents(&events),
        vec![pair(EventKind::Start, "a"), pair(EventKind::Empty, "b")]
    );
    let (events, complete) = read_accepted("<a/>");
    assert!(complete);
    assert_eq!(events.len(), 1);
}

#[test]
fn documents_are_written_as_they_were_read() {
    let xml = "<?xml version=\"1.0\"?>\n<a x='1' y = \"2\"><!-- c --><b/>t&amp;u<![CDATA[<raw>]]><?pi data?></a>";
    let events = read_events(xml).unwrap();
    assert_eq!(String::from_utf8(render(&events)).unwrap(), xml);
}

#[test]
fn every_kind_is_written() {
    let events = vec![
        event(EventKind::Decl, "xml"),
        event(EventKind::DocType, "d"),
        event(EventKind::Start, "a b=\"c\""),
        event(EventKind::Empty, "e"),
        event(EventKind::Text, "t"),
        event(EventKind::CData, "x"),
        event(EventKind::Comment, "y"),
        event(EventKind::PI, "z"),
        event(EventKind::Eof, "lost"),
        event(EventKind::Malformed, "lost"),
        event(EventKind::End, "a"),
    ];
    assert_eq!(
        String::from_utf8(render(&events)).unwrap(),
        "<?xml?><!DOCTYPE d><a b=\"c\"><e/>t<![CDATA[x]]><!--y--><?z?></a>"
    );
}

#[test]
fn names_of_tags() {
    assert_eq!(tag_name_len(b"row r=\"1\""), 3);
    assert_eq!(tag_name_len(b"row"), 3);
    assert_eq!(tag_name_len(b"row\tr=\"1\""), 3);
    assert_eq!(tag_name_len(b""), 0);
    assert_eq!(tag_name_len(b" x"), 0);
    assert!(tag_is(b"c r=\"A1\"", "c"));
    assert!(tag_is(b"c\nr=\"A1\"", "c"));
    assert!(!tag_is(b"col r=\"A1\"", "c"));
    assert!(!tag_is(b"c", "col"));
    assert!(!tag_is(b"x:c", "c"));
}

#[test]
fn attribute_values() {
    let tag = b"c r=\"A1\" s='3' t = \"a &amp; b &#65;\" r=\"B2\" u=\"&bad;\"";
    assert_eq!(attr_value(tag, "r"), Some("A1".to_string()));
    assert_eq!(attr_value(tag, "s"), Some("3".to_string()));
    assert_eq!(attr_value(tag, "t"), Some("a & b A".to_string()));
    assert_eq!(attr_value(tag, "u"), Some("&bad;".to_string()));
    assert_eq!(attr_value(tag, "c"), None);
    assert_eq!(attr_value(tag, "v"), None);
    assert_eq!(attr_value(b"c", "r"), None);
    assert_eq!(attr_value(b"r=\"A1\"", "r"), None);
    assert_eq!(attr_value(b"c\xff r=\"A1\"", "r"), None);
}

#[test]
fn attribute_lists() {
    let pairs = |tag: &[u8], checked: bool| -> Vec<Option<(String, String)>> {
        attributes(tag, checked)
            .into_iter()
            .map(|a| {
                a.map(|a| {
                    (String::from_utf8(a.key).unwrap(), String::from_utf8(a.value).unwrap())
                })
            })
            .collect()
    };
    let some = |k: &str, v: &str| Some((k.to_string(), v.to_string()));
    assert_eq!(
        pairs(b"c r=\"A1\" t='&amp;'", true),
        vec![some("r", "A1"), some("t", "&amp;")]
    );
    assert_eq!(
        pairs(b"c r=\"A1\" r=\"B1\" s=\"1\"", true),
        vec![some("r", "A1"), None, some("s", "1")]
    );
    assert_eq!(
        pairs(b"c r=\"A1\" r=\"B1\" s=\"1\"", false),
        vec![some("r", "A1"), some("r", "B1"), some("s", "1")]
    );
    assert_eq!(pairs(b"c r=A1 s=\"1\"", true), vec![None, some("s", "1")]);
    assert_eq!(pairs(b"c", true), vec![]);
    // A tag that is only a name has no attributes, whatever its bytes.
    assert_eq!(pairs(b"", false), vec![]);
    assert_eq!(pairs(b"\xff\xfe", false), vec![]);
    assert_eq!(pairs(b"c ", false), vec![]);
    assert_eq!(pairs(b"\xff r=\"A1\"", false), vec![]);
    assert_eq!(attr_value(b"row", "r"), None);
}

#[test]
fn entities_are_replaced() {
    assert_eq!(unescape(b"a &lt; b &gt; c &amp; &quot;d&quot; &apos;e&apos; &#228;"), Some("a < b > c & \"d\" 'e' ä".to_string()));
    assert_eq!(unescape(b"plain"), Some("plain".to_string()));
    assert_eq!(unescape(b"&nbsp;"), None);
    assert_eq!(unescape(b"a & b"), None);
    assert_eq!(unescape(b"\xff"), None);
}
