use wolfxl::shared_strings::{parse_shared_strings, table_strings};
use wolfxl::xml::{EventKind, XmlEvent};

#[test]
fn test_plain_strings() {
    let xml = r#"<?xml version="1.0" encoding="UTF-8" standalone="yes"?>
<sst xmlns="http://schemas.openxmlformats.org/spreadsheetml/2006/main" count="3" uniqueCount="3">
  <si><t>Hello</t></si>
  <si><t>World</t></si>
  <si><t>Test 123</t></si>
</sst>"#;
    let result = parse_shared_strings(xml);
    assert_eq!(result, vec!["Hello", "World", "Test 123"]);
}

#[test]
fn test_rich_text_runs() {
    let xml = r#"<?xml version="1.0" encoding="UTF-8" standalone="yes"?>
<sst xmlns="http://schemas.openxmlformats.org/spreadsheetml/2006/main" count="1" uniqueCount="1">
  <si>
    <r><rPr><b/></rPr><t>Bold</t></r>
    <r><t> Normal</t></r>
  </si>
</sst>"#;
    let result = parse_shared_strings(xml);
    assert_eq!(result, vec!["Bold Normal"]);
}

#[test]
fn test_empty_sst() {
    let xml = r#"<?xml version="1.0" encoding="UTF-8" standalone="yes"?>
<sst xmlns="http://schemas.openxmlformats.org/spreadsheetml/2006/main" count="0" uniqueCount="0">
</sst>"#;
    let result = parse_shared_strings(xml);
    assert!(result.is_empty());
}

#[test]
fn test_mixed_plain_and_rich() {
    let xml = r#"<sst count="3" uniqueCount="3">
  <si><t>Plain</t></si>
  <si><r><t>Rich</t></r><r><t> Text</t></r></si>
  <si><t>Also plain</t></si>
</sst>"#;
    let result = parse_shared_strings(xml);
    assert_eq!(result, vec!["Plain", "Rich Text", "Also plain"]);
}

#[test]
fn test_xml_entities() {
    let xml = r#"<sst count="1" uniqueCount="1">
  <si><t>A &amp; B &lt; C</t></si>
</sst>"#;
    let result = parse_shared_strings(xml);
    assert_eq!(result, vec!["A & B < C"]);
}

#[test]
fn test_empty_string_entry() {
    let xml = r#"<sst count="2" uniqueCount="2">
  <si><t></t></si>
  <si><t>After empty</t></si>
</sst>"#;
    let result = parse_shared_strings(xml);
    assert_eq!(result, vec!["", "After empty"]);
}

#[test]
fn text_outside_of_text_elements_is_left_out() {
    let xml = "<sst><si>x<t>a</t>y<phoneticPr/>z<t xml:space=\"preserve\"> b </t></si><t>lost</t></sst>";
    assert_eq!(parse_shared_strings(xml), vec!["a b "]);
}

#[test]
fn unknown_entity_is_left_out() {
    let xml = "<sst><si><t>a&unknown;b</t></si><si><t>&#65;&#x42;</t></si></sst>";
    assert_eq!(parse_shared_strings(xml), vec!["", "AB"]);
}

#[test]
fn strings_up_to_an_error() {
    let xml = "<sst><si><t>one</t></si><si><t>two</t></wrong></si></sst>";
    assert_eq!(parse_shared_strings(xml), vec!["one"]);
}

fn table_event(kind: EventKind, content: &str) -> XmlEvent {
    XmlEvent { kind, content: content.as_bytes().to_vec() }
}

#[test]
fn strings_among_events() {
    let events = vec![
        table_event(EventKind::Start, "sst"),
        table_event(EventKind::Text, "lost"),
        table_event(EventKind::Start, "si"),
        table_event(EventKind::Start, "t"),
        table_event(EventKind::Text, "a &amp; "),
        table_event(EventKind::End, "t"),
        table_event(EventKind::Text, "between"),
        table_event(EventKind::Start, "r"),
        table_event(EventKind::Start, "t xml:space=\"preserve\""),
        table_event(EventKind::Text, "b"),
        table_event(EventKind::End, "t"),
        table_event(EventKind::End, "r"),
        table_event(EventKind::End, "si"),
        table_event(EventKind::Start, "si"),
        table_event(EventKind::Empty, "t"),
        table_event(EventKind::End, "si"),
        table_event(EventKind::Start, "t"),
        table_event(EventKind::Text, "outside"),
        table_event(EventKind::End, "t"),
        table_event(EventKind::End, "sst"),
    ];
    assert_eq!(table_strings(&events), vec!["a & b".to_string(), String::new()]);
    // An entry that does not end is no string yet.
    assert_eq!(table_strings(&events[..12]), Vec::<String>::new());
    assert_eq!(table_strings(&[]), Vec::<String>::new());
}
