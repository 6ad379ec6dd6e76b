use wolfxl::ooxml_util::{
    collect_pairs, join_and_normalize, normalize_zip_path, parse_relationship_targets,
    parse_workbook_sheet_rids, PackageError,
};
use wolfxl::xml::{EventKind, XmlEvent};
use wolfxl::package_index::PackageIndex;

#[test]
fn paths_are_normalized() {
    assert_eq!(normalize_zip_path("xl/worksheets/sheet1.xml"), "xl/worksheets/sheet1.xml");
    assert_eq!(normalize_zip_path("xl/worksheets/../styles.xml"), "xl/styles.xml");
    assert_eq!(normalize_zip_path("/xl//./worksheets/"), "xl/worksheets");
    assert_eq!(normalize_zip_path("../../a"), "a");
    assert_eq!(normalize_zip_path("a/b/../../../c/.."), "");
    assert_eq!(normalize_zip_path(""), "");
    assert_eq!(normalize_zip_path("..."), "...");
    assert_eq!(normalize_zip_path("a/.b/c."), "a/.b/c.");
    assert_eq!(normalize_zip_path("ä/ö/../ü"), "ä/ü");
}

#[test]
fn targets_are_resolved() {
    assert_eq!(join_and_normalize("xl/", "worksheets/sheet1.xml"), "xl/worksheets/sheet1.xml");
    assert_eq!(join_and_normalize("xl/", "/xl/worksheets/sheet1.xml"), "xl/worksheets/sheet1.xml");
    assert_eq!(join_and_normalize("xl/", "///xl/worksheets/sheet1.xml"), "xl/worksheets/sheet1.xml");
    assert_eq!(join_and_normalize("xl/", "xl/worksheets/sheet1.xml"), "xl/worksheets/sheet1.xml");
    assert_eq!(join_and_normalize("xl/", "../docProps/app.xml"), "docProps/app.xml");
    assert_eq!(join_and_normalize("xl/", "/worksheets/sheet1.xml"), "xl/worksheets/sheet1.xml");
    assert_eq!(join_and_normalize("xl/", "xlsx/a"), "xl/xlsx/a");
    assert_eq!(join_and_normalize("xl", "a"), "xla");
    assert_eq!(join_and_normalize("xl/", ""), "xl");
}

const WORKBOOK: &str = r#"<?xml version="1.0" encoding="UTF-8" standalone="yes"?>
<workbook xmlns="http://schemas.openxmlformats.org/spreadsheetml/2006/main" xmlns:r="http://schemas.openxmlformats.org/officeDocument/2006/relationships">
<sheets><sheet name="Data" sheetId="1" r:id="rId1"/><sheet name="R&amp;D" sheetId="2" r:id="rId2"></sheet><sheet name="Lost" sheetId="3" r:id="rId9"/><sheet sheetId="4" r:id="rId3"/></sheets>
</workbook>"#;

const RELS: &str = r#"<?xml version="1.0" encoding="UTF-8" standalone="yes"?>
<Relationships xmlns="http://schemas.openxmlformats.org/package/2006/relationships">
<Relationship Id="rId1" Type="t" Target="worksheets/sheet1.xml"/>
<Relationship Id="rId2" Type="t" Target="/xl/worksheets/sheet2.xml"/>
<Relationship Id="rId3" Type="t" Target="styles.xml"/>
<Relationship Id="rId4" Type="t"/>
</Relationships>"#;

fn pair(a: &str, b: &str) -> (String, String) {
    (a.to_string(), b.to_string())
}

#[test]
fn sheets_of_a_workbook() {
    assert_eq!(
        parse_workbook_sheet_rids(WORKBOOK),
        Ok(vec![pair("Data", "rId1"), pair("R&D", "rId2"), pair("Lost", "rId9")])
    );
}

#[test]
fn relationships_of_a_workbook() {
    assert_eq!(
        parse_relationship_targets(RELS),
        Ok(vec![
            pair("rId1", "worksheets/sheet1.xml"),
            pair("rId2", "/xl/worksheets/sheet2.xml"),
            pair("rId3", "styles.xml"),
        ])
    );
}

#[test]
fn malformed_parts_are_refused() {
    assert_eq!(parse_workbook_sheet_rids("<workbook><sheets></workbook>"), Err(PackageError::Workbook));
    assert_eq!(parse_relationship_targets("<Relationships></x>"), Err(PackageError::Relationships));
    assert_eq!(
        PackageIndex::build("<workbook></x>", "<Relationships></x>").err(),
        Some(PackageError::Workbook)
    );
    assert_eq!(
        PackageIndex::build(WORKBOOK, "<Relationships></x>").err(),
        Some(PackageError::Relationships)
    );
}

#[test]
fn index_of_a_package() {
    let index = PackageIndex::build(WORKBOOK, RELS).unwrap();
    assert_eq!(
        index.entries,
        vec![
            pair("Data", "xl/worksheets/sheet1.xml"),
            pair("R&D", "xl/worksheets/sheet2.xml"),
        ]
    );
    assert_eq!(index.sheet_names(), vec!["Data", "R&D"]);
    assert_eq!(index.path_of("R&D"), Some(&"xl/worksheets/sheet2.xml".to_string()));
    assert_eq!(index.path_of("Lost"), None);
    assert_eq!(index.path_of("data"), None);
}

#[test]
fn index_with_repeated_names_and_ids() {
    let workbook = r#"<workbook><sheets><sheet name="A" r:id="r1"/><sheet name="B" r:id="r2"/><sheet name="A" r:id="r3"/></sheets></workbook>"#;
    let rels = r#"<Relationships><Relationship Id="r1" Target="a.xml"/><Relationship Id="r2" Target="b.xml"/><Relationship Id="r3" Target="c.xml"/><Relationship Id="r2" Target="d.xml"/></Relationships>"#;
    let index = PackageIndex::build(workbook, rels).unwrap();
    assert_eq!(index.entries, vec![pair("A", "xl/c.xml"), pair("B", "xl/d.xml")]);
}

fn part_event(kind: EventKind, content: &str) -> XmlEvent {
    XmlEvent { kind, content: content.as_bytes().to_vec() }
}

#[test]
fn attribute_pairs_among_events() {
    let events = vec![
        part_event(EventKind::Start, "sheets"),
        part_event(EventKind::Empty, "sheet name=\"A &amp; B\" sheetId=\"1\" r:id=\"rId1\""),
        part_event(EventKind::Empty, "sheet name=\"No id\""),
        part_event(EventKind::Start, "sheet r:id=\"rId3\" name=\"Third\""),
        part_event(EventKind::End, "sheet"),
        part_event(EventKind::Text, "sheet name=\"Text\" r:id=\"rId4\""),
        part_event(EventKind::Empty, "sheetView name=\"View\" r:id=\"rId5\""),
        part_event(EventKind::End, "sheets"),
    ];
    assert_eq!(
        collect_pairs(&events, "sheet", "name", "r:id"),
        vec![
            ("A & B".to_string(), "rId1".to_string()),
            ("Third".to_string(), "rId3".to_string())
        ]
    );
    assert_eq!(
        collect_pairs(&events, "sheet", "sheetId", "name"),
        vec![("1".to_string(), "A & B".to_string())]
    );
    assert!(collect_pairs(&events, "Relationship", "Id", "Target").is_empty());
    assert!(collect_pairs(&[], "sheet", "name", "r:id").is_empty());
}
