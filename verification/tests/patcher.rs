use wolfxl::cell_ref::RefError;
use wolfxl::package_index::PackageIndex;
use wolfxl::patcher::{
    cell_value_from_payload, dict_to_border_spec, dict_to_format_spec, minimal_styles_xml,
    normalize_color, strip_leading_equal, BorderFields, BorderSideFields, FormatFields,
    InputError, Payload, SaveError, XlsxPatcher,
};
use wolfxl::sheet_patcher::{CellValue, Decimal, PatchError};
use wolfxl::styles::{BorderSideSpec, BorderSpec, FontSpec, FormatSpec};

fn pair(a: &str, b: &str) -> (String, String) {
    (a.to_string(), b.to_string())
}

fn index() -> PackageIndex {
    PackageIndex {
        entries: vec![
            pair("Data", "xl/worksheets/sheet1.xml"),
            pair("More", "xl/worksheets/sheet2.xml"),
        ],
    }
}

const SHEET1: &str = r#"<worksheet><sheetData><row r="1"><c r="A1"><v>42</v></c><c r="B1" s="1"><v>7</v></c></row></sheetData></worksheet>"#;
const SHEET2: &str = r#"<worksheet><sheetData/></worksheet>"#;

fn sources() -> Vec<(String, String)> {
    vec![pair("xl/worksheets/sheet1.xml", SHEET1), pair("xl/worksheets/sheet2.xml", SHEET2)]
}

fn number(n: i64) -> Option<Payload> {
    Some(Payload::Number(Decimal { mantissa: n, exponent: 0 }))
}

fn text(s: &str) -> Option<Payload> {
    Some(Payload::Text(s.to_string()))
}

fn bold() -> FormatSpec {
    FormatSpec { font: Some(FontSpec { bold: true, ..Default::default() }), ..Default::default() }
}

fn describe(value: CellValue) -> String {
    match value {
        CellValue::Blank => "blank".to_string(),
        CellValue::Number(n) => format!("number {} {}", n.mantissa, n.exponent),
        CellValue::String(s) => format!("string {s}"),
        CellValue::Boolean(b) => format!("boolean {b}"),
        CellValue::Formula(f) => format!("formula {f}"),
    }
}

fn value_of(type_tag: &str, payload: Option<Payload>) -> Result<String, InputError> {
    cell_value_from_payload(type_tag, payload).map(describe)
}

#[test]
fn values_from_payloads() {
    assert_eq!(value_of("blank", None), Ok("blank".to_string()));
    assert_eq!(value_of("blank", text("x")), Ok("blank".to_string()));
    assert_eq!(value_of("string", text("x")), Ok("string x".to_string()));
    assert_eq!(value_of("str", text("=x")), Ok("string =x".to_string()));
    assert_eq!(value_of("string", None), Ok("string ".to_string()));
    for tag in ["number", "float", "int", "integer"] {
        assert_eq!(value_of(tag, number(5)), Ok("number 5 0".to_string()));
        assert_eq!(value_of(tag, None), Ok("number 0 0".to_string()));
    }
    assert_eq!(value_of("boolean", Some(Payload::Boolean(true))), Ok("boolean true".to_string()));
    assert_eq!(value_of("bool", None), Ok("boolean false".to_string()));
    assert_eq!(value_of("formula", text("=SUM(A1:A2)")), Ok("formula SUM(A1:A2)".to_string()));
    assert_eq!(value_of("formula", text("SUM(A1:A2)")), Ok("formula SUM(A1:A2)".to_string()));
    assert_eq!(value_of("formula", text("==1")), Ok("formula =1".to_string()));
    assert_eq!(value_of("formula", None), Ok("formula ".to_string()));
}

#[test]
fn refused_payloads() {
    assert_eq!(value_of("date", text("x")), Err(InputError::UnknownType));
    assert_eq!(value_of("", None), Err(InputError::UnknownType));
    assert_eq!(value_of("String", text("x")), Err(InputError::UnknownType));
    assert_eq!(value_of("string", number(1)), Err(InputError::WrongValue));
    assert_eq!(value_of("number", text("1")), Err(InputError::WrongValue));
    assert_eq!(value_of("boolean", number(1)), Err(InputError::WrongValue));
    assert_eq!(value_of("formula", Some(Payload::Boolean(true))), Err(InputError::WrongValue));
}

#[test]
fn leading_equal_sign() {
    assert_eq!(strip_leading_equal("=A1".to_string()), "A1");
    assert_eq!(strip_leading_equal("A1=".to_string()), "A1=");
    assert_eq!(strip_leading_equal("=".to_string()), "");
    assert_eq!(strip_leading_equal("".to_string()), "");
    assert_eq!(strip_leading_equal("=é".to_string()), "é");
}

#[test]
fn colours() {
    assert_eq!(normalize_color("#ff0000"), "FFFF0000");
    assert_eq!(normalize_color("00ff00"), "FF00FF00");
    assert_eq!(normalize_color("80aabbcc"), "80AABBCC");
    assert_eq!(normalize_color("##abcdef"), "FFABCDEF");
    assert_eq!(normalize_color("#abc"), "FFabc");
    assert_eq!(normalize_color(""), "FF");
    assert_eq!(normalize_color("#"), "FF");
}

#[test]
fn format_from_fields() {
    let spec = dict_to_format_spec(FormatFields::default());
    assert!(spec.font.is_none());
    assert!(spec.fill.is_none());
    assert!(spec.border.is_none());
    assert!(spec.alignment.is_none());
    assert!(spec.number_format.is_none());

    let spec = dict_to_format_spec(FormatFields {
        bold: Some(false),
        font_color: Some("#ff0000".to_string()),
        bg_color: Some("00ff00".to_string()),
        number_format: Some("0.00".to_string()),
        h_align: Some("center".to_string()),
        vertical: Some("top".to_string()),
        v_align: Some("bottom".to_string()),
        wrap: Some(true),
        rotation: Some(45),
        ..Default::default()
    });
    let font = spec.font.unwrap();
    assert!(!font.bold);
    assert_eq!(font.color_rgb, Some("FFFF0000".to_string()));
    assert_eq!(font.name, None);
    assert_eq!(font.size, None);
    let fill = spec.fill.unwrap();
    assert_eq!(fill.pattern_type, "solid");
    assert_eq!(fill.fg_color_rgb, Some("FF00FF00".to_string()));
    assert_eq!(spec.number_format, Some("0.00".to_string()));
    let align = spec.alignment.unwrap();
    assert_eq!(align.horizontal, Some("center".to_string()));
    assert_eq!(align.vertical, Some("top".to_string()));
    assert!(align.wrap_text);
    assert_eq!(align.indent, 0);
    assert_eq!(align.text_rotation, 45);
}

#[test]
fn border_from_fields() {
    let border = dict_to_border_spec(BorderFields {
        top: Some(BorderSideFields {
            style: Some("thin".to_string()),
            color: Some("#0000ff".to_string()),
        }),
        left: Some(BorderSideFields { style: Some("thick".to_string()), color: None }),
        ..Default::default()
    });
    assert_eq!(
        border,
        BorderSpec {
            top: BorderSideSpec {
                style: Some("thin".to_string()),
                color_rgb: Some("FF0000FF".to_string())
            },
            left: BorderSideSpec { style: Some("thick".to_string()), color_rgb: None },
            right: BorderSideSpec::default(),
            bottom: BorderSideSpec::default(),
        }
    );
}

#[test]
fn empty_queue_replaces_nothing() {
    let patcher = XlsxPatcher::new(index());
    assert!(patcher.is_clean());
    assert!(!patcher.needs_styles());
    assert_eq!(patcher.affected_parts(), Vec::<String>::new());
    assert_eq!(patcher.save_plan(None, &vec![]), Ok(vec![]));
    assert_eq!(patcher.save_plan(Some("not even a style sheet"), &sources()), Ok(vec![]));
    assert_eq!(patcher.sheet_names(), vec!["Data", "More"]);
}

#[test]
fn queued_values_are_written() {
    let mut patcher = XlsxPatcher::new(index());
    patcher.queue_value("Data", "B1", "number", number(99)).unwrap();
    patcher.queue_value("Data", "A2", "string", text("new")).unwrap();
    patcher.queue_value("More", "C3", "formula", text("=A1+1")).unwrap();
    patcher.queue_value("Nowhere", "A1", "number", number(1)).unwrap();
    assert!(!patcher.is_clean());
    assert!(!patcher.needs_styles());
    assert_eq!(
        patcher.affected_parts(),
        vec!["xl/worksheets/sheet1.xml", "xl/worksheets/sheet2.xml"]
    );
    let plan = patcher.save_plan(None, &sources()).unwrap();
    assert_eq!(
        plan,
        vec![
            pair(
                "xl/worksheets/sheet1.xml",
                r#"<worksheet><sheetData><row r="1"><c r="A1"><v>42</v></c><c r="B1" s="1"><v>99</v></c></row><row r="2"><c r="A2" t="str"><v>new</v></c></row></sheetData></worksheet>"#
            ),
            pair(
                "xl/worksheets/sheet2.xml",
                r#"<worksheet><sheetData><row r="3"><c r="C3"><f>A1+1</f></c></row></sheetData></worksheet>"#
            ),
        ]
    );
    // The queue is still there, and a second plan is the same.
    assert_eq!(patcher.save_plan(None, &sources()), Ok(plan));
}

#[test]
fn later_value_replaces_earlier_one() {
    let mut patcher = XlsxPatcher::new(index());
    patcher.queue_value("Data", "A1", "number", number(1)).unwrap();
    patcher.queue_value("Data", "B1", "number", number(2)).unwrap();
    patcher.queue_value("Data", "A1", "boolean", Some(Payload::Boolean(true))).unwrap();
    let plan = patcher.save_plan(None, &sources()).unwrap();
    assert_eq!(
        plan,
        vec![pair(
            "xl/worksheets/sheet1.xml",
            r#"<worksheet><sheetData><row r="1"><c r="A1" t="b"><v>1</v></c><c r="B1" s="1"><v>2</v></c></row></sheetData></worksheet>"#
        )]
    );
}

#[test]
fn references_are_keys_as_written() {
    let mut patcher = XlsxPatcher::new(index());
    patcher.queue_value("Data", "a1", "number", number(1)).unwrap();
    patcher.queue_value("Data", "A1", "number", number(2)).unwrap();
    // Both are queued; the later one is the last patch for the cell.
    let plan = patcher.save_plan(None, &sources()).unwrap();
    assert!(plan[0].1.contains(r#"<c r="A1"><v>2</v></c>"#));
}

#[test]
fn refused_changes_leave_the_queue_alone() {
    let mut patcher = XlsxPatcher::new(index());
    assert_eq!(
        patcher.queue_value("Data", "A1", "date", None),
        Err(InputError::UnknownType)
    );
    assert_eq!(
        patcher.queue_value("Data", "1A!", "date", None),
        Err(InputError::UnknownType)
    );
    assert_eq!(
        patcher.queue_value("Data", "A0", "number", number(1)),
        Err(InputError::CellReference(RefError::BadRow))
    );
    assert_eq!(
        patcher.queue_value("Data", "$A$1", "number", number(1)),
        Err(InputError::CellReference(RefError::BadCharacter))
    );
    assert_eq!(
        patcher.queue_format("Data", "1", bold()),
        Err(InputError::CellReference(RefError::BadColumn))
    );
    assert_eq!(
        patcher.queue_border("Data", "", BorderSpec::default()),
        Err(InputError::CellReference(RefError::BadColumn))
    );
    assert!(patcher.is_clean());
}

#[test]
fn queued_formats_get_styles() {
    let mut patcher = XlsxPatcher::new(index());
    patcher.queue_value("Data", "A1", "number", number(5)).unwrap();
    patcher.queue_format("Data", "A1", bold()).unwrap();
    patcher.queue_format("Data", "B1", bold()).unwrap();
    patcher.queue_format("More", "B2", FormatSpec::default()).unwrap();
    assert!(patcher.needs_styles());
    let plan = patcher.save_plan(None, &sources()).unwrap();
    assert_eq!(plan.len(), 3);
    assert_eq!(
        plan[0],
        pair(
            "xl/worksheets/sheet1.xml",
            r#"<worksheet><sheetData><row r="1"><c r="A1" s="1"><v>5</v></c><c r="B1" s="2"><v>7</v></c></row></sheetData></worksheet>"#
        )
    );
    assert_eq!(
        plan[1],
        pair(
            "xl/worksheets/sheet2.xml",
            r#"<worksheet><sheetData><row r="2"><c r="B2" s="3"/></row></sheetData></worksheet>"#
        )
    );
    assert_eq!(plan[2].0, "xl/styles.xml");
    let styles = &plan[2].1;
    assert!(styles.contains("<fonts count=\"3\">"));
    assert!(styles.contains("<cellXfs count=\"4\">"));
    let expected = minimal_styles_xml()
        .replace(
            "</font></fonts>",
            "</font><font><b/></font><font><b/></font></fonts>",
        )
        .replace("<fonts count=\"1\">", "<fonts count=\"3\">")
        .replace("<cellXfs count=\"1\">", "<cellXfs count=\"4\">")
        .replace(
            "</cellXfs>",
            "<xf numFmtId=\"0\" fontId=\"1\" fillId=\"0\" borderId=\"0\" applyFont=\"1\"/><xf numFmtId=\"0\" fontId=\"2\" fillId=\"0\" borderId=\"0\" applyFont=\"1\"/><xf numFmtId=\"0\" fontId=\"0\" fillId=\"0\" borderId=\"0\"/></cellXfs>",
        );
    assert_eq!(styles, &expected);
}

#[test]
fn given_style_sheet_is_used() {
    let styles = "<styleSheet><fonts count=\"5\"></fonts><cellXfs count=\"8\"></cellXfs></styleSheet>";
    let mut patcher = XlsxPatcher::new(index());
    patcher.queue_format("Data", "A1", bold()).unwrap();
    let plan = patcher.save_plan(Some(styles), &sources()).unwrap();
    assert!(plan[0].1.contains(r#"<c r="A1" s="8"><v>42</v></c>"#));
    assert_eq!(
        plan[1],
        pair(
            "xl/styles.xml",
            "<styleSheet><fonts count=\"6\"><font><b/></font></fonts><cellXfs count=\"9\"><xf numFmtId=\"0\" fontId=\"5\" fillId=\"0\" borderId=\"0\" applyFont=\"1\"/></cellXfs></styleSheet>"
        )
    );
    let (resolved, ids) = patcher.resolve_styles(styles);
    assert_eq!(resolved, plan[1].1);
    assert_eq!(ids, vec![8]);
}

#[test]
fn format_replaces_and_border_joins() {
    let thin = BorderSpec {
        top: BorderSideSpec { style: Some("thin".to_string()), color_rgb: None },
        ..Default::default()
    };
    // A border joins the format that is queued.
    let mut patcher = XlsxPatcher::new(index());
    patcher.queue_format("Data", "A1", bold()).unwrap();
    patcher.queue_border("Data", "A1", thin.clone()).unwrap();
    let (styles, ids) = patcher.resolve_styles(&minimal_styles_xml());
    assert_eq!(ids, vec![1]);
    assert!(styles.contains("<font><b/></font>"));
    assert!(styles.contains("<top style=\"thin\"/>"));
    assert!(styles.contains("fontId=\"1\" fillId=\"0\" borderId=\"1\" applyFont=\"1\" applyBorder=\"1\"/>"));

    // A format takes the place of all that is queued, border and all.
    let mut patcher = XlsxPatcher::new(index());
    patcher.queue_border("Data", "A1", thin.clone()).unwrap();
    patcher.queue_format("Data", "A1", bold()).unwrap();
    let (styles, ids) = patcher.resolve_styles(&minimal_styles_xml());
    assert_eq!(ids, vec![1]);
    assert!(!styles.contains("<top style=\"thin\"/>"));
    assert!(styles.contains("fontId=\"1\" fillId=\"0\" borderId=\"0\" applyFont=\"1\"/>"));

    // A border alone is a format of its own.
    let mut patcher = XlsxPatcher::new(index());
    patcher.queue_border("Data", "A1", thin).unwrap();
    let (styles, _) = patcher.resolve_styles(&minimal_styles_xml());
    assert!(styles.contains("fontId=\"0\" fillId=\"0\" borderId=\"1\" applyBorder=\"1\"/>"));
}

#[test]
fn missing_part_is_reported() {
    let mut patcher = XlsxPatcher::new(index());
    patcher.queue_value("Data", "A1", "number", number(1)).unwrap();
    patcher.queue_value("More", "A1", "number", number(1)).unwrap();
    let only_first = vec![pair("xl/worksheets/sheet1.xml", SHEET1)];
    assert_eq!(patcher.save_plan(None, &only_first), Err(SaveError::MissingPart { part: 1 }));
    assert_eq!(patcher.save_plan(None, &vec![]), Err(SaveError::MissingPart { part: 0 }));
}

#[test]
fn part_that_cannot_be_patched_is_reported() {
    let mut patcher = XlsxPatcher::new(index());
    patcher.queue_value("More", "A1", "number", number(1)).unwrap();
    let broken = vec![pair("xl/worksheets/sheet2.xml", "<worksheet><sheetData></worksheet>")];
    assert_eq!(
        patcher.save_plan(None, &broken),
        Err(SaveError::Patch { part: 0, error: PatchError::Malformed })
    );
}

#[test]
fn style_sheet_that_cannot_be_read_is_reported() {
    let broken = "<styleSheet><fonts count=\"1\"></styleSheet>";
    let mut patcher = XlsxPatcher::new(index());
    patcher.queue_format("Data", "A1", bold()).unwrap();
    assert_eq!(patcher.save_plan(Some(broken), &sources()), Err(SaveError::StyleSheet));
    // Without a queued format the style sheet is not looked at.
    let mut patcher = XlsxPatcher::new(index());
    patcher.queue_value("Data", "A1", "number", number(1)).unwrap();
    assert!(patcher.save_plan(Some(broken), &sources()).is_ok());
}

#[test]
fn style_sheet_without_counts_is_counted() {
    let styles = "<styleSheet><fonts><font/><font/></fonts><cellXfs><xf/><xf/><xf/></cellXfs></styleSheet>";
    let mut patcher = XlsxPatcher::new(index());
    patcher.queue_format("Data", "A1", bold()).unwrap();
    patcher.queue_format("Data", "C1", bold()).unwrap();
    let plan = patcher.save_plan(Some(styles), &sources()).unwrap();
    assert!(plan[0].1.contains(r#"<c r="A1" s="3"><v>42</v></c>"#));
    assert!(plan[0].1.contains(r#"<c r="C1" s="4"/>"#));
    assert_eq!(
        plan[1],
        pair(
            "xl/styles.xml",
            "<styleSheet><fonts count=\"4\"><font/><font/><font><b/></font><font><b/></font></fonts><cellXfs count=\"5\"><xf/><xf/><xf/><xf numFmtId=\"0\" fontId=\"2\" fillId=\"0\" borderId=\"0\" applyFont=\"1\"/><xf numFmtId=\"0\" fontId=\"3\" fillId=\"0\" borderId=\"0\" applyFont=\"1\"/></cellXfs></styleSheet>"
        )
    );
}
