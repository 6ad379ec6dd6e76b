use wolfxl::cell_ref::{col_row_to_a1, parse_cell_ref};
use wolfxl::sheet_patcher::{patch_worksheet, CellPatch, CellValue, Decimal};

fn number(mantissa: i64, exponent: i16) -> CellValue {
    CellValue::Number(Decimal { mantissa, exponent })
}

#[test]
fn test_parse_cell_ref() {
    assert_eq!(parse_cell_ref("A1"), (1, 1));
    assert_eq!(parse_cell_ref("B3"), (3, 2));
    assert_eq!(parse_cell_ref("AA100"), (100, 27));
    assert_eq!(parse_cell_ref("Z1"), (1, 26));
}

#[test]
fn test_col_row_to_a1() {
    assert_eq!(col_row_to_a1(1, 1), "A1");
    assert_eq!(col_row_to_a1(2, 3), "B3");
    assert_eq!(col_row_to_a1(27, 100), "AA100");
    assert_eq!(col_row_to_a1(26, 1), "Z1");
}

#[test]
fn test_patch_replace_value() {
    let xml = r#"<?xml version="1.0" encoding="UTF-8" standalone="yes"?>
<worksheet><sheetData>
<row r="1"><c r="A1" t="s"><v>0</v></c><c r="B1"><v>42</v></c></row>
</sheetData></worksheet>"#;

    let patches = vec![CellPatch {
        row: 1,
        col: 2, // B1
        value: Some(number(990, -1)),
        style_index: None,
    }];

    let result = patch_worksheet(xml, &patches).unwrap();
    assert!(result.contains("<v>99</v>"));
    // A1 should be unchanged (though type=s is preserved)
    assert!(result.contains("r=\"A1\""));
}

#[test]
fn test_patch_insert_new_cell() {
    let xml = r#"<worksheet><sheetData>
<row r="1"><c r="A1"><v>1</v></c></row>
</sheetData></worksheet>"#;

    let patches = vec![CellPatch {
        row: 1,
        col: 3, // C1 is not there yet
        value: Some(CellValue::String("new".to_string())),
        style_index: None,
    }];

    let result = patch_worksheet(xml, &patches).unwrap();
    assert!(result.contains("r=\"C1\""));
    assert!(result.contains("t=\"str\""));
    assert!(result.contains("<v>new</v>"));
}

#[test]
fn test_patch_insert_new_row() {
    let xml = r#"<worksheet><sheetData>
<row r="1"><c r="A1"><v>1</v></c></row>
<row r="3"><c r="A3"><v>3</v></c></row>
</sheetData></worksheet>"#;

    let patches = vec![CellPatch {
        row: 2,
        col: 1, // row 2 is not there yet
        value: Some(CellValue::String("inserted".to_string())),
        style_index: None,
    }];

    let result = patch_worksheet(xml, &patches).unwrap();
    assert!(result.contains("r=\"A2\""));
    assert!(result.contains("<v>inserted</v>"));
    // Row 1 before row 2 before row 3.
    let pos_r1 = result.find("r=\"A1\"").unwrap();
    let pos_r2 = result.find("r=\"A2\"").unwrap();
    let pos_r3 = result.find("r=\"A3\"").unwrap();
    assert!(pos_r1 < pos_r2);
    assert!(pos_r2 < pos_r3);
}

#[test]
fn test_patch_formula() {
    let xml = r#"<worksheet><sheetData>
<row r="1"><c r="A1"><v>10</v></c></row>
</sheetData></worksheet>"#;

    let patches = vec![CellPatch {
        row: 1,
        col: 1,
        value: Some(CellValue::Formula("SUM(B1:B10)".to_string())),
        style_index: None,
    }];

    let result = patch_worksheet(xml, &patches).unwrap();
    assert!(result.contains("<f>SUM(B1:B10)</f>"));
    // No cached value, so that the formula is calculated anew.
    assert!(!result.contains("<v>10</v>"));
}

#[test]
fn test_patch_with_style() {
    let xml = r#"<worksheet><sheetData>
<row r="1"><c r="A1"><v>42</v></c></row>
</sheetData></worksheet>"#;

    let patches = vec![CellPatch {
        row: 1,
        col: 1,
        value: Some(number(420, -1)),
        style_index: Some(5),
    }];

    let result = patch_worksheet(xml, &patches).unwrap();
    assert!(result.contains("s=\"5\""));
}

#[test]
fn test_patch_boolean() {
    let xml = r#"<worksheet><sheetData>
<row r="1"><c r="A1"><v>0</v></c></row>
</sheetData></worksheet>"#;

    let patches = vec![CellPatch {
        row: 1,
        col: 1,
        value: Some(CellValue::Boolean(true)),
        style_index: None,
    }];

    let result = patch_worksheet(xml, &patches).unwrap();
    assert!(result.contains("t=\"b\""));
    assert!(result.contains("<v>1</v>"));
}

#[test]
fn test_patch_empty_sheet_data() {
    let xml = r#"<worksheet><sheetData/></worksheet>"#;

    let patches = vec![CellPatch {
        row: 1,
        col: 1,
        value: Some(CellValue::String("hello".to_string())),
        style_index: None,
    }];

    let result = patch_worksheet(xml, &patches).unwrap();
    assert!(result.contains("r=\"A1\""));
    assert!(result.contains("<v>hello</v>"));
}

#[test]
fn test_no_patches_returns_unchanged() {
    let xml = r#"<worksheet><sheetData>
<row r="1"><c r="A1"><v>42</v></c></row>
</sheetData></worksheet>"#;

    let result = patch_worksheet(xml, &[]).unwrap();
    assert_eq!(result, xml);
}

const ONE_CELL: &str = r#"<worksheet><sheetData>
<row r="1"><c r="A1"><v>42</v></c></row>
</sheetData></worksheet>"#;

fn patch(row: u32, col: u32, value: Option<CellValue>, style_index: Option<u32>) -> CellPatch {
    CellPatch { row, col, value, style_index }
}

fn text(s: &str) -> CellValue {
    CellValue::String(s.to_string())
}

#[test]
fn style_only_patch_keeps_the_value() {
    let result = patch_worksheet(ONE_CELL, &[patch(1, 1, None, Some(7))]).unwrap();
    assert_eq!(
        result,
        "<worksheet><sheetData>\n<row r=\"1\"><c r=\"A1\" s=\"7\"><v>42</v></c></row>\n</sheetData></worksheet>"
    );
}

#[test]
fn style_only_patch_keeps_other_attributes() {
    let xml = r#"<worksheet><sheetData><row r="1"><c r="A1" s="2" t="s"><v>0</v></c></row></sheetData></worksheet>"#;
    let result = patch_worksheet(xml, &[patch(1, 1, None, Some(9))]).unwrap();
    assert_eq!(
        result,
        r#"<worksheet><sheetData><row r="1"><c t="s" r="A1" s="9"><v>0</v></c></row></sheetData></worksheet>"#
    );
}

#[test]
fn patch_without_value_and_style_keeps_the_cell() {
    let xml = r#"<worksheet><sheetData><row r="1"><c r="A1" s="2"><v>5</v></c></row></sheetData></worksheet>"#;
    let result = patch_worksheet(xml, &[patch(1, 1, None, None)]).unwrap();
    assert_eq!(
        result,
        r#"<worksheet><sheetData><row r="1"><c r="A1" s="2"><v>5</v></c></row></sheetData></worksheet>"#
    );
}

#[test]
fn style_only_patch_on_self_closed_cell() {
    let xml = r#"<worksheet><sheetData><row r="1"><c r="A1" s="2"/></row></sheetData></worksheet>"#;
    let result = patch_worksheet(xml, &[patch(1, 1, None, Some(4))]).unwrap();
    assert_eq!(
        result,
        r#"<worksheet><sheetData><row r="1"><c r="A1" s="4"/></row></sheetData></worksheet>"#
    );
}

#[test]
fn style_zero_is_not_written() {
    let result = patch_worksheet(ONE_CELL, &[patch(1, 1, Some(number(1, 0)), Some(0))]).unwrap();
    assert!(result.contains("<c r=\"A1\"><v>1</v></c>"));
}

#[test]
fn value_patch_keeps_the_style_of_the_cell() {
    let xml = r#"<worksheet><sheetData><row r="1"><c r="A1" s="3"><v>5</v></c></row></sheetData></worksheet>"#;
    let result = patch_worksheet(xml, &[patch(1, 1, Some(number(6, 0)), None)]).unwrap();
    assert_eq!(
        result,
        r#"<worksheet><sheetData><row r="1"><c r="A1" s="3"><v>6</v></c></row></sheetData></worksheet>"#
    );
}

#[test]
fn replaced_cell_is_exact() {
    let result = patch_worksheet(ONE_CELL, &[patch(1, 1, Some(text("new")), None)]).unwrap();
    assert_eq!(
        result,
        "<worksheet><sheetData>\n<row r=\"1\"><c r=\"A1\" t=\"str\"><v>new</v></c></row>\n</sheetData></worksheet>"
    );
}

#[test]
fn formula_has_no_cached_value() {
    let result = patch_worksheet(
        ONE_CELL,
        &[patch(1, 1, Some(CellValue::Formula("SUM(B1:B10)".to_string())), None)],
    )
    .unwrap();
    assert_eq!(
        result,
        "<worksheet><sheetData>\n<row r=\"1\"><c r=\"A1\"><f>SUM(B1:B10)</f></c></row>\n</sheetData></worksheet>"
    );
    assert!(!result.contains("<v>"));
}

#[test]
fn boolean_false_is_zero() {
    let result = patch_worksheet(ONE_CELL, &[patch(1, 1, Some(CellValue::Boolean(false)), None)]).unwrap();
    assert!(result.contains("<c r=\"A1\" t=\"b\"><v>0</v></c>"));
}

#[test]
fn blank_is_a_self_closed_cell() {
    let result = patch_worksheet(ONE_CELL, &[patch(1, 1, Some(CellValue::Blank), Some(2))]).unwrap();
    assert!(result.contains("<row r=\"1\"><c r=\"A1\" s=\"2\"/></row>"));
}

#[test]
fn text_is_escaped() {
    let result = patch_worksheet(ONE_CELL, &[patch(1, 1, Some(text("a<b & \"c\" > 'd'")), None)]).unwrap();
    assert!(result.contains("<v>a&lt;b &amp; &quot;c&quot; &gt; &apos;d&apos;</v>"));
}

#[test]
fn formula_is_escaped() {
    let result = patch_worksheet(
        ONE_CELL,
        &[patch(1, 1, Some(CellValue::Formula("IF(A2<3,\"x\",\"y\")".to_string())), None)],
    )
    .unwrap();
    assert!(result.contains("<f>IF(A2&lt;3,&quot;x&quot;,&quot;y&quot;)</f>"));
}

#[test]
fn text_beyond_ascii_is_kept() {
    let result = patch_worksheet(ONE_CELL, &[patch(1, 1, Some(text("Grüße 日本")), None)]).unwrap();
    assert!(result.contains("<v>Grüße 日本</v>"));
}

fn number_text(mantissa: i64, exponent: i16) -> String {
    let result = patch_worksheet(ONE_CELL, &[patch(1, 1, Some(number(mantissa, exponent)), None)]).unwrap();
    let from = result.find("<v>").unwrap() + 3;
    let to = result.find("</v>").unwrap();
    result[from..to].to_string()
}

#[test]
fn numbers_as_text() {
    assert_eq!(number_text(0, 0), "0");
    assert_eq!(number_text(0, -5), "0");
    assert_eq!(number_text(99, 0), "99");
    assert_eq!(number_text(990, -1), "99");
    assert_eq!(number_text(-7, 0), "-7");
    assert_eq!(number_text(15, -1), "1.5");
    assert_eq!(number_text(-15, -1), "-1.5");
    assert_eq!(number_text(1, -1), "0.1");
    assert_eq!(number_text(5, -3), "0.005");
    assert_eq!(number_text(12345, -2), "123.45");
    assert_eq!(number_text(1200, -3), "1.2");
    assert_eq!(number_text(3, 2), "300");
    assert_eq!(number_text(10, 1), "100");
    assert_eq!(number_text(i64::MAX, 0), "9223372036854775807");
    assert_eq!(number_text(i64::MIN, 0), "-9223372036854775808");
    assert_eq!(number_text(i64::MIN, -19), "-0.9223372036854775808");
    assert_eq!(number_text(1, 21), "1000000000000000000000");
}

#[test]
fn new_cells_go_in_by_column() {
    let xml = r#"<worksheet><sheetData><row r="2"><c r="B2"><v>1</v></c></row></sheetData></worksheet>"#;
    let patches = [
        patch(2, 4, Some(number(4, 0)), None),
        patch(2, 1, Some(number(1, 0)), None),
        patch(2, 3, Some(number(3, 0)), None),
    ];
    let result = patch_worksheet(xml, &patches).unwrap();
    assert_eq!(
        result,
        r#"<worksheet><sheetData><row r="2"><c r="B2"><v>1</v></c><c r="A2"><v>1</v></c><c r="C2"><v>3</v></c><c r="D2"><v>4</v></c></row></sheetData></worksheet>"#
    );
}

#[test]
fn new_rows_go_in_by_number() {
    let xml = r#"<worksheet><sheetData><row r="3"><c r="A3"><v>3</v></c></row><row r="6"><c r="A6"><v>6</v></c></row></sheetData></worksheet>"#;
    let patches = [
        patch(9, 1, Some(number(9, 0)), None),
        patch(5, 2, Some(number(52, 0)), None),
        patch(1, 1, Some(number(1, 0)), None),
        patch(5, 1, Some(number(51, 0)), None),
        patch(2, 1, Some(number(2, 0)), None),
    ];
    let result = patch_worksheet(xml, &patches).unwrap();
    assert_eq!(
        result,
        concat_all(&[
            r#"<worksheet><sheetData>"#,
            r#"<row r="1"><c r="A1"><v>1</v></c></row>"#,
            r#"<row r="2"><c r="A2"><v>2</v></c></row>"#,
            r#"<row r="3"><c r="A3"><v>3</v></c></row>"#,
            r#"<row r="5"><c r="A5"><v>51</v></c><c r="B5"><v>52</v></c></row>"#,
            r#"<row r="6"><c r="A6"><v>6</v></c></row>"#,
            r#"<row r="9"><c r="A9"><v>9</v></c></row>"#,
            r#"</sheetData></worksheet>"#,
        ])
    );
}

fn concat_all(pieces: &[&str]) -> String {
    let mut out = String::new();
    for p in pieces {
        out.push_str(p);
    }
    out
}

#[test]
fn last_patch_for_a_cell_counts() {
    let patches = [
        patch(1, 1, Some(number(1, 0)), None),
        patch(1, 1, Some(number(2, 0)), None),
    ];
    let result = patch_worksheet(ONE_CELL, &patches).unwrap();
    assert!(result.contains("<v>2</v>"));
    assert!(!result.contains("<v>1</v>"));
}

#[test]
fn empty_row_becomes_a_row_with_cells() {
    let xml = r#"<worksheet><sheetData><row r="2"/><row r="4"/></sheetData></worksheet>"#;
    let result = patch_worksheet(xml, &[patch(2, 2, Some(number(5, 0)), None)]).unwrap();
    assert_eq!(
        result,
        r#"<worksheet><sheetData><row r="2"><c r="B2"><v>5</v></c></row><row r="4"/></sheetData></worksheet>"#
    );
}

#[test]
fn empty_sheet_data_gets_all_rows() {
    let xml = r#"<worksheet><sheetData/></worksheet>"#;
    let patches = [patch(2, 1, Some(text("b")), None), patch(1, 2, Some(text("a")), Some(3))];
    let result = patch_worksheet(xml, &patches).unwrap();
    assert_eq!(
        result,
        r#"<worksheet><sheetData><row r="1"><c r="B1" s="3" t="str"><v>a</v></c></row><row r="2"><c r="A2" t="str"><v>b</v></c></row></sheetData></worksheet>"#
    );
}

#[test]
fn untouched_content_is_kept() {
    let xml = "<?xml version=\"1.0\"?>\n<!-- note -->\n<worksheet><dimension ref=\"A1\"/><sheetData>\n  <row r=\"1\" spans=\"1:2\"><c r=\"A1\" t=\"s\"><v>0</v></c><c r=\"B1\"><f>A1</f><v>1</v></c></row>\n</sheetData><pageMargins left=\"0.7\"/><![CDATA[x<y]]></worksheet>";
    let result = patch_worksheet(xml, &[patch(1, 3, Some(number(3, 0)), None)]).unwrap();
    let expected = xml.replace("</c></row>", "</c><c r=\"C1\"><v>3</v></c></row>");
    assert_eq!(result, expected);
}

#[test]
fn malformed_sheet_is_refused() {
    let xml = "<worksheet><sheetData><row r=\"1\"></sheetData></worksheet>";
    let result = patch_worksheet(xml, &[patch(1, 1, Some(number(1, 0)), None)]);
    assert_eq!(result, Err(wolfxl::sheet_patcher::PatchError::Malformed));
}

#[test]
fn repeated_attribute_is_refused_for_a_change_of_style() {
    let xml = r#"<worksheet><sheetData><row r="1"><c r="A1" t="s" t="n"><v>0</v></c></row></sheetData></worksheet>"#;
    let result = patch_worksheet(xml, &[patch(1, 1, None, Some(3))]);
    assert_eq!(result, Err(wolfxl::sheet_patcher::PatchError::Attributes));
    // A new value does not need the attributes.
    let result = patch_worksheet(xml, &[patch(1, 1, Some(number(1, 0)), None)]);
    assert!(result.is_ok());
}

#[test]
fn lower_case_reference_is_the_same_cell() {
    let xml = r#"<worksheet><sheetData><row r="1"><c r="a1"><v>5</v></c></row></sheetData></worksheet>"#;
    let result = patch_worksheet(xml, &[patch(1, 1, Some(number(6, 0)), None)]).unwrap();
    assert_eq!(
        result,
        r#"<worksheet><sheetData><row r="1"><c r="a1"><v>6</v></c></row></sheetData></worksheet>"#
    );
}

#[test]
fn lenient_cell_references() {
    assert_eq!(parse_cell_ref(""), (0, 0));
    assert_eq!(parse_cell_ref("$B$3"), (3, 2));
    assert_eq!(parse_cell_ref("b3"), (3, 2));
    assert_eq!(parse_cell_ref("A"), (0, 1));
    assert_eq!(parse_cell_ref("7"), (7, 0));
    assert_eq!(parse_cell_ref("A4294967296"), (0, 1));
    assert_eq!(parse_cell_ref("XFD1048576"), (1048576, 16384));
}

#[test]
fn references_from_numbers() {
    assert_eq!(col_row_to_a1(0, 5), "5");
    assert_eq!(col_row_to_a1(52, 0), "AZ0");
    assert_eq!(col_row_to_a1(702, 1), "ZZ1");
    assert_eq!(col_row_to_a1(703, 1), "AAA1");
    assert_eq!(col_row_to_a1(16384, 1048576), "XFD1048576");
    assert_eq!(col_row_to_a1(u32::MAX, u32::MAX), "MWLQKWU4294967295");
}

#[test]
fn large_sheet() {
    let mut xml = String::from("<worksheet><sheetData>");
    for row in 1..=4000u32 {
        let r = 2 * row;
        xml.push_str(&format!("<row r=\"{r}\">"));
        for col in ["A", "B", "C"] {
            xml.push_str(&format!("<c r=\"{col}{r}\"><v>{row}</v></c>"));
        }
        xml.push_str("</row>");
    }
    xml.push_str("</sheetData></worksheet>");
    let mut patches = Vec::new();
    for row in 1..=1000u32 {
        // A cell that is there, a cell that is new, and a row that is new.
        patches.push(patch(8 * row, 2, Some(number(7, 0)), None));
        patches.push(patch(8 * row, 5, Some(text("new")), None));
        patches.push(patch(8 * row + 1, 1, Some(CellValue::Boolean(true)), Some(3)));
    }
    patches.reverse();
    let result = patch_worksheet(&xml, &patches).unwrap();
    assert!(result.contains("<row r=\"8\"><c r=\"A8\"><v>4</v></c><c r=\"B8\"><v>7</v></c><c r=\"C8\"><v>4</v></c><c r=\"E8\" t=\"str\"><v>new</v></c></row><row r=\"9\"><c r=\"A9\" s=\"3\" t=\"b\"><v>1</v></c></row><row r=\"10\">"));
    assert!(result.ends_with("<row r=\"8001\"><c r=\"A8001\" s=\"3\" t=\"b\"><v>1</v></c></row></sheetData></worksheet>"));
    assert_eq!(result.matches("<row ").count(), 5000);
    assert_eq!(result.matches("<c ").count(), 12000 + 2000);
}
