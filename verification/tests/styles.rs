use wolfxl::styles::{
    fill_to_xml, font_to_xml, inject_into_section, xf_to_xml, AlignmentSpec, FillSpec, FontSpec,
};

const MINIMAL_STYLES: &str = r#"<?xml version="1.0" encoding="UTF-8" standalone="yes"?>
<styleSheet xmlns="http://schemas.openxmlformats.org/spreadsheetml/2006/main">
<fonts count="1"><font><sz val="11"/><name val="Calibri"/></font></fonts>
<fills count="2"><fill><patternFill patternType="none"/></fill><fill><patternFill patternType="gray125"/></fill></fills>
<borders count="1"><border><left/><right/><top/><bottom/><diagonal/></border></borders>
<cellXfs count="1"><xf numFmtId="0" fontId="0" fillId="0" borderId="0"/></cellXfs>
</styleSheet>"#;

#[test]
fn test_inject_font() {
    let spec = FontSpec {
        bold: true,
        size: Some(14),
        name: Some("Arial".to_string()),
        ..Default::default()
    };
    let (updated, idx) = inject_into_section(MINIMAL_STYLES, "fonts", &font_to_xml(&spec));
    assert_eq!(idx, 1); // the second font
    assert!(updated.contains("count=\"2\""));
    assert!(updated.contains("<b/>"));
    assert!(updated.contains("<sz val=\"14\"/>"));
    assert!(updated.contains("<name val=\"Arial\"/>"));
}

#[test]
fn test_inject_fill() {
    let spec = FillSpec {
        pattern_type: "solid".to_string(),
        fg_color_rgb: Some("FFFF0000".to_string()),
    };
    let (updated, idx) = inject_into_section(MINIMAL_STYLES, "fills", &fill_to_xml(&spec));
    assert_eq!(idx, 2); // the third fill, after none and gray125
    assert!(updated.contains("count=\"3\""));
    assert!(updated.contains("FFFF0000"));
}

#[test]
fn test_xf_with_alignment() {
    let align = AlignmentSpec {
        horizontal: Some("center".to_string()),
        wrap_text: true,
        ..Default::default()
    };
    let xf = xf_to_xml(0, 0, 0, 0, Some(&align), false, false, false, false);
    assert!(xf.contains("applyAlignment=\"1\""));
    assert!(xf.contains("horizontal=\"center\""));
    assert!(xf.contains("wrapText=\"1\""));
}

use wolfxl::styles::{
    apply_format_spec, border_to_xml, builtin_num_fmt_id, find_or_create_num_fmt, parse_cellxfs,
    xml_escape, BorderSideSpec, BorderSpec, FormatSpec, XfEntry,
};

#[test]
fn test_parse_cellxfs() {
    let entries = parse_cellxfs(MINIMAL_STYLES);
    assert_eq!(entries.len(), 1);
    assert_eq!(entries[0].font_id, 0);
    assert_eq!(entries[0].fill_id, 0);
}

#[test]
fn test_apply_format_spec_full() {
    let spec = FormatSpec {
        font: Some(FontSpec {
            bold: true,
            ..Default::default()
        }),
        fill: Some(FillSpec {
            pattern_type: "solid".to_string(),
            fg_color_rgb: Some("FF00FF00".to_string()),
        }),
        ..Default::default()
    };
    let (updated, xf_idx) = apply_format_spec(MINIMAL_STYLES, &spec);
    assert_eq!(xf_idx, 1); // the second style
    assert!(updated.contains("fontId=\"1\""));
    assert!(updated.contains("fillId=\"2\""));
}

#[test]
fn test_builtin_num_fmt() {
    let (unchanged, id) = find_or_create_num_fmt(MINIMAL_STYLES, "General");
    assert_eq!(id, 0);
    assert_eq!(unchanged, MINIMAL_STYLES);
}

#[test]
fn test_custom_num_fmt() {
    let (updated, id) = find_or_create_num_fmt(MINIMAL_STYLES, "$#,##0.00");
    assert!(id >= 164);
    assert!(updated.contains("$#,##0.00"));
    assert!(updated.contains("<numFmts count=\"1\">"));
}

#[test]
fn font_records() {
    assert_eq!(font_to_xml(&FontSpec::default()), "<font></font>");
    let all = FontSpec {
        bold: true,
        italic: true,
        underline: true,
        strikethrough: true,
        name: Some("Arial".to_string()),
        size: Some(12),
        color_rgb: Some("FF112233".to_string()),
    };
    assert_eq!(
        font_to_xml(&all),
        "<font><b/><i/><u/><strike/><sz val=\"12\"/><color rgb=\"FF112233\"/><name val=\"Arial\"/></font>"
    );
}

#[test]
fn font_name_is_escaped() {
    let spec = FontSpec { name: Some("A&B \"<x>\"".to_string()), ..Default::default() };
    assert_eq!(
        font_to_xml(&spec),
        "<font><name val=\"A&amp;B &quot;&lt;x&gt;&quot;\"/></font>"
    );
}

#[test]
fn fill_records() {
    let plain = FillSpec { pattern_type: "none".to_string(), fg_color_rgb: None };
    assert_eq!(fill_to_xml(&plain), "<fill><patternFill patternType=\"none\"/></fill>");
    let solid = FillSpec {
        pattern_type: "solid".to_string(),
        fg_color_rgb: Some("FFFF0000".to_string()),
    };
    assert_eq!(
        fill_to_xml(&solid),
        "<fill><patternFill patternType=\"solid\"><fgColor rgb=\"FFFF0000\"/></patternFill></fill>"
    );
}

#[test]
fn border_records() {
    assert_eq!(
        border_to_xml(&BorderSpec::default()),
        "<border><left/><right/><top/><bottom/><diagonal/></border>"
    );
    let spec = BorderSpec {
        left: BorderSideSpec { style: Some("thin".to_string()), color_rgb: None },
        right: BorderSideSpec {
            style: Some("thick".to_string()),
            color_rgb: Some("FF000000".to_string()),
        },
        top: BorderSideSpec { style: None, color_rgb: Some("FF000000".to_string()) },
        bottom: BorderSideSpec::default(),
    };
    assert_eq!(
        border_to_xml(&spec),
        "<border><left style=\"thin\"/><right style=\"thick\"><color rgb=\"FF000000\"/></right><top/><bottom/><diagonal/></border>"
    );
}

#[test]
fn style_records() {
    assert_eq!(
        xf_to_xml(1, 2, 3, 4, None, false, false, false, false),
        "<xf numFmtId=\"4\" fontId=\"1\" fillId=\"2\" borderId=\"3\"/>"
    );
    assert_eq!(
        xf_to_xml(1, 2, 3, 164, None, true, true, true, true),
        "<xf numFmtId=\"164\" fontId=\"1\" fillId=\"2\" borderId=\"3\" applyFont=\"1\" applyFill=\"1\" applyBorder=\"1\" applyNumberFormat=\"1\"/>"
    );
    let nothing = AlignmentSpec::default();
    assert_eq!(
        xf_to_xml(0, 0, 0, 0, Some(&nothing), false, false, false, false),
        "<xf numFmtId=\"0\" fontId=\"0\" fillId=\"0\" borderId=\"0\"/>"
    );
    let all = AlignmentSpec {
        horizontal: Some("center".to_string()),
        vertical: Some("top".to_string()),
        wrap_text: true,
        indent: 2,
        text_rotation: 45,
    };
    assert_eq!(
        xf_to_xml(0, 0, 0, 0, Some(&all), true, false, false, false),
        "<xf numFmtId=\"0\" fontId=\"0\" fillId=\"0\" borderId=\"0\" applyFont=\"1\" applyAlignment=\"1\"><alignment horizontal=\"center\" vertical=\"top\" wrapText=\"1\" indent=\"2\" textRotation=\"45\"/></xf>"
    );
    let rotated = AlignmentSpec { text_rotation: 90, ..Default::default() };
    assert_eq!(
        xf_to_xml(0, 0, 0, 0, Some(&rotated), false, false, false, false),
        "<xf numFmtId=\"0\" fontId=\"0\" fillId=\"0\" borderId=\"0\" applyAlignment=\"1\"><alignment textRotation=\"90\"/></xf>"
    );
}

#[test]
fn escaping() {
    assert_eq!(xml_escape("a & b < c > d \"e\" 'f'"), "a &amp; b &lt; c &gt; d &quot;e&quot; 'f'");
    assert_eq!(xml_escape("plain ä"), "plain ä");
    assert_eq!(xml_escape(""), "");
}

#[test]
fn injection_is_exact() {
    let xml = "<s><fonts count=\"9\" x=\"1\"><font/></fonts><fills count=\"1\"/></s>";
    let (updated, idx) = inject_into_section(xml, "fonts", "<font><b/></font>");
    assert_eq!(idx, 9);
    assert_eq!(
        updated,
        "<s><fonts count=\"10\" x=\"1\"><font/><font><b/></font></fonts><fills count=\"1\"/></s>"
    );
}

#[test]
fn injection_without_section_changes_nothing() {
    let xml = "<s><fonts count=\"1\"><font/></fonts></s>";
    assert_eq!(inject_into_section(xml, "fills", "<fill/>"), (xml.to_string(), 0));
    // A self-closed section has no closing tag.
    let xml = "<s><fills count=\"0\"/></s>";
    assert_eq!(inject_into_section(xml, "fills", "<fill/>"), (xml.to_string(), 0));
    // Nor can a section be used whose closing tag comes first.
    let xml = "<s></fills><fills count=\"0\"></s>";
    assert_eq!(inject_into_section(xml, "fills", "<fill/>"), (xml.to_string(), 0));
}

#[test]
fn injection_without_count() {
    // The records of the section are counted, and the count is written.
    let xml = "<s><fonts><font/></fonts></s>";
    let (updated, idx) = inject_into_section(xml, "fonts", "<font/>");
    assert_eq!(idx, 1);
    assert_eq!(updated, "<s><fonts count=\"2\"><font/><font/></fonts></s>");
    // So are they where the count is no number.
    let xml = "<s><fonts count=\"many\"><font/></fonts></s>";
    let (updated, idx) = inject_into_section(xml, "fonts", "<font/>");
    assert_eq!(idx, 1);
    assert_eq!(updated, "<s><fonts count=\"2\"><font/><font/></fonts></s>");
    // The new attribute goes to the end of the opening tag.
    let xml = "<s><fills x=\"1\" ></fills></s>";
    let (updated, idx) = inject_into_section(xml, "fills", "<fill/>");
    assert_eq!(idx, 0);
    assert_eq!(updated, "<s><fills x=\"1\"  count=\"1\"><fill/></fills></s>");
}

#[test]
fn injection_counts_the_records_of_the_section() {
    let xml = "<styleSheet><fonts><font/></fonts></styleSheet>";
    let (out, idx) = inject_into_section(xml, "fonts", "<font><b/></font>");
    assert_eq!(idx, 1);
    assert!(out.contains("<font/><font><b/></font></fonts>"));
    assert_eq!(out, "<styleSheet><fonts count=\"2\"><font/><font><b/></font></fonts></styleSheet>");
    // Only what stands directly in the section is a record.
    let xml = "<s><fills><fill><patternFill patternType=\"none\"/></fill><!-- two --><fill><patternFill><fgColor rgb=\"FF000000\"/></patternFill></fill><fill/></fills><fonts><font/></fonts></s>";
    let (out, idx) = inject_into_section(xml, "fills", "<fill/>");
    assert_eq!(idx, 3);
    assert!(out.starts_with("<s><fills count=\"4\"><fill>"));
    assert!(out.ends_with("<fill/><fill/></fills><fonts><font/></fonts></s>"));
    // A second record finds the count that the first one wrote.
    let (twice, second) = inject_into_section(&out, "fills", "<fill/>");
    assert_eq!(second, 4);
    assert!(twice.starts_with("<s><fills count=\"5\"><fill>"));
}

#[test]
fn format_on_a_sheet_without_counts() {
    let xml = "<styleSheet><cellXfs><xf/></cellXfs></styleSheet>";
    let (once, first) = apply_format_spec(xml, &FormatSpec::default());
    assert_eq!(first, 1);
    assert_eq!(
        once,
        "<styleSheet><cellXfs count=\"2\"><xf/><xf numFmtId=\"0\" fontId=\"0\" fillId=\"0\" borderId=\"0\"/></cellXfs></styleSheet>"
    );
    let (twice, second) = apply_format_spec(&once, &FormatSpec::default());
    assert_eq!(second, 2);
    assert_eq!(parse_cellxfs(&twice).len(), parse_cellxfs(xml).len() + 2);
    // Each part gets the number of the records before it.
    let xml = "<styleSheet><fonts><font/><font/></fonts><fills><fill/></fills><borders><border/><border/><border/></borders><cellXfs><xf/><xf/></cellXfs></styleSheet>";
    let spec = FormatSpec {
        font: Some(FontSpec { bold: true, ..Default::default() }),
        fill: Some(FillSpec { pattern_type: "solid".to_string(), fg_color_rgb: None }),
        border: Some(Default::default()),
        ..Default::default()
    };
    let (out, idx) = apply_format_spec(xml, &spec);
    assert_eq!(idx, 2);
    assert!(out.contains("<fonts count=\"3\">"));
    assert!(out.contains("<fills count=\"2\">"));
    assert!(out.contains("<borders count=\"4\">"));
    assert!(out.contains("<cellXfs count=\"3\"><xf/><xf/><xf numFmtId=\"0\" fontId=\"2\" fillId=\"1\" borderId=\"3\" applyFont=\"1\" applyFill=\"1\" applyBorder=\"1\"/></cellXfs>"));
    let mut catalog = StyleCatalog::read(xml);
    assert_eq!(catalog.next_style(), 2);
    assert_eq!(catalog.resolve(&spec), 2);
    assert_eq!(catalog.resolve(&spec), 3);
    assert_eq!(catalog.xml(), apply_format_spec(&out, &spec).0);
}

#[test]
fn injection_with_the_highest_count() {
    let xml = "<s><fonts count=\"4294967295\"></fonts></s>";
    let (updated, idx) = inject_into_section(xml, "fonts", "<font/>");
    assert_eq!(idx, 4294967295);
    assert_eq!(updated, "<s><fonts count=\"4294967296\"><font/></fonts></s>");
}

#[test]
fn injection_keeps_text_beyond_ascii() {
    let xml = "<s><!-- é --><fonts count=\"1\" note=\"ü\"><font>日本</font></fonts>ß</s>";
    let (updated, idx) = inject_into_section(xml, "fonts", "<font>ö</font>");
    assert_eq!(idx, 1);
    assert_eq!(
        updated,
        "<s><!-- é --><fonts count=\"2\" note=\"ü\"><font>日本</font><font>ö</font></fonts>ß</s>"
    );
}

#[test]
fn same_record_twice_gets_two_indices() {
    let record = font_to_xml(&FontSpec { bold: true, ..Default::default() });
    let (once, first) = inject_into_section(MINIMAL_STYLES, "fonts", &record);
    let (twice, second) = inject_into_section(&once, "fonts", &record);
    assert_eq!(first, 1);
    assert_eq!(second, 2);
    assert!(twice.contains("<fonts count=\"3\">"));
}

#[test]
fn same_format_twice_gets_two_styles() {
    let spec = FormatSpec {
        font: Some(FontSpec { bold: true, ..Default::default() }),
        number_format: Some("0.000".to_string()),
        ..Default::default()
    };
    let (once, first) = apply_format_spec(MINIMAL_STYLES, &spec);
    let (twice, second) = apply_format_spec(&once, &spec);
    assert_ne!(first, second);
    assert_eq!(first, 1);
    assert_eq!(second, 2);
    // The number format is found again; the font is written again.
    assert!(twice.contains("<numFmts count=\"1\">"));
    assert!(twice.contains("<fonts count=\"3\">"));
    assert!(twice.contains("<cellXfs count=\"3\">"));
}

#[test]
fn whole_format() {
    let spec = FormatSpec {
        font: Some(FontSpec { italic: true, ..Default::default() }),
        fill: None,
        border: Some(BorderSpec::default()),
        alignment: Some(AlignmentSpec { wrap_text: true, ..Default::default() }),
        number_format: Some("0.00".to_string()),
    };
    let (updated, idx) = apply_format_spec(MINIMAL_STYLES, &spec);
    assert_eq!(idx, 1);
    let expected = MINIMAL_STYLES
        .replace(
            "<fonts count=\"1\"><font><sz val=\"11\"/><name val=\"Calibri\"/></font></fonts>",
            "<fonts count=\"2\"><font><sz val=\"11\"/><name val=\"Calibri\"/></font><font><i/></font></fonts>",
        )
        .replace(
            "<borders count=\"1\"><border><left/><right/><top/><bottom/><diagonal/></border></borders>",
            "<borders count=\"2\"><border><left/><right/><top/><bottom/><diagonal/></border><border><left/><right/><top/><bottom/><diagonal/></border></borders>",
        )
        .replace(
            "<cellXfs count=\"1\"><xf numFmtId=\"0\" fontId=\"0\" fillId=\"0\" borderId=\"0\"/></cellXfs>",
            "<cellXfs count=\"2\"><xf numFmtId=\"0\" fontId=\"0\" fillId=\"0\" borderId=\"0\"/><xf numFmtId=\"2\" fontId=\"1\" fillId=\"0\" borderId=\"1\" applyFont=\"1\" applyBorder=\"1\" applyNumberFormat=\"1\" applyAlignment=\"1\"><alignment wrapText=\"1\"/></xf></cellXfs>",
        );
    assert_eq!(updated, expected);
}

#[test]
fn format_that_sets_nothing() {
    let (updated, idx) = apply_format_spec(MINIMAL_STYLES, &FormatSpec::default());
    assert_eq!(idx, 1);
    assert!(updated.contains(
        "<cellXfs count=\"2\"><xf numFmtId=\"0\" fontId=\"0\" fillId=\"0\" borderId=\"0\"/><xf numFmtId=\"0\" fontId=\"0\" fillId=\"0\" borderId=\"0\"/></cellXfs>"
    ));
}

#[test]
fn builtin_formats() {
    let table = [
        ("General", 0),
        ("0", 1),
        ("0.00", 2),
        ("#,##0", 3),
        ("#,##0.00", 4),
        ("0%", 9),
        ("0.00%", 10),
        ("0.00E+00", 11),
        ("mm-dd-yy", 14),
        ("d-mmm-yy", 15),
        ("d-mmm", 16),
        ("mmm-yy", 17),
        ("h:mm AM/PM", 18),
        ("h:mm:ss AM/PM", 19),
        ("h:mm", 20),
        ("h:mm:ss", 21),
        ("m/d/yy h:mm", 22),
        ("@", 49),
    ];
    for (code, id) in table {
        assert_eq!(builtin_num_fmt_id(code), Some(id));
    }
    assert_eq!(builtin_num_fmt_id("general"), None);
    assert_eq!(builtin_num_fmt_id(""), None);
    assert_eq!(builtin_num_fmt_id("yyyy-mm-dd"), None);
}

const WITH_FORMATS: &str = "<styleSheet><numFmts count=\"2\"><numFmt numFmtId=\"170\" formatCode=\"0.0&quot;x&quot;\"/><numFmt numFmtId=\"165\" formatCode=\"yyyy\"/></numFmts><fonts count=\"0\"></fonts></styleSheet>";

#[test]
fn custom_format_is_found_again() {
    assert_eq!(find_or_create_num_fmt(WITH_FORMATS, "yyyy"), (WITH_FORMATS.to_string(), 165));
    // The code is compared as it reads, not as it is written.
    assert_eq!(find_or_create_num_fmt(WITH_FORMATS, "0.0\"x\""), (WITH_FORMATS.to_string(), 170));
}

#[test]
fn custom_format_gets_the_next_id() {
    let (updated, id) = find_or_create_num_fmt(WITH_FORMATS, "0.0 \"<kg>\"");
    assert_eq!(id, 171);
    assert_eq!(
        updated,
        "<styleSheet><numFmts count=\"3\"><numFmt numFmtId=\"170\" formatCode=\"0.0&quot;x&quot;\"/><numFmt numFmtId=\"165\" formatCode=\"yyyy\"/><numFmt numFmtId=\"171\" formatCode=\"0.0 &quot;&lt;kg&gt;&quot;\"/></numFmts><fonts count=\"0\"></fonts></styleSheet>"
    );
}

#[test]
fn first_custom_format_is_164() {
    let (updated, id) = find_or_create_num_fmt(MINIMAL_STYLES, "0.000");
    assert_eq!(id, 164);
    let expected = MINIMAL_STYLES.replace(
        "<fonts count=\"1\">",
        "<numFmts count=\"1\"><numFmt numFmtId=\"164\" formatCode=\"0.000\"/></numFmts><fonts count=\"1\">",
    );
    assert_eq!(updated, expected);
}

#[test]
fn custom_format_without_a_place() {
    let xml = "<styleSheet></styleSheet>";
    assert_eq!(find_or_create_num_fmt(xml, "0.000"), (xml.to_string(), 164));
}

#[test]
fn custom_format_when_no_id_is_left() {
    let xml = "<styleSheet><numFmts count=\"1\"><numFmt numFmtId=\"4294967295\" formatCode=\"x\"/></numFmts><fonts/></styleSheet>";
    assert_eq!(find_or_create_num_fmt(xml, "0.000"), (xml.to_string(), 0));
}

#[test]
fn style_records_are_read() {
    let xml = "<styleSheet><cellStyleXfs count=\"1\"><xf numFmtId=\"9\" fontId=\"9\"/></cellStyleXfs><cellXfs count=\"3\"><xf numFmtId=\"164\" fontId=\"1\" fillId=\"2\" borderId=\"3\"/><xf fontId=\"x\" fillId=\"+7\"><alignment/></xf><xf/></cellXfs><xf fontId=\"5\"/></styleSheet>";
    let entries = parse_cellxfs(xml);
    assert_eq!(
        entries,
        vec![
            XfEntry { num_fmt_id: 164, font_id: 1, fill_id: 2, border_id: 3 },
            XfEntry { num_fmt_id: 0, font_id: 0, fill_id: 7, border_id: 0 },
            XfEntry { num_fmt_id: 0, font_id: 0, fill_id: 0, border_id: 0 },
        ]
    );
}

#[test]
fn style_records_up_to_an_error() {
    let xml = "<styleSheet><cellXfs><xf fontId=\"1\"/></wrong><xf fontId=\"2\"/></cellXfs></styleSheet>";
    let entries = parse_cellxfs(xml);
    assert_eq!(entries.len(), 1);
    assert_eq!(entries[0].font_id, 1);
}

use wolfxl::styles::{count_section_elements, StyleCatalog};

#[test]
fn sections_are_counted() {
    let after_fonts = MINIMAL_STYLES.find("</fonts>").unwrap() + "</fonts>".len();
    assert_eq!(count_section_elements(MINIMAL_STYLES, "fonts"), (1, after_fonts as u64));
    assert_eq!(count_section_elements(MINIMAL_STYLES, "fills").0, 2);
    assert_eq!(count_section_elements(MINIMAL_STYLES, "cellXfs").0, 1);
    assert_eq!(count_section_elements(MINIMAL_STYLES, "numFmts"), (0, 0));
    let xml = "<s><fonts count=\"7\"/><fills count=\"x\"></fills ><borders></borders></s>";
    assert_eq!(count_section_elements(xml, "fonts"), (7, 0));
    assert_eq!(count_section_elements(xml, "fills"), (0, xml.find("<borders>").unwrap() as u64));
    assert_eq!(count_section_elements(xml, "borders"), (0, xml.find("</s>").unwrap() as u64));
    assert_eq!(count_section_elements("<s><fonts count=\"3\"></wrong></fonts></s>", "fonts"), (3, 0));
}

#[test]
fn catalog_counts_on() {
    let mut catalog = StyleCatalog::read(MINIMAL_STYLES);
    assert_eq!(catalog.xml(), MINIMAL_STYLES);
    assert_eq!(catalog.next_style(), 1);
    let spec = FormatSpec {
        fill: Some(FillSpec { pattern_type: "solid".to_string(), fg_color_rgb: None }),
        number_format: Some("0.0".to_string()),
        ..Default::default()
    };
    assert_eq!(catalog.resolve(&spec), 1);
    assert_eq!(catalog.resolve(&spec), 2);
    assert_eq!(catalog.next_style(), 3);
    assert_eq!(catalog.number_format("0.0"), 164);
    assert_eq!(catalog.number_format("0.00"), 2);
    assert_eq!(catalog.number_format("0.0000"), 165);
    let text = catalog.into_xml();
    assert!(text.contains("<numFmts count=\"2\"><numFmt numFmtId=\"164\" formatCode=\"0.0\"/><numFmt numFmtId=\"165\" formatCode=\"0.0000\"/></numFmts>"));
    assert!(text.contains("<fills count=\"4\">"));
    assert!(text.contains("<cellXfs count=\"3\"><xf numFmtId=\"0\" fontId=\"0\" fillId=\"0\" borderId=\"0\"/><xf numFmtId=\"164\" fontId=\"0\" fillId=\"2\" borderId=\"0\" applyFill=\"1\" applyNumberFormat=\"1\"/><xf numFmtId=\"164\" fontId=\"0\" fillId=\"3\" borderId=\"0\" applyFill=\"1\" applyNumberFormat=\"1\"/></cellXfs>"));
    // What was written is what is read again.
    let again = StyleCatalog::read(&text);
    assert_eq!(again.next_style(), 3);
}

#[test]
fn catalog_of_a_sheet_without_sections() {
    let mut catalog = StyleCatalog::read("<styleSheet/>");
    assert_eq!(catalog.next_style(), 0);
    let spec = FormatSpec {
        font: Some(FontSpec::default()),
        number_format: Some("0.0".to_string()),
        ..Default::default()
    };
    assert_eq!(catalog.resolve(&spec), 0);
    assert_eq!(catalog.resolve(&spec), 1);
    assert_eq!(catalog.xml(), "<styleSheet/>");
}

use wolfxl::styles::{read_formats, scan_section, search_formats, xf_entries};
use wolfxl::xml::{EventKind, XmlEvent};

fn style_event(kind: EventKind, content: &str) -> XmlEvent {
    XmlEvent { kind, content: content.as_bytes().to_vec() }
}

#[test]
fn sections_among_events() {
    let events = vec![
        style_event(EventKind::Start, "s"),
        style_event(EventKind::Start, "fonts"),
        style_event(EventKind::Empty, "font"),
        style_event(EventKind::Text, " "),
        style_event(EventKind::Start, "font"),
        style_event(EventKind::Empty, "b"),
        style_event(EventKind::Start, "name"),
        style_event(EventKind::End, "name"),
        style_event(EventKind::End, "font"),
        style_event(EventKind::Comment, "c"),
        style_event(EventKind::End, "fonts"),
        style_event(EventKind::Start, "fonts count=\"9\""),
        style_event(EventKind::Empty, "font"),
        style_event(EventKind::End, "fonts"),
        style_event(EventKind::End, "s"),
    ];
    let ends: Vec<u64> = (1..=events.len() as u64).map(|n| 10 * n).collect();
    // The first section of the name counts, with the records directly in it.
    assert_eq!(scan_section(&events, &ends, "fonts"), (2, 110));
    assert_eq!(scan_section(&events, &ends, "s"), (2, 150));
    assert_eq!(scan_section(&events, &ends, "font"), (0, 0));
    assert_eq!(scan_section(&events, &ends, "name"), (0, 80));
    assert_eq!(scan_section(&events, &ends, "fills"), (0, 0));
    // A section that does not end has the records met so far, and no end.
    assert_eq!(scan_section(&events[..5], &ends, "fonts"), (2, 0));
    // An event without a position stands at 0.
    assert_eq!(scan_section(&events, &ends[..3], "fonts"), (2, 0));
    // A count that is stated is taken as it is.
    assert_eq!(scan_section(&events[11..], &ends[11..], "fonts"), (9, 140));
    let stated = vec![style_event(EventKind::Empty, "fills count=\"4\""), style_event(EventKind::Empty, "fill")];
    assert_eq!(scan_section(&stated, &[5, 6], "fills"), (4, 0));
    let no_number = vec![
        style_event(EventKind::Start, "fills count=\"-1\""),
        style_event(EventKind::Empty, "fill"),
        style_event(EventKind::End, "fills"),
    ];
    assert_eq!(scan_section(&no_number, &[1, 2, 3], "fills"), (1, 3));
    assert_eq!(scan_section(&[], &[], "fills"), (0, 0));
}

#[test]
fn style_records_among_events() {
    let events = vec![
        style_event(EventKind::Empty, "xf fontId=\"9\""),
        style_event(EventKind::Start, "cellXfs"),
        style_event(EventKind::Empty, "xf numFmtId=\"1\" fontId=\"2\" fillId=\"3\" borderId=\"4\""),
        style_event(EventKind::Start, "xf fontId=\"x\" fillId=\"7\""),
        style_event(EventKind::End, "xf"),
        style_event(EventKind::End, "cellXfs"),
        style_event(EventKind::Empty, "xf fontId=\"8\""),
    ];
    let entries = xf_entries(&events);
    assert_eq!(entries.len(), 2);
    assert_eq!(
        (entries[0].num_fmt_id, entries[0].font_id, entries[0].fill_id, entries[0].border_id),
        (1, 2, 3, 4)
    );
    assert_eq!(
        (entries[1].num_fmt_id, entries[1].font_id, entries[1].fill_id, entries[1].border_id),
        (0, 0, 7, 0)
    );
    assert!(xf_entries(&[]).is_empty());
}

#[test]
fn number_formats_among_events() {
    let events = vec![
        style_event(EventKind::Start, "numFmts"),
        style_event(EventKind::Empty, "numFmt numFmtId=\"170\" formatCode=\"0.0&quot;x&quot;\""),
        style_event(EventKind::Empty, "numFmt numFmtId=\"165\" formatCode=\"yyyy\""),
        style_event(EventKind::Start, "numFmt numFmtId=\"166\" formatCode=\"yyyy\""),
        style_event(EventKind::End, "numFmt"),
        style_event(EventKind::Empty, "numFmt numFmtId=\"12\""),
        style_event(EventKind::End, "numFmts"),
    ];
    assert_eq!(search_formats(&events, b"yyyy"), (Some(165), 170));
    assert_eq!(search_formats(&events, b"0.0\"x\""), (Some(170), 163));
    assert_eq!(search_formats(&events, b"0.000"), (None, 170));
    assert_eq!(search_formats(&[], b"yyyy"), (None, 163));
    let (formats, highest) = read_formats(&events);
    assert_eq!(
        formats,
        vec![
            ("0.0\"x\"".to_string(), 170),
            ("yyyy".to_string(), 165),
            ("yyyy".to_string(), 166),
            (String::new(), 12)
        ]
    );
    assert_eq!(highest, 170);
    assert_eq!(read_formats(&[]), (vec![], 163));
}
