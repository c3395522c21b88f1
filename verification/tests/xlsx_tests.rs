use std::io::Write;
use vverdad::xlsx::{parse_xlsx, SheetWarning};

fn workbook(sheet_xml: &str, shared: Option<&str>) -> Vec<u8> {
    let mut buf = std::io::Cursor::new(Vec::new());
    {
        let mut w = zip::ZipWriter::new(&mut buf);
        let opts = zip::write::SimpleFileOptions::default();
        w.start_file("xl/workbook.xml", opts).unwrap();
        w.write_all(
            br#"<workbook><sheets><sheet name="Mass Budget" sheetId="1" r:id="rId1"/><sheet name="Orphan" sheetId="2" r:id="rId9"/></sheets></workbook>"#,
        )
        .unwrap();
        w.start_file("xl/_rels/workbook.xml.rels", opts).unwrap();
        w.write_all(br#"<Relationships><Relationship Id="rId1" Target="worksheets/sheet1.xml"/></Relationships>"#).unwrap();
        w.start_file("xl/worksheets/sheet1.xml", opts).unwrap();
        w.write_all(sheet_xml.as_bytes()).unwrap();
        if let Some(s) = shared {
            w.start_file("xl/sharedStrings.xml", opts).unwrap();
            w.write_all(s.as_bytes()).unwrap();
        }
        w.finish().unwrap();
    }
    buf.into_inner()
}

#[test]
fn reads_headers_rows_and_shared_strings() {
    let shared = r#"<sst><si><t>Part Name</t></si><si><t>Mass (kg)</t></si><si><t>bus &amp; frame</t></si></sst>"#;
    let sheet = r#"<worksheet><sheetData>
        <row r="1"><c r="A1" t="s"><v>0</v></c><c r="B1" t="s"><v>1</v></c></row>
        <row r="2"><c r="A2" t="s"><v>2</v></c><c r="B2"><v>12.5</v></c></row>
        <row r="3"><c r="B3" t="inlineStr"><is><t>light</t></is></c></row>
    </sheetData></worksheet>"#;
    let sheets = parse_xlsx(workbook(sheet, Some(shared))).unwrap();
    assert_eq!(sheets.len(), 1);
    assert_eq!(sheets[0].name, "mass_budget");
    let t = &sheets[0].table;
    assert_eq!(t.headers, vec!["part_name", "mass__kg_"]);
    assert_eq!(t.rows, vec![vec!["bus & frame".to_string(), "12.5".to_string()], vec![String::new(), "light".to_string()]]);
    assert!(sheets[0].warnings.is_empty());
}

#[test]
fn missing_header_cells_get_column_numbers() {
    let sheet = r#"<worksheet><sheetData><row r="1"><c r="B1"><v>x</v></c></row><row r="2"><c r="C2"><v>7</v></c></row></sheetData></worksheet>"#;
    let sheets = parse_xlsx(workbook(sheet, None)).unwrap();
    let t = &sheets[0].table;
    assert_eq!(t.headers, vec!["col_1", "x", "col_3"]);
    assert_eq!(t.rows, vec![vec![String::new(), String::new(), "7".to_string()]]);
}

#[test]
fn bad_shared_string_indices_are_skipped_with_warnings() {
    let shared = r#"<sst><si><t>only</t></si></sst>"#;
    let sheet = r#"<worksheet><sheetData><row r="1"><c r="A1" t="s"><v>0</v></c><c r="B1" t="s"><v>5</v></c><c r="C1" t="s"><v>x</v></c></row></sheetData></worksheet>"#;
    let sheets = parse_xlsx(workbook(sheet, Some(shared))).unwrap();
    let s = &sheets[0];
    assert_eq!(s.table.headers, vec!["only"]);
    assert_eq!(s.warnings.len(), 2);
    match &s.warnings[0] {
        SheetWarning::IndexOutOfRange { index, max, cell } => {
            assert_eq!(*index, 5);
            assert_eq!(*max, 0);
            assert_eq!(cell, "B1");
        },
        _ => panic!("expected an out-of-range warning"),
    }
    match &s.warnings[1] {
        SheetWarning::MalformedIndex { value, cell } => {
            assert_eq!(value, "x");
            assert_eq!(cell, "C1");
        },
        _ => panic!("expected a malformed-index warning"),
    }
}

#[test]
fn empty_sheet_gives_empty_table_and_bad_bytes_fail() {
    let sheets = parse_xlsx(workbook("<worksheet><sheetData/></worksheet>", None)).unwrap();
    assert!(sheets[0].table.headers.is_empty());
    assert!(sheets[0].table.rows.is_empty());
    assert!(parse_xlsx(b"PK not really".to_vec()).is_err());
}

use vverdad::error::VVError;
use vverdad::xlsx::{
    read_items, relationships_from_items, shared_strings_from_items, sheet_from_items, sheets_from_items, XmlItem,
    XmlTag,
};

fn tag(name: &str, attrs: &[(&str, &str)]) -> XmlTag {
    XmlTag {
        name: name.to_string(),
        attributes: attrs.iter().map(|(k, v)| (k.to_string(), v.to_string())).collect(),
    }
}

fn text(s: &str) -> XmlItem {
    XmlItem::Text(Ok(s.to_string()))
}

fn end(name: &str) -> XmlItem {
    XmlItem::End(name.to_string())
}

#[test]
fn read_items_stops_at_the_end_of_the_document() {
    let (items, stop) = read_items(b"<sst><si><t>a</t></si></sst>");
    assert!(stop.is_none());
    assert_eq!(items.len(), 7);
    assert!(matches!(&items[0], XmlItem::Start(t) if t.name == "sst"));
    assert!(matches!(&items[3], XmlItem::Text(Ok(s)) if s == "a"));
    assert!(matches!(&items[6], XmlItem::End(n) if n == "sst"));
}

#[test]
fn read_items_reports_a_mismatched_end_tag() {
    let (_, stop) = read_items(b"<a><b></a>");
    assert!(matches!(stop, Some(VVError::Xml(_))));
}

#[test]
fn shared_strings_join_the_texts_of_each_entry() {
    let items = vec![
        XmlItem::Start(tag("sst", &[])),
        XmlItem::Start(tag("si", &[])),
        XmlItem::Start(tag("t", &[])),
        text("bus "),
        end("t"),
        XmlItem::Start(tag("t", &[])),
        text("frame"),
        end("t"),
        end("si"),
        XmlItem::Start(tag("si", &[])),
        XmlItem::Start(tag("t", &[])),
        text("x"),
        end("t"),
        end("si"),
        end("sst"),
    ];
    let strings = shared_strings_from_items(&items, None).unwrap();
    assert_eq!(strings, vec!["bus frame".to_string(), "x".to_string()]);
    let stopped = shared_strings_from_items(&items, Some(VVError::Xml("cut".to_string())));
    assert_eq!(stopped, Err(VVError::Xml("cut".to_string())));
}

#[test]
fn shared_strings_fail_on_a_bad_escape() {
    let items = vec![
        XmlItem::Start(tag("si", &[])),
        XmlItem::Start(tag("t", &[])),
        XmlItem::Text(Err("bad entity".to_string())),
    ];
    let res = shared_strings_from_items(&items, None);
    assert_eq!(res, Err(VVError::Xml("bad entity".to_string())));
}

#[test]
fn sheets_and_relationships_come_in_document_order() {
    let wb = vec![
        XmlItem::Start(tag("sheets", &[])),
        XmlItem::Empty(tag("sheet", &[("name", "A"), ("r:id", "rId2")])),
        XmlItem::Empty(tag("sheet", &[("name", "B"), ("r:id", "rId1")])),
        end("sheets"),
    ];
    let sheets = sheets_from_items(&wb, None).unwrap();
    assert_eq!(sheets, vec![("A".to_string(), "rId2".to_string()), ("B".to_string(), "rId1".to_string())]);
    let rels = vec![XmlItem::Empty(tag("Relationship", &[("Id", "rId1"), ("Target", "worksheets/sheet1.xml")]))];
    let got = relationships_from_items(&rels, None).unwrap();
    assert_eq!(got, vec![("rId1".to_string(), "worksheets/sheet1.xml".to_string())]);
    assert!(sheets_from_items(&wb, Some(VVError::Xml("cut".to_string()))).is_err());
}

#[test]
fn sheet_items_give_headers_and_rows() {
    let shared = vec!["Part".to_string()];
    let items = vec![
        XmlItem::Start(tag("c", &[("r", "A1"), ("t", "s")])),
        XmlItem::Start(tag("v", &[])),
        text("0"),
        end("v"),
        end("c"),
        XmlItem::Start(tag("c", &[("r", "A2")])),
        XmlItem::Start(tag("v", &[])),
        text("bus"),
        end("v"),
        end("c"),
    ];
    let (table, warnings) = sheet_from_items(&items, None, &shared).unwrap();
    assert_eq!(table.headers, vec!["part".to_string()]);
    assert_eq!(table.rows, vec![vec!["bus".to_string()]]);
    assert!(warnings.is_empty());
}

#[test]
fn workbook_without_its_parts_fails() {
    let mut buf = std::io::Cursor::new(Vec::new());
    {
        let mut w = zip::ZipWriter::new(&mut buf);
        let opts = zip::write::SimpleFileOptions::default();
        w.start_file("xl/worksheets/sheet1.xml", opts).unwrap();
        w.write_all(b"<worksheet><sheetData/></worksheet>").unwrap();
        w.finish().unwrap();
    }
    assert!(parse_xlsx(buf.into_inner()).is_err());
}

#[test]
fn corrupt_sheet_member_fails_as_an_xml_read() {
    let sheet = "<worksheet><sheetData/></worksheet>";
    let mut buf = std::io::Cursor::new(Vec::new());
    {
        let mut w = zip::ZipWriter::new(&mut buf);
        let opts = zip::write::SimpleFileOptions::default().compression_method(zip::CompressionMethod::Stored);
        w.start_file("xl/workbook.xml", opts).unwrap();
        w.write_all(br#"<workbook><sheets><sheet name="S" sheetId="1" r:id="rId1"/></sheets></workbook>"#).unwrap();
        w.start_file("xl/_rels/workbook.xml.rels", opts).unwrap();
        w.write_all(br#"<Relationships><Relationship Id="rId1" Target="worksheets/sheet1.xml"/></Relationships>"#).unwrap();
        w.start_file("xl/worksheets/sheet1.xml", opts).unwrap();
        w.write_all(sheet.as_bytes()).unwrap();
        w.finish().unwrap();
    }
    let mut bytes = buf.into_inner();
    let at = bytes.windows(sheet.len()).position(|win| win == sheet.as_bytes()).unwrap();
    bytes[at + 1] = b'W';
    match parse_xlsx(bytes) {
        Err(VVError::Xml(m)) => assert!(m.starts_with("I/O error: "), "{}", m),
        other => panic!("unexpected result: {:?}", other.map(|v| v.len())),
    }
}
