use catalog_diagram::error::{AppError, ExitCode};
use catalog_diagram::parse::{declared_encoding, decode, parse_bytes};

#[test]
fn parses_a_minimal_catalog() {
    let xml = br#"<?xml version="1.0" encoding="UTF-8"?>
        <base name="Tiny">
          <table name="A" id="1">
            <field name="ID" type="4" unique="true" id="1"/>
            <primary_key field_name="ID"/>
          </table>
        </base>"#;
    let catalog = parse_bytes(xml).unwrap();
    assert_eq!(catalog.base_name, "Tiny");
    assert_eq!(catalog.tables.len(), 1);
    assert!(catalog.tables[0].fields[0].is_primary_key);
}

#[test]
fn external_doctype_is_never_fetched() {
    let xml = br#"<?xml version="1.0" encoding="UTF-8"?>
        <!DOCTYPE base SYSTEM "http://www.4d.com/dtd/2007/base.dtd">
        <base name="WithDoctype"><table name="A"/></base>"#;
    let catalog = parse_bytes(xml).unwrap();
    assert_eq!(catalog.base_name, "WithDoctype");
}

#[test]
fn unknown_elements_and_attributes_are_ignored() {
    let xml = br#"<base name="X" future_attr="1">
          <brand_new_element foo="bar"/>
          <table name="A" mystery="yes"><field name="F" type="999"><novel/></field></table>
        </base>"#;
    let catalog = parse_bytes(xml).unwrap();
    assert_eq!(catalog.tables[0].fields[0].type_label(), "Type 999");
}

#[test]
fn malformed_xml_is_a_hard_error() {
    let err = parse_bytes(b"<base><table></base>").unwrap_err();
    assert_eq!(err.exit_code(), ExitCode::MalformedXml);
}

#[test]
fn detects_declared_encoding() {
    assert_eq!(
        declared_encoding(br#"<?xml version="1.0" encoding="windows-1252"?><base/>"#),
        Some("windows-1252".to_string())
    );
}

#[test]
fn decodes_windows_1252() {
    let mut bytes = br#"<?xml version="1.0" encoding="windows-1252"?><base name=""#.to_vec();
    bytes.push(0xE9); // é in Windows-1252
    bytes.extend_from_slice(br#""/>"#);
    let catalog = parse_bytes(&bytes).unwrap();
    assert_eq!(catalog.base_name, "é");
}

#[test]
fn strips_utf8_bom() {
    let mut bytes = vec![0xEF, 0xBB, 0xBF];
    bytes.extend_from_slice(br#"<base name="Bom"/>"#);
    assert_eq!(parse_bytes(&bytes).unwrap().base_name, "Bom");
}

#[test]
fn declared_encoding_accepts_single_quotes_and_spaces() {
    assert_eq!(
        declared_encoding(b"<?xml version='1.0' encoding = 'ISO-8859-1' ?><base/>"),
        Some("ISO-8859-1".to_string())
    );
    assert_eq!(declared_encoding(b"<base/>"), None);
    assert_eq!(declared_encoding(b"<?xml version=\"1.0\"?><base/>"), None);
    assert_eq!(declared_encoding(b"<?xml encoding=utf-8?>"), None);
}

#[test]
fn unknown_declared_encoding_falls_back_to_utf8_with_a_warning() {
    let (text, warnings) = decode(br#"<?xml version="1.0" encoding="klingon"?><base/>"#);
    assert!(text.ends_with("<base/>"));
    assert_eq!(
        warnings,
        vec!["unknown declared encoding \"klingon\"; decoded as UTF-8".to_string()]
    );
}

#[test]
fn invalid_utf8_is_replaced_with_a_warning() {
    let (text, warnings) = decode(&[b'a', 0xFF, b'b']);
    assert_eq!(text, "a\u{FFFD}b");
    assert_eq!(
        warnings,
        vec!["input contained byte sequences invalid for UTF-8; they were replaced".to_string()]
    );
}

#[test]
fn utf16_byte_order_marks_are_honoured() {
    let mut le = vec![0xFF, 0xFE];
    for unit in "<base name=\"W\"/>".encode_utf16() {
        le.extend_from_slice(&unit.to_le_bytes());
    }
    assert_eq!(parse_bytes(&le).unwrap().base_name, "W");
    let mut be = vec![0xFE, 0xFF];
    for unit in "<base name=\"V\"/>".encode_utf16() {
        be.extend_from_slice(&unit.to_be_bytes());
    }
    assert_eq!(parse_bytes(&be).unwrap().base_name, "V");
}

#[test]
fn malformed_xml_reports_position_and_source_line() {
    let err = parse_bytes(b"<base>\n  <table>\r\n</base>\n").unwrap_err();
    match &err {
        AppError::MalformedXml(message, Some(position)) => {
            assert!(message.starts_with("input is not well-formed XML: "));
            assert_eq!(position.line, 3);
            assert_eq!(position.excerpt, "</base>");
        }
        other => panic!("unexpected error {other:?}"),
    }
    assert_eq!(err.kind(), "malformed_xml");
}

#[test]
fn root_element_other_than_base_is_parsed_with_a_warning() {
    let catalog = parse_bytes(br#"<catalog><table name="A"/></catalog>"#).unwrap();
    assert_eq!(catalog.base_name, "Catalog");
    assert_eq!(catalog.tables.len(), 1);
    assert_eq!(
        catalog.warnings,
        vec!["root element is <catalog>, expected <base>; parsing anyway".to_string()]
    );
}

#[test]
fn nameless_tables_and_fields_are_skipped_with_warnings() {
    let xml = br#"<base name="N">
        <table><field name="X"/></table>
        <table name="T"><field type="4"/><field name="F" type="4"/></table>
    </base>"#;
    let catalog = parse_bytes(xml).unwrap();
    assert_eq!(catalog.tables.len(), 1);
    assert_eq!(catalog.tables[0].fields.len(), 1);
    assert_eq!(
        catalog.warnings,
        vec![
            "skipped a <table> with no name attribute".to_string(),
            "skipped a <field> with no name attribute in table \"T\"".to_string(),
        ]
    );
}

#[test]
fn field_attributes_are_read_with_defaults() {
    let xml = br#"<base name="F">
        <table name="T">
          <field name="A" type="10" limiting_length="40" never_null="1" unique="yes">
            <field_extra visible="false" modifiable="no" mandatory="true">
              <tip>  a tip  </tip>
              <editor_field_info><color red="300" green="-5" blue="12"/></editor_field_info>
            </field_extra>
            <index_ref uuid="I1"/>
          </field>
          <field name="B"/>
          <table_extra><editor_table_info><color red="1" green="2" blue="3" alpha="4"/><coordinates left="10.5" top="20" width="99"/></editor_table_info></table_extra>
        </table>
    </base>"#;
    let catalog = parse_bytes(xml).unwrap();
    let t = &catalog.tables[0];
    let a = &t.fields[0];
    assert_eq!(a.type_code, 10);
    assert_eq!(a.limiting_length, Some(40));
    assert!(a.never_null && a.unique && a.hidden && !a.modifiable && a.mandatory && a.indexed);
    assert_eq!(a.tip.as_deref(), Some("a tip"));
    let c = a.color.unwrap();
    assert_eq!((c.r, c.g, c.b, c.a), (255, 0, 12, 255));
    assert_eq!(a.type_label(), "Alpha");
    let b = &t.fields[1];
    assert_eq!(b.type_code, -1);
    assert!(!b.unique && !b.hidden && b.modifiable && !b.indexed);
    assert_eq!(b.tip, None);
    let tc = t.color.unwrap();
    assert_eq!((tc.r, tc.g, tc.b, tc.a), (1, 2, 3, 4));
    let coords = t.coordinates.as_ref().unwrap();
    assert_eq!(coords.left, "10.5");
    assert_eq!(coords.top, "20");
    assert_eq!(coords.width.as_deref(), Some("99"));
    assert_eq!(coords.height, None);
}

#[test]
fn relations_are_read_and_checked_against_the_tables() {
    let xml = br#"<base name="R">
        <table name="A"><field name="ID"/></table>
        <relation uuid="R1" name_Nto1="owner" name_1toN="" auto_load_Nto1="true" integrity="restrict">
          <related_field kind="source"><field_ref name="Missing"><table_ref name="A"/></field_ref></related_field>
          <related_field kind="destination"><field_ref name="ID"><table_ref name="Ghost"/></field_ref></related_field>
          <relation_extra><editor_relation_info prefers_left="1"><color red="9"/></editor_relation_info></relation_extra>
        </relation>
        <relation><related_field kind="source"><field_ref name="X"><table_ref name="A"/></field_ref></related_field></relation>
        <relation/>
    </base>"#;
    let catalog = parse_bytes(xml).unwrap();
    assert_eq!(catalog.relations.len(), 1);
    let r = &catalog.relations[0];
    assert_eq!(r.uuid, "R1");
    assert_eq!(r.name_nto1.as_deref(), Some("owner"));
    assert_eq!(r.name_1ton, None);
    assert_eq!((r.from_table.as_str(), r.from_field.as_str()), ("A", "Missing"));
    assert_eq!((r.to_table.as_str(), r.to_field.as_str()), ("Ghost", "ID"));
    assert!(r.auto_load_nto1 && !r.auto_load_1ton && !r.foreign_key && r.prefers_left);
    assert_eq!(r.integrity.as_deref(), Some("restrict"));
    assert_eq!(r.color.unwrap().r, 9);
    assert_eq!(
        catalog.warnings,
        vec![
            "skipped a <relation> from A.X with no resolvable destination field".to_string(),
            "skipped a <relation> with no resolvable source field".to_string(),
            "relation references unknown field A.Missing".to_string(),
            "relation references unknown table \"Ghost\"; it will be drawn as an external reference"
                .to_string(),
        ]
    );
}

#[test]
fn repeated_validation_warnings_are_reported_once_in_a_row() {
    let rel = r#"<relation><related_field kind="source"><field_ref name="F"><table_ref name="Nope"/></field_ref></related_field><related_field kind="destination"><field_ref name="G"><table_ref name="Nope"/></field_ref></related_field></relation>"#;
    let xml = format!("<base name=\"D\">{rel}{rel}</base>");
    let catalog = parse_bytes(xml.as_bytes()).unwrap();
    assert_eq!(catalog.relations.len(), 2);
    assert_eq!(
        catalog.warnings,
        vec![
            "relation references unknown table \"Nope\"; it will be drawn as an external reference"
                .to_string()
        ]
    );
}

#[test]
fn indexes_are_keyed_by_uuid_in_uuid_order_and_the_last_one_wins() {
    let xml = br#"<base name="I">
        <index uuid="U1" kind="btree" type="1"><table_ref name="A"/><table_ref/></index>
        <index uuid="U2" unique_keys="true"/>
        <index uuid="U1" kind="cluster"/>
        <index/>
    </base>"#;
    let catalog = parse_bytes(xml).unwrap();
    assert_eq!(catalog.indexes.len(), 3);
    assert_eq!(catalog.indexes[0].uuid, "");
    assert_eq!(catalog.indexes[1].uuid, "U1");
    assert_eq!(catalog.indexes[1].kind.as_deref(), Some("cluster"));
    assert!(catalog.indexes[1].tables.is_empty());
    assert_eq!(catalog.indexes[2].uuid, "U2");
    assert!(catalog.indexes[2].unique_keys);
}

#[test]
fn error_json_line_carries_kind_code_and_position() {
    let err = parse_bytes(b"<base><table></base>").unwrap_err();
    let line = err.to_json_line();
    let value: serde_json::Value = serde_json::from_str(&line).unwrap();
    assert_eq!(value["level"], "error");
    assert_eq!(value["kind"], "malformed_xml");
    assert_eq!(value["exit_code"], 3);
    assert_eq!(value["line"], 1);
    assert!(value["message"].as_str().unwrap().starts_with("input is not well-formed XML"));
}

#[test]
fn declared_encoding_reads_through_invalid_bytes() {
    assert_eq!(
        declared_encoding(b"\xff<?xml version='1.0' encoding='latin1'?><base/>"),
        Some("latin1".to_string())
    );
    assert_eq!(
        declared_encoding(b"<?xml encoding=\"a\xffb\"?>"),
        Some("a\u{FFFD}b".to_string())
    );
}
