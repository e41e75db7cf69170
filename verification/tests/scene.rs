use catalog_diagram::parse::parse_bytes;
use catalog_diagram::scene::{
    badges_for, card_index, collapsed_rows, field_count_text, glyph_name,
    hidden_field_count, row_slot, type_badge_text, Badge,
};
use catalog_diagram::select::{select, Endpoint, SelectionSpec};
use catalog_diagram::types::Glyph;

#[test]
fn badges_follow_the_field_flags() {
    let catalog = parse_bytes(
        br#"<base name="B"><table name="T">
            <field name="ID" type="4" unique="true"><index_ref uuid="i"/></field>
            <field name="N" type="10" limiting_length="30" never_null="true"><field_extra visible="false"/></field>
            <primary_key field_name="ID"/></table></base>"#,
    )
    .unwrap();
    let t = &catalog.tables[0];
    assert_eq!(badges_for(&t.fields[0]), vec![Badge::Key, Badge::Indexed]);
    assert_eq!(badges_for(&t.fields[1]), vec![Badge::Mandatory, Badge::Hidden]);
    assert_eq!(type_badge_text(&t.fields[0]), "Longint");
    assert_eq!(type_badge_text(&t.fields[1]), "Alpha(30)");
    assert_eq!(hidden_field_count(t), 1);
    assert_eq!(Badge::Key.letter(), "K");
    assert_eq!(Badge::Hidden.title(), "hidden (4D-internal) field");
    assert_eq!(glyph_name(Glyph::Date), "date");
    assert_eq!(field_count_text(1), "1 field");
    assert_eq!(field_count_text(2), "2 fields");
}

#[test]
fn collapsing_keeps_the_first_rows() {
    assert_eq!(collapsed_rows(true, 11), Some(8));
    assert_eq!(collapsed_rows(true, 10), None);
    assert_eq!(collapsed_rows(false, 50), None);
    assert_eq!(row_slot(7, Some(8)), 7);
    assert_eq!(row_slot(8, Some(8)), 9);
    assert_eq!(row_slot(8, None), 8);
}

#[test]
fn ghost_cards_follow_table_cards() {
    let catalog = parse_bytes(
        br#"<base name="G"><table name="A"><field name="X"/></table><table name="B"><field name="Y"/></table>
        <relation><related_field kind="source"><field_ref name="X"><table_ref name="A"/></field_ref></related_field>
        <related_field kind="destination"><field_ref name="Y"><table_ref name="B"/></field_ref></related_field></relation></base>"#,
    )
    .unwrap();
    let selection = select(
        &catalog,
        &SelectionSpec { focus: Some("A".into()), depth: 0, max_tables: 10, ..Default::default() },
    )
    .unwrap();
    assert_eq!(card_index(&selection, Endpoint::Table(0)), 0);
    assert_eq!(card_index(&selection, Endpoint::Stub(0)), 1);
}
