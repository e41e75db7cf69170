use catalog_diagram::export::{dot_escape, fits, graphviz, label_text, mermaid, sanitize};
use catalog_diagram::model::Catalog;
use catalog_diagram::parse::parse_bytes;
use catalog_diagram::select::{select, SelectionSpec};

#[test]
fn sanitize_produces_safe_identifiers() {
    assert_eq!(sanitize("Order Lines"), "Order_Lines");
    assert_eq!(sanitize("2020 Sales"), "T2020_Sales");
    assert_eq!(sanitize(""), "_");
    assert_eq!(sanitize("<script>"), "_script_");
}

#[test]
fn label_text_strips_string_terminators() {
    assert_eq!(label_text("</script><svg onload=x>"), "_/script__svg onload=x_");
    assert_eq!(label_text("say \"hi\""), "say 'hi'");
}

#[test]
fn dot_escape_neutralizes_record_syntax() {
    assert_eq!(dot_escape("a|b{c}"), "a\\|b\\{c\\}");
    assert_eq!(dot_escape("he said \"hi\""), "he\\ said\\ \\\"hi\\\"");
}

#[test]
fn label_text_is_cut_to_eighty_characters() {
    let long: String = "x".repeat(100);
    assert_eq!(label_text(&long).chars().count(), 80);
    assert_eq!(label_text("a\tb\u{1}c"), "a b c");
    assert_eq!(dot_escape("a\nb\t<c>"), "a b \\<c\\>");
}

fn small() -> Catalog {
    let xml = br#"<base name="S">
        <table name="Order Lines"><field name="ID" type="4" unique="true"/><field name="Order ID" type="4"/><field name="Secret" type="10"><field_extra visible="false"/></field><primary_key field_name="ID"/></table>
        <table name="Order_Lines"><field name="Code" type="10" limiting_length="8" unique="true"/></table>
        <table name="Orders"><field name="ID" type="4"/></table>
        <relation name_Nto1="order &quot;of&quot;">
          <related_field kind="source"><field_ref name="Order ID"><table_ref name="Order Lines"/></field_ref></related_field>
          <related_field kind="destination"><field_ref name="ID"><table_ref name="Orders"/></field_ref></related_field>
        </relation>
        <relation>
          <related_field kind="source"><field_ref name="Code"><table_ref name="Order_Lines"/></field_ref></related_field>
          <related_field kind="destination"><field_ref name="Ref"><table_ref name="Elsewhere"/></field_ref></related_field>
        </relation>
    </base>"#;
    parse_bytes(xml).unwrap()
}

#[test]
fn mermaid_lists_entities_ghosts_and_relationships() {
    let catalog = small();
    let selection = select(&catalog, &SelectionSpec { depth: 1, max_tables: 300, ..Default::default() }).unwrap();
    assert!(fits(&catalog, &selection));
    let text = mermaid(&catalog, &selection, false);
    let expected = [
        "erDiagram\n",
        "    Order_Lines {\n        Longint ID PK\n        Longint Order_ID\n        Text Secret\n    }\n",
        "    Order_Lines_2 {\n        Alpha Code UK\n    }\n",
        "    Orders {\n        Longint ID\n    }\n",
        "    Elsewhere {\n    }\n",
        "    Orders ||--o{ Order_Lines : \"order 'of'\"\n",
        "    Elsewhere ||--o{ Order_Lines_2 : \"Code_Ref\"\n",
    ]
    .concat();
    assert_eq!(text, expected);
    let hidden = mermaid(&catalog, &selection, true);
    assert!(!hidden.contains("Secret"));
}

#[test]
fn graphviz_attaches_edges_to_field_ports() {
    let catalog = small();
    let selection = select(&catalog, &SelectionSpec { depth: 1, max_tables: 300, ..Default::default() }).unwrap();
    let text = graphviz(&catalog, &selection, true);
    assert!(text.starts_with("digraph catalog {\n  rankdir=LR;\n"));
    assert!(text.contains("  Order_Lines [label=\"{Order\\ Lines|<f0> ID : Longint\\ [PK]|<f1> Order\\ ID : Longint}\"];\n"));
    assert!(text.contains("  Order_Lines_2 [label=\"{Order_Lines|<f0> Code : Alpha\\ [UK]}\"];\n"));
    assert!(text.contains("  Elsewhere [label=\"{Elsewhere|(not in selection)}\", style=dashed, fontcolor=\"#6b7280\", color=\"#9ca3af\"];\n"));
    assert!(text.contains("  Orders:f0 -> Order_Lines:f1 [label=\"order\\ 'of'\", arrowhead=none, arrowtail=crow, dir=back];\n"));
    assert!(text.contains("  Elsewhere -> Order_Lines_2:f0 [label=\"\", arrowhead=none, arrowtail=crow, dir=back];\n"));
    assert!(text.ends_with("}\n"));
}

#[test]
fn a_selection_from_another_catalog_does_not_fit() {
    let catalog = small();
    let selection = select(&catalog, &SelectionSpec { depth: 1, max_tables: 300, ..Default::default() }).unwrap();
    let empty = parse_bytes(b"<base name=\"E\"/>").unwrap();
    assert!(!fits(&empty, &selection));
}

#[test]
fn colliding_names_get_distinct_ids() {
    let catalog = parse_bytes(
        br#"<base name="C"><table name="A"/><table name="A"/><table name="A 2"/><table name="B"/></base>"#,
    )
    .unwrap();
    let selection = select(&catalog, &SelectionSpec { depth: 1, max_tables: 300, ..Default::default() }).unwrap();
    let text = mermaid(&catalog, &selection, false);
    assert_eq!(
        text,
        "erDiagram\n    A {\n    }\n    A_2 {\n    }\n    A_2_2 {\n    }\n    B {\n    }\n"
    );
    let catalog = parse_bytes(
        br#"<base name="D"><table name="A"/><table name="A_2"/><table name="A"/><table name="A"/></base>"#,
    )
    .unwrap();
    let selection = select(&catalog, &SelectionSpec { depth: 1, max_tables: 300, ..Default::default() }).unwrap();
    assert_eq!(
        mermaid(&catalog, &selection, false),
        "erDiagram\n    A {\n    }\n    A_2 {\n    }\n    A_3 {\n    }\n    A_4 {\n    }\n"
    );
}
