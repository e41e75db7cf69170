use catalog_diagram::inspect::to_json;
use catalog_diagram::parse::parse_bytes;

fn relation(from_table: &str, from_field: &str, to_table: &str, to_field: &str) -> String {
    format!(
        r#"<relation>
             <related_field kind="source"><field_ref name="{from_field}"><table_ref name="{from_table}"/></field_ref></related_field>
             <related_field kind="destination"><field_ref name="{to_field}"><table_ref name="{to_table}"/></field_ref></related_field>
           </relation>"#
    )
}

#[test]
fn inspect_sorts_tables_fields_and_rankings() {
    let xml = format!(
        r#"<base name="InvoicesDemo">
          <table name="PRODUCTS"><field name="ID" type="4"/><primary_key field_name="ID"/></table>
          <table name="INVOICE_LINES"><field name="Product_ID" type="4"/><field name="Invoice_ID" type="4"/></table>
          <table name="INVOICES"><field name="ID" type="4"/><field name="Client_ID" type="4"/><primary_key field_name="ID"/></table>
          <table name="DEFAULT_SETTINGS"><field name="Key" type="10" never_null="true"><field_extra><tip>k</tip></field_extra></field></table>
          <table name="CLIENTS"><field name="Name" type="10" limiting_length="20"/><field name="ID" type="4" unique="true"/><primary_key field_name="ID"/>
            <table_extra><editor_table_info><coordinates left="1" top="2"/></editor_table_info></table_extra></table>
          <index uuid="X"/>
          {}{}{}
        </base>"#,
        relation("INVOICES", "Client_ID", "CLIENTS", "ID"),
        relation("INVOICE_LINES", "Invoice_ID", "INVOICES", "ID"),
        relation("INVOICE_LINES", "Product_ID", "PRODUCTS", "ID"),
    );
    let catalog = parse_bytes(xml.as_bytes()).unwrap();
    let json = to_json(&catalog);
    assert_eq!(json.base_name, "InvoicesDemo");
    assert_eq!((json.table_count, json.relation_count, json.index_count), (5, 3, 1));
    let names: Vec<&str> = json.tables.iter().map(|t| t.name.as_str()).collect();
    assert_eq!(names, ["CLIENTS", "DEFAULT_SETTINGS", "INVOICES", "INVOICE_LINES", "PRODUCTS"]);
    let clients = &json.tables[0];
    assert_eq!(clients.primary_key.as_deref(), Some("ID"));
    assert!(clients.has_layout);
    assert_eq!((clients.relations_in, clients.relations_out, clients.field_count), (1, 0, 2));
    assert_eq!(clients.fields[0].name, "ID");
    assert_eq!(clients.fields[0].type_label, "Longint");
    assert!(clients.fields[0].unique);
    assert_eq!(clients.fields[1].type_label, "Alpha");
    assert_eq!(clients.fields[1].limiting_length, Some(20));
    let settings = &json.tables[1];
    assert!(settings.fields[0].mandatory);
    assert_eq!(settings.fields[0].tip.as_deref(), Some("k"));
    assert!(!settings.has_layout);
    let relations: Vec<(&str, &str)> =
        json.relations.iter().map(|r| (r.from_table.as_str(), r.from_field.as_str())).collect();
    assert_eq!(relations, [("INVOICES", "Client_ID"), ("INVOICE_LINES", "Invoice_ID"), ("INVOICE_LINES", "Product_ID")]);
    assert_eq!(json.analysis.tables_without_primary_key, ["DEFAULT_SETTINGS", "INVOICE_LINES"]);
    assert_eq!(json.analysis.isolated_tables, ["DEFAULT_SETTINGS"]);
    let ranked: Vec<(&str, usize)> = json
        .analysis
        .most_connected_tables
        .iter()
        .map(|c| (c.name.as_str(), c.relation_count))
        .collect();
    assert_eq!(ranked, [("INVOICES", 2), ("INVOICE_LINES", 2), ("CLIENTS", 1), ("PRODUCTS", 1)]);
}

#[test]
fn only_ten_connected_tables_are_ranked() {
    let mut body = String::new();
    for i in 0..12 {
        body.push_str(&format!("<table name=\"T{i:02}\"><field name=\"F\"/></table>"));
        body.push_str(&relation(&format!("T{i:02}"), "F", &format!("T{i:02}"), "F"));
    }
    let catalog = parse_bytes(format!("<base name=\"B\">{body}</base>").as_bytes()).unwrap();
    let json = to_json(&catalog);
    assert_eq!(json.analysis.most_connected_tables.len(), 10);
    assert_eq!(json.analysis.most_connected_tables[0].name, "T00");
    assert_eq!(json.analysis.most_connected_tables[0].relation_count, 2);
    assert!(json.analysis.isolated_tables.is_empty());
}
