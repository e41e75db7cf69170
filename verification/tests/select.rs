use catalog_diagram::error::ExitCode;
use catalog_diagram::model::Catalog;
use catalog_diagram::parse::parse_bytes;
use catalog_diagram::select::{select, selected_names, Endpoint, ExternalRefs, Selection, SelectionSpec};

fn relation(from_table: &str, from_field: &str, to_table: &str, to_field: &str) -> String {
    format!(
        r#"<relation uuid="{from_table}-{from_field}" name_Nto1="{to_table}_of" name_1toN="{from_table}_list">
             <related_field kind="source"><field_ref name="{from_field}"><table_ref name="{from_table}"/></field_ref></related_field>
             <related_field kind="destination"><field_ref name="{to_field}"><table_ref name="{to_table}"/></field_ref></related_field>
           </relation>"#
    )
}

fn invoices() -> Catalog {
    let xml = format!(
        r#"<?xml version="1.0" encoding="UTF-8"?>
        <base name="InvoicesDemo">
          <table name="CLIENTS"><field name="ID" type="4" unique="true"/><field name="Name" type="10"/><primary_key field_name="ID"/></table>
          <table name="INVOICES"><field name="ID" type="4"/><field name="Client_ID" type="4"/><primary_key field_name="ID"/></table>
          <table name="INVOICE_LINES"><field name="ID" type="4"/><field name="Invoice_ID" type="4"/><field name="Product_ID" type="4"/></table>
          <table name="PRODUCTS"><field name="ID" type="4"/><field name="Label" type="10"/><primary_key field_name="ID"/></table>
          <table name="DEFAULT_SETTINGS"><field name="Key" type="10"/></table>
          {}{}{}
        </base>"#,
        relation("INVOICES", "Client_ID", "CLIENTS", "ID"),
        relation("INVOICE_LINES", "Invoice_ID", "INVOICES", "ID"),
        relation("INVOICE_LINES", "Product_ID", "PRODUCTS", "ID"),
    );
    parse_bytes(xml.as_bytes()).unwrap()
}

fn spec() -> SelectionSpec {
    SelectionSpec { depth: 1, max_tables: 300, ..Default::default() }
}

fn names(catalog: &Catalog, selection: &Selection) -> Vec<String> {
    let mut names: Vec<String> = selection.tables.iter().map(|&i| catalog.tables[i].name.clone()).collect();
    names.sort();
    names
}

#[test]
fn focus_depth_1_stops_exactly_where_the_relations_do() {
    let catalog = invoices();
    let selection = select(&catalog, &SelectionSpec { focus: Some("INVOICES".into()), ..spec() }).unwrap();
    assert_eq!(names(&catalog, &selection), ["CLIENTS", "INVOICES", "INVOICE_LINES"]);
    assert_eq!(selection.ghosts, ["PRODUCTS"]);
}

#[test]
fn focus_depth_2_pulls_in_products() {
    let catalog = invoices();
    let selection =
        select(&catalog, &SelectionSpec { focus: Some("INVOICES".into()), depth: 2, ..spec() }).unwrap();
    assert_eq!(names(&catalog, &selection), ["CLIENTS", "INVOICES", "INVOICE_LINES", "PRODUCTS"]);
    assert!(selection.ghosts.is_empty());
}

#[test]
fn focus_depth_0_selects_only_the_table() {
    let catalog = invoices();
    let selection =
        select(&catalog, &SelectionSpec { focus: Some("INVOICES".into()), depth: 0, ..spec() }).unwrap();
    assert_eq!(names(&catalog, &selection), ["INVOICES"]);
    assert_eq!(selection.ghosts, ["CLIENTS", "INVOICE_LINES"]);
}

#[test]
fn external_refs_hide_drops_the_stub_entirely() {
    let catalog = invoices();
    let selection = select(
        &catalog,
        &SelectionSpec { focus: Some("INVOICES".into()), external_refs: ExternalRefs::Hide, ..spec() },
    )
    .unwrap();
    assert!(selection.ghosts.is_empty());
    assert_eq!(selection.relations.len(), 2);
}

#[test]
fn external_refs_include_absorbs_the_neighbour() {
    let catalog = invoices();
    let selection = select(
        &catalog,
        &SelectionSpec { focus: Some("INVOICES".into()), external_refs: ExternalRefs::Include, ..spec() },
    )
    .unwrap();
    assert!(names(&catalog, &selection).contains(&"PRODUCTS".to_string()));
    assert!(selection.ghosts.is_empty());
}

#[test]
fn field_selection_is_narrower_than_table_focus() {
    let catalog = invoices();
    let by_field =
        select(&catalog, &SelectionSpec { field: Some("INVOICE_LINES.Product_ID".into()), ..spec() }).unwrap();
    assert_eq!(names(&catalog, &by_field), ["INVOICE_LINES", "PRODUCTS"]);
    let by_table =
        select(&catalog, &SelectionSpec { focus: Some("INVOICE_LINES".into()), ..spec() }).unwrap();
    assert_eq!(names(&catalog, &by_table), ["INVOICES", "INVOICE_LINES", "PRODUCTS"]);
}

#[test]
fn tables_match_selects_by_pattern() {
    let catalog = invoices();
    let selection = select(&catalog, &SelectionSpec { tables_match: Some("^INVOICE".into()), ..spec() }).unwrap();
    assert_eq!(names(&catalog, &selection), ["INVOICES", "INVOICE_LINES"]);
}

#[test]
fn the_max_tables_cap_is_enforced() {
    let catalog = invoices();
    let error = select(&catalog, &SelectionSpec { max_tables: 2, ..spec() }).unwrap_err();
    assert_eq!(error.exit_code(), ExitCode::Selection);
    assert_eq!(
        error.message(),
        "the selection contains 5 tables, above the --max-tables cap of 2; narrow it with --focus, --tables, or --tables-match, or raise --max-tables"
    );
}

#[test]
fn no_filter_selects_every_table_in_catalog_order() {
    let catalog = invoices();
    let selection = select(&catalog, &spec()).unwrap();
    assert_eq!(selection.tables, vec![0, 1, 2, 3, 4]);
    assert!(selection.ghosts.is_empty());
    assert_eq!(selection.relations.len(), 3);
    assert_eq!(selection.relations[0].from, Endpoint::Table(1));
    assert_eq!(selection.relations[0].to, Endpoint::Table(0));
    assert_eq!(
        selected_names(&catalog, &selection),
        vec!["CLIENTS", "INVOICES", "INVOICE_LINES", "PRODUCTS", "DEFAULT_SETTINGS"]
    );
}

#[test]
fn unknown_names_are_selection_errors() {
    let catalog = invoices();
    let e = select(&catalog, &SelectionSpec { tables: vec!["NOPE".into()], ..spec() }).unwrap_err();
    assert_eq!(e.exit_code(), ExitCode::Selection);
    assert_eq!(e.message(), "--tables references \"NOPE\", which is not in this catalog");
    let e = select(&catalog, &SelectionSpec { focus: Some("NOPE".into()), ..spec() }).unwrap_err();
    assert_eq!(e.message(), "--focus references \"NOPE\", which is not in this catalog");
    let e = select(&catalog, &SelectionSpec { tables_match: Some("^NOPE$".into()), ..spec() }).unwrap_err();
    assert_eq!(e.exit_code(), ExitCode::Selection);
}

#[test]
fn an_invalid_pattern_is_a_usage_error() {
    let catalog = invoices();
    let e = select(&catalog, &SelectionSpec { tables_match: Some("(".into()), ..spec() }).unwrap_err();
    assert_eq!(e.exit_code(), ExitCode::Usage);
    assert!(e.message().starts_with("invalid --tables-match regex: "));
}

#[test]
fn external_refs_values_parse() {
    assert_eq!(ExternalRefs::parse("ghost").unwrap(), ExternalRefs::Stub);
    assert_eq!(ExternalRefs::parse("hide").unwrap(), ExternalRefs::Hide);
    assert_eq!(ExternalRefs::parse("include").unwrap(), ExternalRefs::Include);
    let e = ExternalRefs::parse("all").unwrap_err();
    assert_eq!(e.exit_code(), ExitCode::Usage);
    assert_eq!(e.message(), "invalid --external-refs \"all\" (expected ghost, hide, or include)");
}

#[test]
fn position_of_finds_selected_tables() {
    let catalog = invoices();
    let selection = select(&catalog, &SelectionSpec { focus: Some("INVOICES".into()), ..spec() }).unwrap();
    assert_eq!(selection.position_of(1), Some(1));
    assert_eq!(selection.position_of(3), None);
    assert!(SelectionSpec::default().is_unfiltered());
    assert!(spec().is_unfiltered());
}
