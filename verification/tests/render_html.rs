use catalog_diagram::render_html::{
    default_variant, json_for_script, sidebar, theme_attr, toolbar, CardEntry, HtmlOptions, VariantFlags,
};
use catalog_diagram::render_svg::Theme;

#[test]
fn script_payload_cannot_break_out() {
    let mut map = serde_json::Map::new();
    map.insert(
        "name".to_string(),
        serde_json::Value::String("</script><img src=x onerror=alert(1)>".to_string()),
    );
    let value = serde_json::Value::Object(map);
    let encoded = json_for_script(&serde_json::to_string(&value).unwrap());
    assert!(!encoded.contains('<'));
    assert!(!encoded.contains('>'));
}

#[test]
fn script_payload_escapes_are_exact() {
    assert_eq!(json_for_script("{\"a\":\"<&>\"}"), "{\"a\":\"\\u003c\\u0026\\u003e\"}");
    assert_eq!(theme_attr(Theme::Auto), "auto");
    assert!(toolbar().starts_with("<div id=\"toolbar\""));
}

fn options(generated_at: Option<String>) -> HtmlOptions {
    HtmlOptions {
        theme: Theme::Auto,
        default_layout: "auto",
        default_hide_system_fields: true,
        generated_at,
        command: String::new(),
    }
}

fn card(name: &str, external: bool, fields: usize) -> CardEntry {
    CardEntry { name: name.to_string(), external, accent: "#123456".to_string(), field_count: fields }
}

#[test]
fn sidebar_lists_cards_by_name_with_counts() {
    let cards = vec![card("b<", false, 2), card("a", false, 1), card("z", true, 0)];
    let variants = vec![
        VariantFlags { layout: "as-designed".to_string(), hide_system_fields: false },
        VariantFlags { layout: "auto".to_string(), hide_system_fields: true },
    ];
    let html = sidebar("T&T", &cards, 1, &variants, &options(Some("Generated x".to_string())));
    assert!(html.starts_with("<aside id=\"sidebar\"><header><h1>T&amp;T</h1><p class=\"counts\">2 tables · 1 relation · 1 external</p></header>"));
    let a = html.find("data-target=\"a\"").unwrap();
    let b = html.find("data-target=\"b&lt;\"").unwrap();
    let z = html.find("data-target=\"z\"").unwrap();
    assert!(a < b && b < z);
    assert!(html.contains("class=\"table-item is-ghost\""));
    assert!(html.contains("<span class=\"count\">ext</span>"));
    assert!(html.contains("<input type=\"checkbox\" id=\"toggle-system\" checked> Hide 4D-internal fields"));
    assert!(html.contains("<input type=\"checkbox\" id=\"toggle-layout\" checked> Automatic layout"));
    assert!(html.ends_with("<p class=\"stamp\">Generated x</p></footer></aside>"));
}

#[test]
fn sidebar_disables_toggles_without_both_variants() {
    let cards = vec![card("a", false, 1)];
    let variants = vec![VariantFlags { layout: "auto".to_string(), hide_system_fields: false }];
    let html = sidebar("T", &cards, 0, &variants, &options(None));
    assert!(html.contains("1 table · 0 relations</p>"));
    assert!(html.contains("<label class=\"toggle is-disabled\"><input type=\"checkbox\" id=\"toggle-system\" disabled>"));
    assert!(html.contains("<label class=\"toggle is-disabled\"><input type=\"checkbox\" id=\"toggle-layout\" disabled>"));
    assert!(html.ends_with("</div></footer></aside>"));
}

fn flags(layout: &str, hide: bool) -> VariantFlags {
    VariantFlags { layout: layout.to_string(), hide_system_fields: hide }
}

#[test]
fn the_requested_variant_is_shown_first() {
    let o = options(None);
    let all = vec![
        flags("as-designed", false),
        flags("as-designed", true),
        flags("auto", false),
        flags("auto", true),
    ];
    assert_eq!(default_variant(&all, &o), 3);
    let without = vec![flags("as-designed", false), flags("auto", false)];
    assert_eq!(default_variant(&without, &o), 0);
    let twice = vec![flags("as-designed", true), flags("auto", true), flags("auto", true)];
    assert_eq!(default_variant(&twice, &o), 1);
}
