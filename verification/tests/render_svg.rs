use catalog_diagram::render_svg::{
    card_tooltip, color_key, defs, edge_colors, esc_attr, esc_text, icon_strokes, palette, shared_css,
    static_css, Theme,
};

#[test]
fn text_escaping_neutralises_markup() {
    let out = esc_text("<script>alert(1)</script>");
    assert!(!out.contains('<'));
    assert!(!out.contains('>'));
}

#[test]
fn attribute_escaping_neutralises_quote_breakouts() {
    let out = esc_attr(r#""><img src=x onerror=alert(1)>"#);
    assert!(!out.contains('"'));
    assert!(!out.contains('<'));
    assert!(!out.contains('>'));
}

#[test]
fn control_characters_are_dropped() {
    assert_eq!(esc_text("a\u{0}b"), "ab");
}

#[test]
fn escapes_are_exact() {
    assert_eq!(esc_text("a&b<c>\"'\t\n"), "a&amp;b&lt;c&gt;\"'\t\n");
    assert_eq!(esc_attr("a&b<c>\"'\u{1f}"), "a&amp;b&lt;c&gt;&quot;&#39;");
}

#[test]
fn themes_and_palettes() {
    assert_eq!(Theme::parse("dark"), Some(Theme::Dark));
    assert_eq!(Theme::parse("light"), Some(Theme::Light));
    assert_eq!(Theme::parse("auto"), Some(Theme::Auto));
    assert_eq!(Theme::parse("Dark"), None);
    assert!(palette(Theme::Dark).dark);
    assert_eq!(palette(Theme::Dark).bg, "#0b1020");
    assert_eq!(palette(Theme::Auto).bg, "#f6f7fb");
    assert!(!palette(Theme::Light).dark);
}

#[test]
fn colour_keys_and_markers() {
    assert_eq!(color_key("#AbC123"), "abc123");
    assert_eq!(color_key("rgb(1, 2, 3)"), "rgb123");
    let colors = edge_colors(&vec!["#b".to_string(), "#a".to_string(), "#b".to_string()]);
    assert_eq!(colors, vec!["#a".to_string(), "#b".to_string()]);
    let d = defs(&colors);
    assert!(d.starts_with("<defs><filter id=\"cardShadow\""));
    assert!(d.contains("<marker id=\"mN-a\""));
    assert!(d.contains("<marker id=\"m1-b\""));
    assert!(d.ends_with("</marker></defs>"));
}

#[test]
fn stylesheets_print_sizes_compactly() {
    let shared = shared_css();
    assert!(shared.contains(".card-title{font-size:13px;font-weight:700}"));
    assert!(shared.contains(".edge-label{font-size:9.5px}"));
    let css = static_css(&palette(Theme::Dark));
    assert!(css.starts_with(&shared));
    assert!(css.contains(".bg{fill:#0b1020}"));
    assert!(css.ends_with(".row-more-close{display:none}"));
}

#[test]
fn tooltips_and_icons() {
    assert_eq!(
        card_tooltip("T", &Some("ID".to_string()), 3, 1, 2),
        "T · primary key: ID · 3 fields · 1 hidden · 2 relations"
    );
    assert_eq!(card_tooltip("T", &None, 1, 0, 0), "T · 1 fields · 0 relations");
    assert_eq!(icon_strokes("boolean"), "M2 5.4L4.1 7.6L8.2 2.9");
    assert!(icon_strokes("object").starts_with("M5 1.4A3.6"));
}

#[test]
fn noncharacters_are_dropped() {
    assert_eq!(esc_text("a\u{FFFE}b\u{FFFF}c\u{FFFD}"), "abc\u{FFFD}");
    assert_eq!(esc_attr("\u{FFFF}x\u{10000}"), "x\u{10000}");
}

#[test]
fn colour_keys_are_lowercase_alphanumerics_and_stable() {
    let key = color_key("#FF993F");
    assert_eq!(key, "ff993f");
    assert_eq!(color_key(&key), key);
    assert_eq!(color_key("#ff993f"), key);
    let odd = color_key("Ünï-Çode #Z9_");
    assert_eq!(odd, "nodez9");
    assert!(odd.chars().all(|c| c.is_ascii_digit() || c.is_ascii_lowercase()));
}
