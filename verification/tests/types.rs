use catalog_diagram::types::{canonical_code, type_color, type_glyph, type_label, Glyph, UNKNOWN_COLOR};

#[test]
fn known_codes_resolve() {
    assert_eq!(type_label(4), "Longint");
    assert_eq!(type_label(17), "Text");
}

#[test]
fn object_is_not_a_blob() {
    // 21 is `Object`. It becomes a BLOB only in the SQL mapping, which
    // describes storage rather than the type shown to the user.
    assert_eq!(type_label(21), "Object");
    assert_eq!(type_glyph(21), Glyph::Object);
    assert_ne!(type_color(21), type_color(18));
}

#[test]
fn string_codes_resolve_by_length_limit() {
    for code in [10, 14, 17] {
        assert_eq!(type_label(canonical_code(code, Some(40))), "Alpha");
        assert_eq!(type_label(canonical_code(code, None)), "Text");
        // A limit of zero means "no limit", same as the attribute being absent.
        assert_eq!(type_label(canonical_code(code, Some(0))), "Text");
    }
}

#[test]
fn non_string_codes_ignore_the_length_limit() {
    for code in [1, 4, 11, 18, 21, 999] {
        assert_eq!(canonical_code(code, Some(40)), code);
        assert_eq!(canonical_code(code, None), code);
    }
}

#[test]
fn unknown_codes_degrade_instead_of_failing() {
    assert_eq!(type_label(999), "Type 999");
    assert_eq!(type_color(999), UNKNOWN_COLOR);
    assert_eq!(type_glyph(999), Glyph::Unknown);
}

#[test]
fn negative_codes_get_a_signed_label() {
    assert_eq!(type_label(-1), "Type -1");
    assert_eq!(type_glyph(-1), Glyph::Unknown);
}
