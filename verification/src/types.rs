//! 4D field type codes.
//!
//! Kept as data in one place ([`type_row`]) so the table is easy to extend as
//! the format evolves. Unknown codes never fail — they fall back to a generic
//! `Type {n}` label and a neutral colour.

use vstd::prelude::*;

use crate::text::{push_signed, push_str, signed_decimal};

verus! {

/// The small vector icon family drawn for a field type.
#[derive(Debug, Clone, Copy, PartialEq, Eq, Structural)]
pub enum Glyph {
    Boolean,
    Number,
    Date,
    Time,
    Text,
    Blob,
    Image,
    Object,
    Unknown,
}

/// The colour shown for codes that the table does not know.
pub const UNKNOWN_COLOR: &'static str = "#94a3b8";

/// The row of the type table for `code`: `(label, accent colour, glyph)`.
pub open spec fn type_row(code: i64) -> Option<(Seq<char>, Seq<char>, Glyph)> {
    if code == 1 {
        Some(("Boolean"@, "#8b5cf6"@, Glyph::Boolean))
    } else if code == 2 {
        Some(("Byte"@, "#0ea5e9"@, Glyph::Number))
    } else if code == 3 {
        Some(("Integer"@, "#0ea5e9"@, Glyph::Number))
    } else if code == 4 {
        Some(("Longint"@, "#0284c7"@, Glyph::Number))
    } else if code == 5 {
        Some(("Long 64"@, "#0284c7"@, Glyph::Number))
    } else if code == 6 {
        Some(("Real"@, "#06b6d4"@, Glyph::Number))
    } else if code == 7 {
        Some(("Float"@, "#06b6d4"@, Glyph::Number))
    } else if code == 8 {
        Some(("Date"@, "#f59e0b"@, Glyph::Date))
    } else if code == 9 {
        Some(("Time"@, "#f97316"@, Glyph::Time))
    } else if code == 10 {
        Some(("Alpha"@, "#16a34a"@, Glyph::Text))
    } else if code == 11 {
        Some(("Blob"@, "#64748b"@, Glyph::Blob))
    } else if code == 12 {
        Some(("Image"@, "#db2777"@, Glyph::Image))
    } else if code == 14 {
        Some(("Alpha"@, "#16a34a"@, Glyph::Text))
    } else if code == 17 {
        Some(("Text"@, "#15803d"@, Glyph::Text))
    } else if code == 18 {
        Some(("Blob"@, "#64748b"@, Glyph::Blob))
    } else if code == 21 {
        Some(("Object"@, "#4f46e5"@, Glyph::Object))
    } else {
        None
    }
}

/// Executable form of [`type_row`].
pub fn type_entry(code: i64) -> (r: Option<(&'static str, &'static str, Glyph)>)
    ensures
        match (r, type_row(code)) {
            (Some(e), Some(s)) => e.0@ == s.0 && e.1@ == s.1 && e.2 == s.2,
            (None, None) => true,
            _ => false,
        },
{
    if code == 1 {
        Some(("Boolean", "#8b5cf6", Glyph::Boolean))
    } else if code == 2 {
        Some(("Byte", "#0ea5e9", Glyph::Number))
    } else if code == 3 {
        Some(("Integer", "#0ea5e9", Glyph::Number))
    } else if code == 4 {
        Some(("Longint", "#0284c7", Glyph::Number))
    } else if code == 5 {
        Some(("Long 64", "#0284c7", Glyph::Number))
    } else if code == 6 {
        Some(("Real", "#06b6d4", Glyph::Number))
    } else if code == 7 {
        Some(("Float", "#06b6d4", Glyph::Number))
    } else if code == 8 {
        Some(("Date", "#f59e0b", Glyph::Date))
    } else if code == 9 {
        Some(("Time", "#f97316", Glyph::Time))
    } else if code == 10 {
        Some(("Alpha", "#16a34a", Glyph::Text))
    } else if code == 11 {
        Some(("Blob", "#64748b", Glyph::Blob))
    } else if code == 12 {
        Some(("Image", "#db2777", Glyph::Image))
    } else if code == 14 {
        Some(("Alpha", "#16a34a", Glyph::Text))
    } else if code == 17 {
        Some(("Text", "#15803d", Glyph::Text))
    } else if code == 18 {
        Some(("Blob", "#64748b", Glyph::Blob))
    } else if code == 21 {
        Some(("Object", "#4f46e5", Glyph::Object))
    } else {
        None
    }
}

/// 4D stores every string field under one of these codes; the *displayed*
/// type depends on whether the field carries a length limit.
pub open spec fn is_string_code(code: i64) -> bool {
    code == 10 || code == 14 || code == 17
}

/// The code whose row describes how 4D presents a field with raw `code` and
/// length limit `limiting_length`.
pub open spec fn spec_canonical_code(code: i64, limiting_length: Option<i64>) -> i64 {
    if !is_string_code(code) {
        code
    } else {
        match limiting_length {
            Some(len) if len > 0 => 10,
            _ => 17,
        }
    }
}

/// Collapses a raw code plus its length limit into the code whose row in the
/// type table describes how 4D actually presents the field: string codes show
/// as `Alpha` (10) with a positive limit and `Text` (17) without one; every
/// other code is kept.
pub fn canonical_code(code: i64, limiting_length: Option<i64>) -> (r: i64)
    ensures
        r == spec_canonical_code(code, limiting_length),
{
    if !(code == 10 || code == 14 || code == 17) {
        return code;
    }
    match limiting_length {
        Some(len) if len > 0 => 10,
        _ => 17,
    }
}

/// The label shown for `code`.
pub open spec fn spec_type_label(code: i64) -> Seq<char> {
    match type_row(code) {
        Some(row) => row.0,
        None => "Type "@ + signed_decimal(code as int),
    }
}

/// The colour shown for `code`.
pub open spec fn spec_type_color(code: i64) -> Seq<char> {
    match type_row(code) {
        Some(row) => row.1,
        None => UNKNOWN_COLOR@,
    }
}

/// The glyph shown for `code`.
pub open spec fn spec_type_glyph(code: i64) -> Glyph {
    match type_row(code) {
        Some(row) => row.2,
        None => Glyph::Unknown,
    }
}

/// The label for `code`, or `Type {code}` when the code is unknown.
pub fn type_label(code: i64) -> (r: String)
    ensures
        r@ == spec_type_label(code),
{
    match type_entry(code) {
        Some(entry) => String::from_str(entry.0),
        None => {
            let mut out = String::new();
            push_str(&mut out, "Type ");
            push_signed(&mut out, code);
            out
        },
    }
}

/// The accent colour for `code`, or [`UNKNOWN_COLOR`] when the code is unknown.
pub fn type_color(code: i64) -> (r: &'static str)
    ensures
        r@ == spec_type_color(code),
{
    match type_entry(code) {
        Some(entry) => entry.1,
        None => UNKNOWN_COLOR,
    }
}

/// The glyph family for `code`, or [`Glyph::Unknown`] when the code is unknown.
pub fn type_glyph(code: i64) -> (r: Glyph)
    ensures
        r == spec_type_glyph(code),
{
    match type_entry(code) {
        Some(entry) => entry.2,
        None => Glyph::Unknown,
    }
}

/// The labels 4D gives its field type codes: 1 Boolean, 2 Byte, 3 Integer,
/// 4 Longint, 5 Long 64, 6 Real, 7 Float, 8 Date, 9 Time, 10 and 14 Alpha,
/// 11 and 18 Blob, 12 Image, 17 Text, 21 Object; any other code is shown as
/// `Type {code}`.
pub proof fn type_labels_follow_4d(code: i64)
    ensures
        code == 1 ==> spec_type_label(code) == "Boolean"@,
        code == 2 ==> spec_type_label(code) == "Byte"@,
        code == 3 ==> spec_type_label(code) == "Integer"@,
        code == 4 ==> spec_type_label(code) == "Longint"@,
        code == 5 ==> spec_type_label(code) == "Long 64"@,
        code == 6 ==> spec_type_label(code) == "Real"@,
        code == 7 ==> spec_type_label(code) == "Float"@,
        code == 8 ==> spec_type_label(code) == "Date"@,
        code == 9 ==> spec_type_label(code) == "Time"@,
        code == 10 || code == 14 ==> spec_type_label(code) == "Alpha"@,
        code == 11 || code == 18 ==> spec_type_label(code) == "Blob"@,
        code == 12 ==> spec_type_label(code) == "Image"@,
        code == 17 ==> spec_type_label(code) == "Text"@,
        code == 21 ==> spec_type_label(code) == "Object"@,
        !(1 <= code <= 12 || code == 14 || code == 17 || code == 18 || code == 21) ==> spec_type_label(code)
            == "Type "@ + signed_decimal(code as int),
{
}

/// A code's glyph and its label agree: the date, time, boolean, image and
/// object glyphs are drawn exactly for the codes labelled `Date`, `Time`,
/// `Boolean`, `Image` and `Object`, the text glyph for `Alpha` and `Text`,
/// the blob glyph for `Blob`, and the number glyph for the numeric labels.
pub proof fn type_glyphs_match_labels(code: i64)
    ensures
        spec_type_glyph(code) == Glyph::Date <==> spec_type_label(code) == "Date"@,
        spec_type_glyph(code) == Glyph::Time <==> spec_type_label(code) == "Time"@,
        spec_type_glyph(code) == Glyph::Boolean <==> spec_type_label(code) == "Boolean"@,
        spec_type_glyph(code) == Glyph::Image <==> spec_type_label(code) == "Image"@,
        spec_type_glyph(code) == Glyph::Object <==> spec_type_label(code) == "Object"@,
        spec_type_glyph(code) == Glyph::Blob <==> spec_type_label(code) == "Blob"@,
        spec_type_glyph(code) == Glyph::Text <==> (spec_type_label(code) == "Alpha"@ || spec_type_label(code)
            == "Text"@),
        spec_type_glyph(code) == Glyph::Number <==> (spec_type_label(code) == "Byte"@ || spec_type_label(code)
            == "Integer"@ || spec_type_label(code) == "Longint"@ || spec_type_label(code) == "Long 64"@
            || spec_type_label(code) == "Real"@ || spec_type_label(code) == "Float"@),
{
    reveal_strlit("Boolean");
    reveal_strlit("Byte");
    reveal_strlit("Integer");
    reveal_strlit("Longint");
    reveal_strlit("Long 64");
    reveal_strlit("Real");
    reveal_strlit("Float");
    reveal_strlit("Date");
    reveal_strlit("Time");
    reveal_strlit("Alpha");
    reveal_strlit("Blob");
    reveal_strlit("Image");
    reveal_strlit("Text");
    reveal_strlit("Object");
    reveal_strlit("Type ");
    assert("Boolean"@[0] == 'B' && "Boolean"@[1] == 'o' && "Boolean"@[3] == 'l');
    assert("Byte"@[0] == 'B' && "Byte"@[1] == 'y' && "Byte"@[3] == 'e');
    assert("Integer"@[0] == 'I' && "Integer"@[1] == 'n' && "Integer"@[3] == 'e');
    assert("Longint"@[0] == 'L' && "Longint"@[1] == 'o' && "Longint"@[3] == 'g');
    assert("Long 64"@[0] == 'L' && "Long 64"@[1] == 'o' && "Long 64"@[3] == 'g');
    assert("Real"@[0] == 'R' && "Real"@[1] == 'e' && "Real"@[3] == 'l');
    assert("Float"@[0] == 'F' && "Float"@[1] == 'l' && "Float"@[3] == 'a');
    assert("Date"@[0] == 'D' && "Date"@[1] == 'a' && "Date"@[3] == 'e');
    assert("Time"@[0] == 'T' && "Time"@[1] == 'i' && "Time"@[3] == 'e');
    assert("Alpha"@[0] == 'A' && "Alpha"@[1] == 'l' && "Alpha"@[3] == 'h');
    assert("Blob"@[0] == 'B' && "Blob"@[1] == 'l' && "Blob"@[3] == 'b');
    assert("Image"@[0] == 'I' && "Image"@[1] == 'm' && "Image"@[3] == 'g');
    assert("Text"@[0] == 'T' && "Text"@[1] == 'e' && "Text"@[3] == 't');
    assert("Object"@[0] == 'O' && "Object"@[1] == 'b' && "Object"@[3] == 'e');
    if type_row(code) is None {
        let l = spec_type_label(code);
        assert(l[0] == 'T' && l[1] == 'y');
    }
}

/// Every string code resolves by its length limit alone: a positive limit
/// shows `Alpha`, no limit (or a limit of zero or less) shows `Text`; any
/// other code is left as it is.
pub proof fn string_codes_resolve_by_length_limit(code: i64, limiting_length: Option<i64>)
    ensures
        is_string_code(code) ==> spec_type_label(spec_canonical_code(code, limiting_length))
            == (if limiting_length matches Some(len) && len > 0 { "Alpha"@ } else { "Text"@ }),
        !is_string_code(code) ==> spec_canonical_code(code, limiting_length) == code,
{
}

/// Canonicalising twice is the same as canonicalising once.
pub proof fn canonical_code_is_idempotent(code: i64, limiting_length: Option<i64>)
    ensures
        spec_canonical_code(spec_canonical_code(code, limiting_length), limiting_length)
            == spec_canonical_code(code, limiting_length),
{
}

} // verus!
