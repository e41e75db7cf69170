//! XML → [`Catalog`].
//!
//! Parsing is deliberately permissive: unknown elements and attributes are
//! ignored, missing optional data yields defaults, and only a genuinely
//! not-well-formed document is a hard failure. External entities and DTDs are
//! never resolved, so a document carrying
//! `<!DOCTYPE base SYSTEM "http://www.4d.com/dtd/2007/base.dtd">` parses
//! identically with or without network access.

use vstd::prelude::*;

use crate::error::{AppError, XmlPosition};
use crate::inspect::{name_order, name_order_sorts, single_keys};
use crate::model::{first_table_named, Catalog, Color, CoordinateText, Field, Index, Relation, Table};
use crate::order::{key_views, permutation_lists_every_position, sorted_positions, text_lt, text_order_is_total};
use crate::select::has_field;
use crate::xml::{
    attr_value, child_named, children_named, children_named_in_range, element_children,
    element_children_in_range, is_child_named, nodes_view, root_element, xml_document, XmlNode,
    XmlNodeView,
};
use crate::text::{
    is_lit, parse_i64, parse_i64_chars, trim, trimmed, views, lemma_views_push,
    chars_of, debug_quoted, debug_text, find_chars, find_text, push_str,
    string_of, trim_start, trimmed_start,
};

verus! {

/// What `String::from_utf8_lossy` makes of `bytes`: the UTF-8 text, with each
/// invalid sequence replaced by U+FFFD.
pub uninterp spec fn utf8_lossy(bytes: Seq<u8>) -> Seq<char>;

/// `String::from_utf8_lossy`: decodes UTF-8, replacing invalid sequences.
/// The result is named after the bytes alone.
#[verifier::external_body]
fn lossy_text(bytes: &[u8]) -> (r: String)
    ensures
        r@ == utf8_lossy(bytes@),
{
    String::from_utf8_lossy(bytes).into_owned()
}

/// The value of the `encoding` pseudo-attribute of the XML declaration in
/// `head` (the lossily decoded first bytes of the document).
pub open spec fn spec_declared_in(head: Seq<char>) -> Option<Seq<char>> {
    match find_text(head, "?>"@) {
        None => None,
        Some(decl_end) => {
            let decl = head.take(decl_end);
            match find_text(decl, "encoding"@) {
                None => None,
                Some(at) => {
                    let rest = trim_start(decl.skip(at + 8));
                    if rest.len() == 0 || rest[0] != '=' {
                        None
                    } else {
                        let rest = trim_start(rest.skip(1));
                        if rest.len() == 0 || (rest[0] != '"' && rest[0] != '\'') {
                            None
                        } else {
                            let quote = rest[0];
                            let rest = rest.skip(1);
                            match crate::text::position_in(rest, quote) {
                                None => None,
                                Some(end) => Some(rest.take(end)),
                            }
                        }
                    }
                },
            }
        },
    }
}

/// The encoding declared in the XML prolog, read from the first 256 bytes.
pub open spec fn spec_declared_encoding(bytes: Seq<u8>) -> Option<Seq<char>> {
    spec_declared_in(utf8_lossy(bytes.take(if bytes.len() < 256 { bytes.len() as int } else { 256 })))
}

/// Extract `encoding="…"` from the XML declaration without a full parse.
pub fn declared_encoding(bytes: &[u8]) -> (r: Option<String>)
    ensures
        match (r, spec_declared_encoding(bytes@)) {
            (Some(s), Some(t)) => s@ == t,
            (None, None) => true,
            _ => false,
        },
{
    let n = if bytes.len() < 256 {
        bytes.len()
    } else {
        256
    };
    let mut head_bytes: Vec<u8> = Vec::new();
    let mut i: usize = 0;
    while i < n
        invariant
            i <= n <= bytes@.len(),
            head_bytes@ == bytes@.take(i as int),
        decreases n - i,
    {
        head_bytes.push(bytes[i]);
        assert(bytes@.take(i as int + 1) == bytes@.take(i as int).push(bytes@[i as int]));
        i = i + 1;
    }
    let head_text = lossy_text(head_bytes.as_slice());
    let head = chars_of(head_text.as_str());
    let close = chars_of("?>");
    let decl_end = match find_chars(&head, &close) {
        Some(d) => d,
        None => return None,
    };
    let mut decl: Vec<char> = Vec::new();
    let mut j: usize = 0;
    while j < decl_end
        invariant
            j <= decl_end <= head@.len(),
            decl@ == head@.take(j as int),
        decreases decl_end - j,
    {
        decl.push(head[j]);
        assert(head@.take(j as int + 1) == head@.take(j as int).push(head@[j as int]));
        j = j + 1;
    }
    let key = chars_of("encoding");
    proof {
        reveal_strlit("encoding");
    }
    let at = match find_chars(&decl, &key) {
        Some(a) => a,
        None => return None,
    };
    let mut after: Vec<char> = Vec::new();
    let mut k: usize = at + 8;
    while k < decl.len()
        invariant
            at + 8 <= k <= decl@.len() || (k == at + 8 && k >= decl@.len()),
            after@ == decl@.subrange(at + 8, k as int),
        decreases decl@.len() - k,
    {
        after.push(decl[k]);
        assert(decl@.subrange(at + 8, k as int + 1) == decl@.subrange(at + 8, k as int).push(decl@[k as int]));
        k = k + 1;
    }
    assert(after@ == decl@.skip(at + 8));
    let rest = trimmed_start(&after);
    if rest.len() == 0 || rest[0] != '=' {
        return None;
    }
    let mut tail: Vec<char> = Vec::new();
    let mut m: usize = 1;
    while m < rest.len()
        invariant
            1 <= m <= rest@.len(),
            tail@ == rest@.subrange(1, m as int),
        decreases rest@.len() - m,
    {
        tail.push(rest[m]);
        assert(rest@.subrange(1, m as int + 1) == rest@.subrange(1, m as int).push(rest@[m as int]));
        m = m + 1;
    }
    assert(tail@ == rest@.skip(1));
    let value = trimmed_start(&tail);
    if value.len() == 0 || (value[0] != '"' && value[0] != '\'') {
        return None;
    }
    let quote = value[0];
    let mut body: Vec<char> = Vec::new();
    let mut q: usize = 1;
    while q < value.len()
        invariant
            1 <= q <= value@.len(),
            body@ == value@.subrange(1, q as int),
        decreases value@.len() - q,
    {
        body.push(value[q]);
        assert(value@.subrange(1, q as int + 1) == value@.subrange(1, q as int).push(value@[q as int]));
        q = q + 1;
    }
    assert(body@ == value@.skip(1));
    proof {
        crate::text::position_in_meaning(body@, quote);
    }
    let end = match crate::text::first_char_position(&body, quote) {
        Some(e) => e,
        None => return None,
    };
    let result = crate::text::string_range(&body, 0, end);
    assert(result@ == body@.take(end as int));
    Some(result)
}


/// What `encoding_rs` makes of `bytes` under the encoding that `label`
/// names: the decoded text, the name of the encoding actually used (a byte
/// order mark takes precedence over the label) and whether malformed
/// sequences were replaced — or `None` when `label` names no encoding.
pub uninterp spec fn decoded_with(label: Seq<char>, bytes: Seq<u8>) -> Option<(Seq<char>, Seq<char>, bool)>;

/// `encoding_rs::Encoding::for_label` followed by `Encoding::decode`: looks
/// the label up as the Encoding Standard defines labels (ASCII
/// case-insensitive, surrounding whitespace ignored) and decodes the whole
/// input with replacement. The outcome is named after the label and the
/// bytes; the contract adds only that `utf-8`, `utf-16le` and `utf-16be` are
/// labels, as the crate documents. Decoding panics only when the output
/// buffer size overflows `usize`, which the length bound rules out.
#[verifier::external_body]
fn decode_with_label(label: &str, bytes: &[u8]) -> (r: Option<(String, String, bool)>)
    requires
        bytes@.len() <= usize::MAX / 4,
    ensures
        match r {
            Some(d) => decoded_with(label@, bytes@) == Some((d.0@, d.1@, d.2)),
            None => decoded_with(label@, bytes@) is None,
        },
        label@ == "utf-8"@ || label@ == "utf-16le"@ || label@ == "utf-16be"@ ==> r is Some,
{
    match encoding_rs::Encoding::for_label(label.as_bytes()) {
        Some(encoding) => {
            let (text, used, had_errors) = encoding.decode(bytes);
            Some((text.into_owned(), used.name().to_string(), had_errors))
        },
        None => None,
    }
}

/// The warning for replaced sequences after decoding.
pub open spec fn replaced_warning(d: (Seq<char>, Seq<char>, bool)) -> Seq<Seq<char>> {
    if d.2 {
        seq!["input contained byte sequences invalid for "@ + d.1 + "; they were replaced"@]
    } else {
        seq![]
    }
}

/// The text of `bytes` and the warnings decoding produced: a UTF-8 byte order
/// mark, then a UTF-16 one, then the encoding the prolog declares, then UTF-8.
pub open spec fn spec_decode(bytes: Seq<u8>) -> (Seq<char>, Seq<Seq<char>>) {
    if bytes.len() >= 3 && bytes[0] == 0xEF && bytes[1] == 0xBB && bytes[2] == 0xBF {
        let d = decoded_with("utf-8"@, bytes.skip(3)).unwrap();
        (
            d.0,
            if d.2 {
                seq!["input contained invalid UTF-8 sequences; they were replaced"@]
            } else {
                seq![]
            },
        )
    } else if bytes.len() >= 2 && ((bytes[0] == 0xFF && bytes[1] == 0xFE) || (bytes[0] == 0xFE
        && bytes[1] == 0xFF)) {
        let label = if bytes[0] == 0xFF {
            "utf-16le"@
        } else {
            "utf-16be"@
        };
        (decoded_with(label, bytes.skip(2)).unwrap().0, seq![])
    } else {
        match spec_declared_encoding(bytes) {
            Some(l) => match decoded_with(l, bytes) {
                Some(d) => (d.0, replaced_warning(d)),
                None => {
                    let d = decoded_with("utf-8"@, bytes).unwrap();
                    (
                        d.0,
                        seq!["unknown declared encoding "@ + debug_quoted(l) + "; decoded as UTF-8"@]
                            + replaced_warning(d),
                    )
                },
            },
            None => {
                let d = decoded_with("utf-8"@, bytes).unwrap();
                (d.0, replaced_warning(d))
            },
        }
    }
}

fn rest_of(bytes: &[u8], from: usize) -> (r: Vec<u8>)
    requires
        from <= bytes@.len(),
    ensures
        r@ == bytes@.skip(from as int),
{
    let mut out: Vec<u8> = Vec::new();
    let mut i: usize = from;
    while i < bytes.len()
        invariant
            from <= i <= bytes@.len(),
            out@ == bytes@.subrange(from as int, i as int),
        decreases bytes@.len() - i,
    {
        out.push(bytes[i]);
        assert(bytes@.subrange(from as int, i as int + 1) == bytes@.subrange(from as int, i as int).push(bytes@[i as int]));
        i = i + 1;
    }
    out
}

fn replaced_warnings(d: &(String, String, bool)) -> (r: Vec<String>)
    ensures
        crate::text::views(r@) == replaced_warning((d.0@, d.1@, d.2)),
{
    let mut out: Vec<String> = Vec::new();
    if d.2 {
        let mut m = String::new();
        push_str(&mut m, "input contained byte sequences invalid for ");
        push_str(&mut m, d.1.as_str());
        push_str(&mut m, "; they were replaced");
        proof {
            crate::text::lemma_views_push(out@, m);
        }
        out.push(m);
        assert(crate::text::views(out@) =~= replaced_warning((d.0@, d.1@, d.2)));
    } else {
        assert(crate::text::views(out@) =~= replaced_warning((d.0@, d.1@, d.2)));
    }
    out
}

/// Decode raw bytes to text, honouring a byte order mark or the encoding
/// declared in the XML prolog, and report what had to be replaced. Older 4D
/// exports are sometimes Windows-1252.
pub fn decode(bytes: &[u8]) -> (r: (String, Vec<String>))
    requires
        bytes@.len() <= usize::MAX / 4,
    ensures
        (r.0@, crate::text::views(r.1@)) == spec_decode(bytes@),
{
    proof {
        reveal_strlit("utf-8");
        reveal_strlit("utf-16le");
        reveal_strlit("utf-16be");
    }
    let mut warnings: Vec<String> = Vec::new();
    if bytes.len() >= 3 && bytes[0] == 0xEF && bytes[1] == 0xBB && bytes[2] == 0xBF {
        let rest = rest_of(bytes, 3);
        let d = match decode_with_label("utf-8", rest.as_slice()) {
            Some(d) => d,
            None => (String::new(), String::new(), false),
        };
        if d.2 {
            let m = String::from_str("input contained invalid UTF-8 sequences; they were replaced");
            proof {
                crate::text::lemma_views_push(warnings@, m);
            }
            warnings.push(m);
        }
        assert(crate::text::views(warnings@) =~= (if d.2 {
            seq!["input contained invalid UTF-8 sequences; they were replaced"@]
        } else {
            Seq::<Seq<char>>::empty()
        }));
        return (d.0, warnings);
    }
    if bytes.len() >= 2 && ((bytes[0] == 0xFF && bytes[1] == 0xFE) || (bytes[0] == 0xFE && bytes[1] == 0xFF)) {
        let label = if bytes[0] == 0xFF {
            "utf-16le"
        } else {
            "utf-16be"
        };
        let rest = rest_of(bytes, 2);
        let d = match decode_with_label(label, rest.as_slice()) {
            Some(d) => d,
            None => (String::new(), String::new(), false),
        };
        assert(crate::text::views(warnings@) =~= Seq::<Seq<char>>::empty());
        return (d.0, warnings);
    }
    let declared = declared_encoding(bytes);
    let d = match &declared {
        Some(label) => match decode_with_label(label.as_str(), bytes) {
            Some(d) => d,
            None => {
                let mut m = String::new();
                push_str(&mut m, "unknown declared encoding ");
                let quoted = debug_text(label.as_str());
                push_str(&mut m, quoted.as_str());
                push_str(&mut m, "; decoded as UTF-8");
                proof {
                    crate::text::lemma_views_push(warnings@, m);
                }
                warnings.push(m);
                match decode_with_label("utf-8", bytes) {
                    Some(d) => d,
                    None => (String::new(), String::new(), false),
                }
            },
        },
        None => match decode_with_label("utf-8", bytes) {
            Some(d) => d,
            None => (String::new(), String::new(), false),
        },
    };
    let more = replaced_warnings(&d);
    let ghost before = crate::text::views(warnings@);
    let mut i: usize = 0;
    while i < more.len()
        invariant
            i <= more@.len(),
            crate::text::views(warnings@) == before + crate::text::views(more@).take(i as int),
        decreases more@.len() - i,
    {
        proof {
            crate::text::lemma_views_push(warnings@, more@[i as int]);
            assert(crate::text::views(more@).take(i as int + 1) == crate::text::views(more@).take(i as int).push(more@[i as int]@));
        }
        warnings.push(more[i].clone());
        i = i + 1;
    }
    assert(crate::text::views(more@).take(more@.len() as int) == crate::text::views(more@));
    (d.0, warnings)
}


/// A string option as text.
pub open spec fn opt_view(o: Option<String>) -> Option<Seq<char>> {
    match o {
        Some(s) => Some(s@),
        None => None,
    }
}

/// The attribute `name` of node `i`.
pub open spec fn nattr(ns: Seq<XmlNodeView>, i: int, name: Seq<char>) -> Option<Seq<char>> {
    attr_value(ns[i], name)
}

/// The attribute `name` of node `p`, when there is such a node.
pub open spec fn opt_attr(ns: Seq<XmlNodeView>, p: Option<int>, name: Seq<char>) -> Option<Seq<char>> {
    match p {
        Some(i) => nattr(ns, i, name),
        None => None,
    }
}

/// A boolean attribute value: `true`/`1`/`yes` or `false`/`0`/`no` once
/// trimmed; anything else is no value.
pub open spec fn bool_text(v: Seq<char>) -> Option<bool> {
    let t = trim(v);
    if t == "true"@ || t == "1"@ || t == "yes"@ {
        Some(true)
    } else if t == "false"@ || t == "0"@ || t == "no"@ {
        Some(false)
    } else {
        None
    }
}

/// The boolean attribute `name` of node `p`, when there is such a node.
pub open spec fn opt_bool(ns: Seq<XmlNodeView>, p: Option<int>, name: Seq<char>) -> Option<bool> {
    match opt_attr(ns, p, name) {
        Some(v) => bool_text(v),
        None => None,
    }
}

/// The integer attribute `name` of node `p`, when there is such a node.
pub open spec fn opt_i64(ns: Seq<XmlNodeView>, p: Option<int>, name: Seq<char>) -> Option<i64> {
    match opt_attr(ns, p, name) {
        Some(v) => parse_i64(trim(v)),
        None => None,
    }
}

/// The first element child `name` of node `p`, when there is such a node.
pub open spec fn opt_child(ns: Seq<XmlNodeView>, p: Option<int>, name: Seq<char>) -> Option<int> {
    match p {
        Some(i) => child_named(ns, i, name),
        None => None,
    }
}

/// A colour channel: the attribute clamped to `0..=255`, or the default.
pub open spec fn channel(ns: Seq<XmlNodeView>, c: int, name: Seq<char>, default: u8) -> u8 {
    match opt_i64(ns, Some(c), name) {
        Some(v) => if v < 0 {
            0
        } else if v > 255 {
            255
        } else {
            v as u8
        },
        None => default,
    }
}

/// The colour of the `<color>` child of node `p`.
pub open spec fn spec_color(ns: Seq<XmlNodeView>, p: Option<int>) -> Option<Color> {
    match opt_child(ns, p, "color"@) {
        None => None,
        Some(c) => Some(
            Color {
                r: channel(ns, c, "red"@, 0),
                g: channel(ns, c, "green"@, 0),
                b: channel(ns, c, "blue"@, 0),
                a: channel(ns, c, "alpha"@, 255),
            },
        ),
    }
}

/// The value of attribute `name` of node `i`.
pub fn attr(nodes: &Vec<XmlNode>, i: usize, name: &str) -> (r: Option<String>)
    requires
        i < nodes@.len(),
    ensures
        opt_view(r) == nattr(nodes_view(nodes@), i as int, name@),
{
    assert(nodes_view(nodes@)[i as int] == nodes@[i as int]@);
    match crate::xml::attribute(&nodes[i], name) {
        Some(v) => Some(v.clone()),
        None => None,
    }
}

/// The first element child of node `i` called `name`.
pub fn child(nodes: &Vec<XmlNode>, i: usize, name: &str) -> (r: Option<usize>)
    ensures
        match child_named(nodes_view(nodes@), i as int, name@) {
            Some(c) => r matches Some(x) && x as int == c,
            None => r is None,
        },
{
    crate::xml::first_child_named(nodes, i, name)
}

/// Interprets a boolean attribute value.
fn bool_of(v: &String) -> (r: Option<bool>)
    ensures
        r == bool_text(v@),
{
    let t = trimmed(v.as_str());
    let ts = string_of(t.as_slice());
    if is_lit(ts.as_str(), "true") || is_lit(ts.as_str(), "1") || is_lit(ts.as_str(), "yes") {
        Some(true)
    } else if is_lit(ts.as_str(), "false") || is_lit(ts.as_str(), "0") || is_lit(ts.as_str(), "no") {
        Some(false)
    } else {
        None
    }
}

/// The boolean attribute `name` of node `i`.
pub fn attr_bool(nodes: &Vec<XmlNode>, i: usize, name: &str) -> (r: Option<bool>)
    requires
        i < nodes@.len(),
    ensures
        r == opt_bool(nodes_view(nodes@), Some(i as int), name@),
{
    match attr(nodes, i, name) {
        Some(v) => bool_of(&v),
        None => None,
    }
}

/// The integer attribute `name` of node `i`.
pub fn attr_i64(nodes: &Vec<XmlNode>, i: usize, name: &str) -> (r: Option<i64>)
    requires
        i < nodes@.len(),
    ensures
        r == opt_i64(nodes_view(nodes@), Some(i as int), name@),
{
    match attr(nodes, i, name) {
        Some(v) => parse_i64_chars(&trimmed(v.as_str())),
        None => None,
    }
}

fn channel_of(nodes: &Vec<XmlNode>, c: usize, name: &str, default: u8) -> (r: u8)
    requires
        c < nodes@.len(),
    ensures
        r == channel(nodes_view(nodes@), c as int, name@, default),
{
    match attr_i64(nodes, c, name) {
        Some(v) => if v < 0 {
            0
        } else if v > 255 {
            255
        } else {
            v as u8
        },
        None => default,
    }
}

/// The colour held by the `<color>` child of node `i`.
pub fn parse_color(nodes: &Vec<XmlNode>, i: usize) -> (r: Option<Color>)
    ensures
        r == spec_color(nodes_view(nodes@), Some(i as int)),
{
    let c = match child(nodes, i, "color") {
        Some(c) => c,
        None => return None,
    };
    proof {
        children_named_in_range(nodes_view(nodes@), i as int, "color"@, nodes@.len() as int);
    }
    Some(Color {
        r: channel_of(nodes, c, "red", 0),
        g: channel_of(nodes, c, "green", 0),
        b: channel_of(nodes, c, "blue", 0),
        a: channel_of(nodes, c, "alpha", 255),
    })
}


/// Whether node `i` carries a non-empty `name` attribute.
pub open spec fn is_named(ns: Seq<XmlNodeView>, i: int) -> bool {
    nattr(ns, i, "name"@) matches Some(n) && n.len() > 0
}

/// The trimmed, non-empty text of the `<tip>` node, if any.
pub open spec fn spec_tip(ns: Seq<XmlNodeView>, tip: Option<int>) -> Option<Seq<char>> {
    match tip {
        Some(t) => match ns[t].text {
            Some(x) => if trim(x).len() == 0 {
                None
            } else {
                Some(trim(x))
            },
            None => None,
        },
        None => None,
    }
}

/// Whether node `i` has an `<index_ref>` child with a `uuid`.
pub open spec fn has_index_ref(ns: Seq<XmlNodeView>, i: int) -> bool {
    exists|k: int|
        0 <= k < ns.len() && #[trigger] is_child_named(ns, i, k, "index_ref"@) && nattr(ns, k, "uuid"@)
            is Some
}

/// Every property of a field read from its `<field>` node `i` (all but the
/// primary-key mark, which the table decides).
pub open spec fn field_matches(f: Field, ns: Seq<XmlNodeView>, i: int) -> bool {
    let extra = child_named(ns, i, "field_extra"@);
    let info = opt_child(ns, extra, "editor_field_info"@);
    &&& Some(f.name@) == nattr(ns, i, "name"@)
    &&& f.uuid@ == nattr(ns, i, "uuid"@).unwrap_or(Seq::empty())
    &&& f.id == opt_i64(ns, Some(i), "id"@)
    &&& f.type_code == opt_i64(ns, Some(i), "type"@).unwrap_or(-1i64)
    &&& f.unique == opt_bool(ns, Some(i), "unique"@).unwrap_or(false)
    &&& f.autosequence == opt_bool(ns, Some(i), "autosequence"@).unwrap_or(false)
    &&& f.never_null == opt_bool(ns, Some(i), "never_null"@).unwrap_or(false)
    &&& f.limiting_length == opt_i64(ns, Some(i), "limiting_length"@)
    &&& f.mandatory == opt_bool(ns, extra, "mandatory"@).unwrap_or(false)
    &&& f.modifiable == opt_bool(ns, extra, "modifiable"@).unwrap_or(true)
    &&& f.hidden == !opt_bool(ns, extra, "visible"@).unwrap_or(true)
    &&& opt_view(f.tip) == spec_tip(ns, opt_child(ns, extra, "tip"@))
    &&& f.color == spec_color(ns, info)
    &&& f.indexed == has_index_ref(ns, i)
}

/// The warning for a nameless `<field>` in `table`.
pub open spec fn field_warning(table: Seq<char>) -> Seq<char> {
    "skipped a <field> with no name attribute in table "@ + debug_quoted(table)
}

fn opt_attr_bool(nodes: &Vec<XmlNode>, p: Option<usize>, name: &str) -> (r: Option<bool>)
    requires
        p matches Some(i) ==> i < nodes@.len(),
    ensures
        r == opt_bool(nodes_view(nodes@), match p { Some(i) => Some(i as int), None => None }, name@),
{
    match p {
        Some(i) => attr_bool(nodes, i, name),
        None => None,
    }
}

fn opt_child_of(nodes: &Vec<XmlNode>, p: Option<usize>, name: &str) -> (r: Option<usize>)
    ensures
        match opt_child(nodes_view(nodes@), match p { Some(i) => Some(i as int), None => None }, name@) {
            Some(c) => r matches Some(x) && x as int == c && x < nodes@.len(),
            None => r is None,
        },
{
    match p {
        Some(i) => {
            proof {
                children_named_in_range(nodes_view(nodes@), i as int, name@, nodes@.len() as int);
            }
            child(nodes, i, name)
        },
        None => None,
    }
}

fn has_index_ref_exec(nodes: &Vec<XmlNode>, i: usize) -> (r: bool)
    ensures
        r == has_index_ref(nodes_view(nodes@), i as int),
{
    let ghost ns = nodes_view(nodes@);
    let refs = crate::xml::child_elements_named(nodes, i, "index_ref");
    proof {
        children_named_in_range(ns, i as int, "index_ref"@, nodes@.len() as int);
        assert forall|j: int| 0 <= j < refs@.len() implies (#[trigger] refs@[j]) < nodes@.len()
            && is_child_named(ns, i as int, refs@[j] as int, "index_ref"@) by {
            assert(refs@.map_values(|x: usize| x as int)[j] == refs@[j] as int);
        }
    }
    let mut k: usize = 0;
    while k < refs.len()
        invariant
            forall|j: int| 0 <= j < refs@.len() ==> (#[trigger] refs@[j]) < nodes@.len()
                && is_child_named(ns, i as int, refs@[j] as int, "index_ref"@),
            k <= refs@.len(),
            ns == nodes_view(nodes@),
            refs@.map_values(|x: usize| x as int) == children_named(ns, i as int, "index_ref"@, nodes@.len() as int),
            forall|j: int| 0 <= j < k ==> nattr(ns, #[trigger] refs@[j] as int, "uuid"@) is None,
        decreases refs@.len() - k,
    {
        assert(refs@.map_values(|x: usize| x as int)[k as int] == refs@[k as int] as int);
        if attr(nodes, refs[k], "uuid").is_some() {
            assert(is_child_named(ns, i as int, refs@[k as int] as int, "index_ref"@));
            return true;
        }
        k = k + 1;
    }
    proof {
        assert forall|m: int| 0 <= m < ns.len() && #[trigger] is_child_named(ns, i as int, m, "index_ref"@) implies nattr(ns, m, "uuid"@) is None by {
            lemma_children_named_complete(ns, i as int, "index_ref"@, nodes@.len() as int, m);
            let c = children_named(ns, i as int, "index_ref"@, nodes@.len() as int);
            let j = choose|j: int| 0 <= j < c.len() && c[j] == m;
            assert(refs@.map_values(|x: usize| x as int)[j] == refs@[j] as int);
        }
    }
    false
}

/// Every element child with the name is listed.
pub proof fn lemma_children_named_complete(ns: Seq<XmlNodeView>, p: int, name: Seq<char>, k: int, m: int)
    requires
        0 <= m < k,
        is_child_named(ns, p, m, name),
    ensures
        children_named(ns, p, name, k).contains(m),
    decreases k,
{
    if m < k - 1 {
        lemma_children_named_complete(ns, p, name, k - 1, m);
        let c0 = children_named(ns, p, name, k - 1);
        let j = choose|j: int| 0 <= j < c0.len() && c0[j] == m;
        assert(children_named(ns, p, name, k)[j] == m);
    } else {
        let c = children_named(ns, p, name, k);
        assert(c[c.len() - 1] == m);
    }
}

/// Reads the `<field>` node `i` of `table`; a field without a name is skipped
/// with a warning.
pub fn parse_field(nodes: &Vec<XmlNode>, i: usize, warnings: &mut Vec<String>, table: &str) -> (r: Option<Field>)
    requires
        i < nodes@.len(),
    ensures
        is_named(nodes_view(nodes@), i as int) ==> (r matches Some(f) && field_matches(
            f,
            nodes_view(nodes@),
            i as int,
        ) && !f.is_primary_key && final(warnings)@ == old(warnings)@),
        !is_named(nodes_view(nodes@), i as int) ==> r is None && views(final(warnings)@) == views(
            old(warnings)@,
        ).push(field_warning(table@)),
{
    let ghost ns = nodes_view(nodes@);
    let name = match attr(nodes, i, "name") {
        Some(n) if !n.as_str().is_empty() => n,
        _ => {
            let mut m = String::new();
            push_str(&mut m, "skipped a <field> with no name attribute in table ");
            let quoted = debug_text(table);
            push_str(&mut m, quoted.as_str());
            proof {
                lemma_views_push(warnings@, m);
            }
            warnings.push(m);
            return None;
        },
    };
    assert(name@.len() > 0);
    let extra = child(nodes, i, "field_extra");
    proof {
        children_named_in_range(ns, i as int, "field_extra"@, nodes@.len() as int);
    }
    let info = opt_child_of(nodes, extra, "editor_field_info");
    let tip_node = opt_child_of(nodes, extra, "tip");
    let tip = match tip_node {
        Some(t) => {
            assert(ns[t as int] == nodes@[t as int]@);
            match &nodes[t].text {
                Some(x) => {
                    let y = trimmed(x.as_str());
                    if y.len() == 0 {
                        None
                    } else {
                        Some(string_of(y.as_slice()))
                    }
                },
                None => None,
            }
        },
        None => None,
    };
    let uuid = match attr(nodes, i, "uuid") {
        Some(u) => u,
        None => String::new(),
    };
    let type_code = match attr_i64(nodes, i, "type") {
        Some(t) => t,
        None => -1,
    };
    let unique = match attr_bool(nodes, i, "unique") {
        Some(b) => b,
        None => false,
    };
    let autosequence = match attr_bool(nodes, i, "autosequence") {
        Some(b) => b,
        None => false,
    };
    let never_null = match attr_bool(nodes, i, "never_null") {
        Some(b) => b,
        None => false,
    };
    let mandatory = match opt_attr_bool(nodes, extra, "mandatory") {
        Some(b) => b,
        None => false,
    };
    let modifiable = match opt_attr_bool(nodes, extra, "modifiable") {
        Some(b) => b,
        None => true,
    };
    let visible = match opt_attr_bool(nodes, extra, "visible") {
        Some(b) => b,
        None => true,
    };
    let color = match info {
        Some(e) => parse_color(nodes, e),
        None => None,
    };
    Some(Field {
        name,
        uuid,
        id: attr_i64(nodes, i, "id"),
        type_code,
        unique,
        autosequence,
        never_null,
        limiting_length: attr_i64(nodes, i, "limiting_length"),
        mandatory,
        modifiable,
        hidden: !visible,
        tip,
        color,
        indexed: has_index_ref_exec(nodes, i),
        is_primary_key: false,
    })
}


/// The `<field>` children of node `t`.
pub open spec fn field_nodes(ns: Seq<XmlNodeView>, t: int) -> Seq<int> {
    children_named(ns, t, "field"@, ns.len() as int)
}

/// The named nodes among `list`.
pub open spec fn named_only(ns: Seq<XmlNodeView>, list: Seq<int>) -> Seq<int>
    decreases list.len(),
{
    if list.len() == 0 {
        seq![]
    } else {
        let rest = named_only(ns, list.drop_last());
        if is_named(ns, list.last()) {
            rest.push(list.last())
        } else {
            rest
        }
    }
}

/// The warnings for the nameless `<field>` nodes among `list`.
pub open spec fn unnamed_warnings(ns: Seq<XmlNodeView>, list: Seq<int>, table: Seq<char>) -> Seq<Seq<char>>
    decreases list.len(),
{
    if list.len() == 0 {
        seq![]
    } else {
        let rest = unnamed_warnings(ns, list.drop_last(), table);
        if is_named(ns, list.last()) {
            rest
        } else {
            rest.push(field_warning(table))
        }
    }
}

/// The editor position block under node `info`: its `left` and `top` are
/// required, `width` and `height` are kept when present.
pub open spec fn coordinates_of(ns: Seq<XmlNodeView>, info: Option<int>) -> Option<
    (Seq<char>, Seq<char>, Option<Seq<char>>, Option<Seq<char>>),
> {
    match opt_child(ns, info, "coordinates"@) {
        None => None,
        Some(c) => match (nattr(ns, c, "left"@), nattr(ns, c, "top"@)) {
            (Some(l), Some(t)) => Some((l, t, nattr(ns, c, "width"@), nattr(ns, c, "height"@))),
            _ => None,
        },
    }
}

/// The editor position block as text.
pub open spec fn coord_view(c: Option<CoordinateText>) -> Option<
    (Seq<char>, Seq<char>, Option<Seq<char>>, Option<Seq<char>>),
> {
    match c {
        Some(c) => Some((c.left@, c.top@, opt_view(c.width), opt_view(c.height))),
        None => None,
    }
}

/// Every property of a table read from its `<table>` node `t`.
pub open spec fn table_matches(tb: Table, ns: Seq<XmlNodeView>, t: int) -> bool {
    let pk = opt_attr(ns, child_named(ns, t, "primary_key"@), "field_name"@);
    let info = opt_child(ns, child_named(ns, t, "table_extra"@), "editor_table_info"@);
    let accepted = named_only(ns, field_nodes(ns, t));
    &&& Some(tb.name@) == nattr(ns, t, "name"@)
    &&& tb.uuid@ == nattr(ns, t, "uuid"@).unwrap_or(Seq::empty())
    &&& tb.id == opt_i64(ns, Some(t), "id"@)
    &&& opt_view(tb.primary_key) == pk
    &&& tb.color == spec_color(ns, info)
    &&& coord_view(tb.coordinates) == coordinates_of(ns, info)
    &&& tb.fields@.len() == accepted.len()
    &&& forall|k: int|
        0 <= k < accepted.len() ==> field_matches(#[trigger] tb.fields@[k], ns, accepted[k])
            && tb.fields@[k].is_primary_key == (pk == Some(tb.fields@[k].name@))
}

/// Reads the `<table>` node `t`; a table without a name is skipped with a
/// warning, and so is each nameless field of a named table.
pub fn parse_table(nodes: &Vec<XmlNode>, t: usize, warnings: &mut Vec<String>) -> (r: Option<Table>)
    requires
        t < nodes@.len(),
    ensures
        is_named(nodes_view(nodes@), t as int) ==> (r matches Some(tb) && table_matches(
            tb,
            nodes_view(nodes@),
            t as int,
        ) && views(final(warnings)@) == views(old(warnings)@) + unnamed_warnings(
            nodes_view(nodes@),
            field_nodes(nodes_view(nodes@), t as int),
            tb.name@,
        )),
        !is_named(nodes_view(nodes@), t as int) ==> r is None && views(final(warnings)@) == views(
            old(warnings)@,
        ).push("skipped a <table> with no name attribute"@),
{
    let ghost ns = nodes_view(nodes@);
    let ghost w0 = views(warnings@);
    let name = match attr(nodes, t, "name") {
        Some(n) if !n.as_str().is_empty() => n,
        _ => {
            let m = String::from_str("skipped a <table> with no name attribute");
            proof {
                lemma_views_push(warnings@, m);
            }
            warnings.push(m);
            return None;
        },
    };
    let pk_node = child(nodes, t, "primary_key");
    proof {
        children_named_in_range(ns, t as int, "primary_key"@, nodes@.len() as int);
        children_named_in_range(ns, t as int, "table_extra"@, nodes@.len() as int);
        children_named_in_range(ns, t as int, "field"@, nodes@.len() as int);
    }
    let primary_key = match pk_node {
        Some(p) => attr(nodes, p, "field_name"),
        None => None,
    };
    let extra = child(nodes, t, "table_extra");
    let info = opt_child_of(nodes, extra, "editor_table_info");
    let color = match info {
        Some(e) => parse_color(nodes, e),
        None => None,
    };
    let coordinate_node = opt_child_of(nodes, info, "coordinates");
    let coordinates = match coordinate_node {
        Some(c) => match (attr(nodes, c, "left"), attr(nodes, c, "top")) {
            (Some(left), Some(top)) => Some(CoordinateText {
                left,
                top,
                width: attr(nodes, c, "width"),
                height: attr(nodes, c, "height"),
            }),
            _ => None,
        },
        None => None,
    };
    let field_list = crate::xml::child_elements_named(nodes, t, "field");
    let ghost list = field_nodes(ns, t as int);
    proof {
        assert forall|j: int| 0 <= j < field_list@.len() implies (#[trigger] field_list@[j]) < nodes@.len()
            && list[j] == field_list@[j] as int by {
            assert(field_list@.map_values(|x: usize| x as int)[j] == field_list@[j] as int);
        }
    }
    let mut fields: Vec<Field> = Vec::new();
    let mut k: usize = 0;
    while k < field_list.len()
        invariant
            ns == nodes_view(nodes@),
            k <= field_list@.len(),
            list.len() == field_list@.len(),
            forall|j: int| 0 <= j < field_list@.len() ==> (#[trigger] field_list@[j]) < nodes@.len()
                && list[j] == field_list@[j] as int,
            views(warnings@) == w0 + unnamed_warnings(ns, list.take(k as int), name@),
            fields@.len() == named_only(ns, list.take(k as int)).len(),
            forall|j: int|
                0 <= j < fields@.len() ==> field_matches(#[trigger] fields@[j], ns, named_only(ns, list.take(k as int))[j])
                    && fields@[j].is_primary_key == (opt_view(primary_key) == Some(fields@[j].name@)),
        decreases field_list@.len() - k,
    {
        let ghost before = views(warnings@);
        assert(list.take(k as int + 1).drop_last() == list.take(k as int));
        assert(list.take(k as int + 1).last() == field_list@[k as int] as int);
        match parse_field(nodes, field_list[k], warnings, name.as_str()) {
            Some(mut f) => {
                f.is_primary_key = match &primary_key {
                    Some(p) => p.eq(&f.name),
                    None => false,
                };
                fields.push(f);
            },
            None => {},
        }
        assert(views(warnings@) =~= w0 + unnamed_warnings(ns, list.take(k as int + 1), name@));
        k = k + 1;
    }
    assert(list.take(list.len() as int) == list);
    let uuid = match attr(nodes, t, "uuid") {
        Some(u) => u,
        None => String::new(),
    };
    Some(Table { name, uuid, id: attr_i64(nodes, t, "id"), fields, primary_key, color, coordinates })
}


/// The first node of `list` whose `kind` attribute is exactly `kind`.
pub open spec fn first_of_kind(ns: Seq<XmlNodeView>, list: Seq<int>, kind: Seq<char>) -> Option<int>
    decreases list.len(),
{
    if list.len() == 0 {
        None
    } else {
        match first_of_kind(ns, list.drop_last(), kind) {
            Some(j) => Some(j),
            None => if nattr(ns, list.last(), "kind"@) == Some(kind) {
                Some(list.last())
            } else {
                None
            },
        }
    }
}

/// The `<related_field>` children of relation node `i`.
pub open spec fn related_nodes(ns: Seq<XmlNodeView>, i: int) -> Seq<int> {
    children_named(ns, i, "related_field"@, ns.len() as int)
}

/// The `(table, field)` named by the `<related_field kind=…>` child of
/// relation node `i`, through its `field_ref` and nested `table_ref`.
pub open spec fn spec_endpoint_of(ns: Seq<XmlNodeView>, i: int, kind: Seq<char>) -> Option<(Seq<char>, Seq<char>)> {
    match first_of_kind(ns, related_nodes(ns, i), kind) {
        None => None,
        Some(rf) => match child_named(ns, rf, "field_ref"@) {
            None => None,
            Some(fr) => match child_named(ns, fr, "table_ref"@) {
                None => None,
                Some(tr) => match (nattr(ns, tr, "name"@), nattr(ns, fr, "name"@)) {
                    (Some(t), Some(f)) => Some((t, f)),
                    _ => None,
                },
            },
        },
    }
}

/// A non-empty attribute value.
pub open spec fn non_empty(o: Option<Seq<char>>) -> Option<Seq<char>> {
    match o {
        Some(s) => if s.len() > 0 {
            Some(s)
        } else {
            None
        },
        None => None,
    }
}

/// The warning a `<relation>` node produces, if it cannot be read.
pub open spec fn relation_warning(ns: Seq<XmlNodeView>, i: int) -> Option<Seq<char>> {
    match spec_endpoint_of(ns, i, "source"@) {
        None => Some("skipped a <relation> with no resolvable source field"@),
        Some((ft, ff)) => match spec_endpoint_of(ns, i, "destination"@) {
            None => Some(
                "skipped a <relation> from "@ + ft + "."@ + ff
                    + " with no resolvable destination field"@,
            ),
            Some(_) => None,
        },
    }
}

/// Every property of a relation read from its `<relation>` node `i`.
pub open spec fn relation_matches(r: Relation, ns: Seq<XmlNodeView>, i: int) -> bool {
    let info = opt_child(ns, child_named(ns, i, "relation_extra"@), "editor_relation_info"@);
    &&& spec_endpoint_of(ns, i, "source"@) == Some((r.from_table@, r.from_field@))
    &&& spec_endpoint_of(ns, i, "destination"@) == Some((r.to_table@, r.to_field@))
    &&& r.uuid@ == nattr(ns, i, "uuid"@).unwrap_or(Seq::empty())
    &&& opt_view(r.name_nto1) == non_empty(nattr(ns, i, "name_Nto1"@))
    &&& opt_view(r.name_1ton) == non_empty(nattr(ns, i, "name_1toN"@))
    &&& r.auto_load_nto1 == opt_bool(ns, Some(i), "auto_load_Nto1"@).unwrap_or(false)
    &&& r.auto_load_1ton == opt_bool(ns, Some(i), "auto_load_1toN"@).unwrap_or(false)
    &&& r.foreign_key == opt_bool(ns, Some(i), "foreign_key"@).unwrap_or(false)
    &&& opt_view(r.integrity) == nattr(ns, i, "integrity"@)
    &&& r.color == spec_color(ns, info)
    &&& r.prefers_left == opt_bool(ns, info, "prefers_left"@).unwrap_or(false)
}

fn related_of_kind(nodes: &Vec<XmlNode>, i: usize, kind: &str) -> (r: Option<usize>)
    ensures
        match first_of_kind(
            nodes_view(nodes@),
            related_nodes(nodes_view(nodes@), i as int),
            kind@,
        ) {
            Some(j) => r matches Some(x) && x as int == j && x < nodes@.len(),
            None => r is None,
        },
{
    let ghost ns = nodes_view(nodes@);
    let related = crate::xml::child_elements_named(nodes, i, "related_field");
    let ghost list = related_nodes(ns, i as int);
    proof {
        children_named_in_range(ns, i as int, "related_field"@, nodes@.len() as int);
        assert forall|j: int| 0 <= j < related@.len() implies (#[trigger] related@[j]) < nodes@.len()
            && list[j] == related@[j] as int by {
            assert(related@.map_values(|x: usize| x as int)[j] == related@[j] as int);
        }
    }
    let mut k: usize = 0;
    while k < related.len()
        invariant
            ns == nodes_view(nodes@),
            k <= related@.len(),
            list.len() == related@.len(),
            forall|j: int| 0 <= j < related@.len() ==> (#[trigger] related@[j]) < nodes@.len()
                && list[j] == related@[j] as int,
            list == related_nodes(ns, i as int),
            first_of_kind(ns, list.take(k as int), kind@) is None,
        decreases related@.len() - k,
    {
        assert(list.take(k as int + 1).drop_last() == list.take(k as int));
        assert(related@[k as int] < nodes@.len() && list[k as int] == related@[k as int] as int);
        let value = attr(nodes, related[k], "kind");
        let hit = match &value {
            Some(v) => is_lit(v.as_str(), kind),
            None => false,
        };
        if hit {
            proof {
                assert(nattr(ns, list[k as int], "kind"@) == Some(kind@));
                lemma_first_of_kind_prefix(ns, list, kind@, k as int + 1);
                assert(first_of_kind(ns, list, kind@) == Some(list[k as int]));
            }
            return Some(related[k]);
        }
        k = k + 1;
    }
    assert(list.take(list.len() as int) == list);
    None
}

fn endpoint(nodes: &Vec<XmlNode>, i: usize, kind: &str) -> (r: Option<(String, String)>)
    ensures
        match spec_endpoint_of(nodes_view(nodes@), i as int, kind@) {
            Some((t, f)) => r matches Some(x) && x.0@ == t && x.1@ == f,
            None => r is None,
        },
{
    let ghost ns = nodes_view(nodes@);
    let found = related_of_kind(nodes, i, kind);
    let rf = match found {
        Some(rf) => rf,
        None => return None,
    };
    proof {
        children_named_in_range(ns, rf as int, "field_ref"@, nodes@.len() as int);
    }
    let fr = match child(nodes, rf, "field_ref") {
        Some(fr) => fr,
        None => return None,
    };
    proof {
        children_named_in_range(ns, fr as int, "table_ref"@, nodes@.len() as int);
    }
    let tr = match child(nodes, fr, "table_ref") {
        Some(tr) => tr,
        None => return None,
    };
    match (attr(nodes, tr, "name"), attr(nodes, fr, "name")) {
        (Some(t), Some(f)) => Some((t, f)),
        _ => None,
    }
}

proof fn lemma_first_of_kind_prefix(ns: Seq<XmlNodeView>, list: Seq<int>, kind: Seq<char>, k: int)
    requires
        0 < k <= list.len(),
        first_of_kind(ns, list.take(k - 1), kind) is None,
        nattr(ns, list[k - 1], "kind"@) == Some(kind),
    ensures
        first_of_kind(ns, list, kind) == Some(list[k - 1]),
    decreases list.len(),
{
    if k < list.len() {
        assert(list.drop_last().take(k - 1) == list.take(k - 1));
        lemma_first_of_kind_prefix(ns, list.drop_last(), kind, k);
    } else {
        assert(list.take(k - 1) == list.drop_last());
    }
}

fn non_empty_attr(nodes: &Vec<XmlNode>, i: usize, name: &str) -> (r: Option<String>)
    requires
        i < nodes@.len(),
    ensures
        opt_view(r) == non_empty(nattr(nodes_view(nodes@), i as int, name@)),
{
    match attr(nodes, i, name) {
        Some(v) => if v.as_str().is_empty() {
            None
        } else {
            Some(v)
        },
        None => None,
    }
}

/// Reads the `<relation>` node `i`; a relation whose source or destination
/// cannot be resolved is skipped with a warning.
pub fn parse_relation(nodes: &Vec<XmlNode>, i: usize, warnings: &mut Vec<String>) -> (r: Option<Relation>)
    requires
        i < nodes@.len(),
    ensures
        match relation_warning(nodes_view(nodes@), i as int) {
            None => r matches Some(rel) && relation_matches(rel, nodes_view(nodes@), i as int)
                && final(warnings)@ == old(warnings)@,
            Some(m) => r is None && views(final(warnings)@) == views(old(warnings)@).push(m),
        },
{
    let ghost ns = nodes_view(nodes@);
    let (from_table, from_field) = match endpoint(nodes, i, "source") {
        Some(v) => v,
        None => {
            let m = String::from_str("skipped a <relation> with no resolvable source field");
            proof {
                lemma_views_push(warnings@, m);
            }
            warnings.push(m);
            return None;
        },
    };
    let (to_table, to_field) = match endpoint(nodes, i, "destination") {
        Some(v) => v,
        None => {
            let mut m = String::new();
            push_str(&mut m, "skipped a <relation> from ");
            push_str(&mut m, from_table.as_str());
            push_str(&mut m, ".");
            push_str(&mut m, from_field.as_str());
            push_str(&mut m, " with no resolvable destination field");
            proof {
                lemma_views_push(warnings@, m);
            }
            warnings.push(m);
            return None;
        },
    };
    let extra = child(nodes, i, "relation_extra");
    proof {
        children_named_in_range(ns, i as int, "relation_extra"@, nodes@.len() as int);
    }
    let info = opt_child_of(nodes, extra, "editor_relation_info");
    let uuid = match attr(nodes, i, "uuid") {
        Some(u) => u,
        None => String::new(),
    };
    let auto_load_nto1 = match attr_bool(nodes, i, "auto_load_Nto1") {
        Some(b) => b,
        None => false,
    };
    let auto_load_1ton = match attr_bool(nodes, i, "auto_load_1toN") {
        Some(b) => b,
        None => false,
    };
    let foreign_key = match attr_bool(nodes, i, "foreign_key") {
        Some(b) => b,
        None => false,
    };
    let color = match info {
        Some(e) => parse_color(nodes, e),
        None => None,
    };
    let prefers_left = match opt_attr_bool(nodes, info, "prefers_left") {
        Some(b) => b,
        None => false,
    };
    Some(Relation {
        uuid,
        name_nto1: non_empty_attr(nodes, i, "name_Nto1"),
        name_1ton: non_empty_attr(nodes, i, "name_1toN"),
        from_table,
        from_field,
        to_table,
        to_field,
        auto_load_nto1,
        auto_load_1ton,
        foreign_key,
        integrity: attr(nodes, i, "integrity"),
        color,
        prefers_left,
    })
}

/// The `name` of each `<table_ref>` in `list` that has one.
pub open spec fn ref_names(ns: Seq<XmlNodeView>, list: Seq<int>) -> Seq<Seq<char>>
    decreases list.len(),
{
    if list.len() == 0 {
        seq![]
    } else {
        let rest = ref_names(ns, list.drop_last());
        match nattr(ns, list.last(), "name"@) {
            Some(n) => rest.push(n),
            None => rest,
        }
    }
}

/// Every property of an index read from its `<index>` node `i`.
pub open spec fn index_matches(x: Index, ns: Seq<XmlNodeView>, i: int) -> bool {
    &&& x.uuid@ == nattr(ns, i, "uuid"@).unwrap_or(Seq::empty())
    &&& opt_view(x.kind) == nattr(ns, i, "kind"@)
    &&& x.unique_keys == opt_bool(ns, Some(i), "unique_keys"@).unwrap_or(false)
    &&& x.type_code == opt_i64(ns, Some(i), "type"@)
    &&& views(x.tables@) == ref_names(ns, children_named(ns, i, "table_ref"@, ns.len() as int))
}

/// Reads the `<index>` node `i`.
pub fn parse_index(nodes: &Vec<XmlNode>, i: usize) -> (r: Index)
    requires
        i < nodes@.len(),
    ensures
        index_matches(r, nodes_view(nodes@), i as int),
{
    let ghost ns = nodes_view(nodes@);
    let refs = crate::xml::child_elements_named(nodes, i, "table_ref");
    let ghost list = children_named(ns, i as int, "table_ref"@, nodes@.len() as int);
    proof {
        children_named_in_range(ns, i as int, "table_ref"@, nodes@.len() as int);
        assert forall|j: int| 0 <= j < refs@.len() implies (#[trigger] refs@[j]) < nodes@.len()
            && list[j] == refs@[j] as int by {
            assert(refs@.map_values(|x: usize| x as int)[j] == refs@[j] as int);
        }
    }
    let mut tables: Vec<String> = Vec::new();
    let mut k: usize = 0;
    while k < refs.len()
        invariant
            ns == nodes_view(nodes@),
            k <= refs@.len(),
            list.len() == refs@.len(),
            forall|j: int| 0 <= j < refs@.len() ==> (#[trigger] refs@[j]) < nodes@.len()
                && list[j] == refs@[j] as int,
            views(tables@) == ref_names(ns, list.take(k as int)),
        decreases refs@.len() - k,
    {
        assert(list.take(k as int + 1).drop_last() == list.take(k as int));
        match attr(nodes, refs[k], "name") {
            Some(n) => {
                proof {
                    lemma_views_push(tables@, n);
                }
                tables.push(n);
            },
            None => {},
        }
        k = k + 1;
    }
    assert(list.take(list.len() as int) == list);
    let uuid = match attr(nodes, i, "uuid") {
        Some(u) => u,
        None => String::new(),
    };
    let unique_keys = match attr_bool(nodes, i, "unique_keys") {
        Some(b) => b,
        None => false,
    };
    Index { uuid, kind: attr(nodes, i, "kind"), unique_keys, type_code: attr_i64(nodes, i, "type"), tables }
}

/// Whether node `k` is an element called `name`.
pub open spec fn named_as(ns: Seq<XmlNodeView>, k: int, name: Seq<char>) -> bool {
    ns[k].name == name
}

/// The `<table>` nodes among `list` that yield a table.
pub open spec fn table_items(ns: Seq<XmlNodeView>, list: Seq<int>) -> Seq<int>
    decreases list.len(),
{
    if list.len() == 0 {
        seq![]
    } else {
        let rest = table_items(ns, list.drop_last());
        if named_as(ns, list.last(), "table"@) && is_named(ns, list.last()) {
            rest.push(list.last())
        } else {
            rest
        }
    }
}

/// The `<relation>` nodes among `list` that yield a relation.
pub open spec fn relation_items(ns: Seq<XmlNodeView>, list: Seq<int>) -> Seq<int>
    decreases list.len(),
{
    if list.len() == 0 {
        seq![]
    } else {
        let rest = relation_items(ns, list.drop_last());
        if named_as(ns, list.last(), "relation"@) && relation_warning(ns, list.last()) is None {
            rest.push(list.last())
        } else {
            rest
        }
    }
}

/// The `<index>` nodes among `list`.
pub open spec fn index_items(ns: Seq<XmlNodeView>, list: Seq<int>) -> Seq<int>
    decreases list.len(),
{
    if list.len() == 0 {
        seq![]
    } else {
        let rest = index_items(ns, list.drop_last());
        if named_as(ns, list.last(), "index"@) {
            rest.push(list.last())
        } else {
            rest
        }
    }
}

/// The warnings that reading the top-level nodes `list` produces, in order.
pub open spec fn walk_warnings(ns: Seq<XmlNodeView>, list: Seq<int>) -> Seq<Seq<char>>
    decreases list.len(),
{
    if list.len() == 0 {
        seq![]
    } else {
        let rest = walk_warnings(ns, list.drop_last());
        let k = list.last();
        if named_as(ns, k, "table"@) {
            if is_named(ns, k) {
                rest + unnamed_warnings(ns, field_nodes(ns, k), nattr(ns, k, "name"@).unwrap())
            } else {
                rest.push("skipped a <table> with no name attribute"@)
            }
        } else if named_as(ns, k, "relation"@) {
            match relation_warning(ns, k) {
                Some(m) => rest.push(m),
                None => rest,
            }
        } else {
            rest
        }
    }
}

/// The uuid an `<index>` node is filed under.
pub open spec fn index_uuid(ns: Seq<XmlNodeView>, k: int) -> Seq<char> {
    nattr(ns, k, "uuid"@).unwrap_or(Seq::empty())
}

/// The distinct uuids of the index nodes `list`, in the order first seen.
pub open spec fn uuid_order(ns: Seq<XmlNodeView>, list: Seq<int>) -> Seq<Seq<char>>
    decreases list.len(),
{
    if list.len() == 0 {
        seq![]
    } else {
        let rest = uuid_order(ns, list.drop_last());
        if rest.contains(index_uuid(ns, list.last())) {
            rest
        } else {
            rest.push(index_uuid(ns, list.last()))
        }
    }
}

/// The last index node of `list` filed under `u`: a later `<index>` with
/// the same uuid replaces an earlier one.
pub open spec fn last_with_uuid(ns: Seq<XmlNodeView>, list: Seq<int>, u: Seq<char>) -> Option<int>
    decreases list.len(),
{
    if list.len() == 0 {
        None
    } else if index_uuid(ns, list.last()) == u {
        Some(list.last())
    } else {
        last_with_uuid(ns, list.drop_last(), u)
    }
}

/// The uuids of a list of indexes.
pub open spec fn index_uuids(v: Seq<Index>) -> Seq<Seq<char>> {
    v.map_values(|x: Index| x.uuid@)
}

/// The warning for a root element that is not `<base>`.
pub open spec fn root_warning(ns: Seq<XmlNodeView>, root: int) -> Seq<Seq<char>> {
    if ns[root].name == "base"@ {
        seq![]
    } else {
        seq!["root element is <"@ + ns[root].name + ">, expected <base>; parsing anyway"@]
    }
}

/// The warning for one relation endpoint `table.field`: an unknown table
/// (the first table with the name decides), or an unknown field of it.
pub open spec fn endpoint_warning(tables: Seq<Table>, t: Seq<char>, f: Seq<char>) -> Seq<Seq<char>> {
    match first_table_named(tables, t) {
        None => seq![
            "relation references unknown table "@ + debug_quoted(t)
                + "; it will be drawn as an external reference"@,
        ],
        Some(i) => if has_field(tables[i].fields@, f) {
            seq![]
        } else {
            seq!["relation references unknown field "@ + t + "."@ + f]
        },
    }
}

/// The endpoint warnings of every relation, source before destination.
pub open spec fn validation(tables: Seq<Table>, rels: Seq<Relation>) -> Seq<Seq<char>>
    decreases rels.len(),
{
    if rels.len() == 0 {
        seq![]
    } else {
        validation(tables, rels.drop_last()) + endpoint_warning(
            tables,
            rels.last().from_table@,
            rels.last().from_field@,
        ) + endpoint_warning(tables, rels.last().to_table@, rels.last().to_field@)
    }
}

/// `s` with each run of equal consecutive entries reduced to one
/// (`Vec::dedup`).
pub open spec fn dedup_runs(s: Seq<Seq<char>>) -> Seq<Seq<char>>
    decreases s.len(),
{
    if s.len() == 0 {
        seq![]
    } else if s.len() >= 2 && s[s.len() - 1] == s[s.len() - 2] {
        dedup_runs(s.drop_last())
    } else {
        dedup_runs(s.drop_last()).push(s.last())
    }
}

/// Everything a catalog holds, read from the document `ns` whose decoding
/// produced the warnings `decoded`.
pub open spec fn catalog_matches(c: Catalog, ns: Seq<XmlNodeView>, decoded: Seq<Seq<char>>) -> bool {
    let root = root_element(ns).unwrap();
    let items = element_children(ns, root, ns.len() as int);
    let tables = table_items(ns, items);
    let rels = relation_items(ns, items);
    let idx = index_items(ns, items);
    let seen = uuid_order(ns, idx);
    let by_uuid = name_order(seen);
    &&& c.base_name@ == nattr(ns, root, "name"@).unwrap_or("Catalog"@)
    &&& c.tables@.len() == tables.len()
    &&& forall|k: int| 0 <= k < tables.len() ==> table_matches(#[trigger] c.tables@[k], ns, tables[k])
    &&& c.relations@.len() == rels.len()
    &&& forall|k: int|
        0 <= k < rels.len() ==> relation_matches(#[trigger] c.relations@[k], ns, rels[k])
    &&& c.indexes@.len() == seen.len()
    &&& forall|k: int|
        0 <= k < seen.len() ==> (#[trigger] c.indexes@[k]).uuid@ == seen[by_uuid[k]] && index_matches(
            c.indexes@[k],
            ns,
            last_with_uuid(ns, idx, seen[by_uuid[k]]).unwrap(),
        )
    &&& views(c.warnings@) == decoded + root_warning(ns, root) + walk_warnings(ns, items)
        + dedup_runs(validation(c.tables@, c.relations@))
}

/// The text handed to the XML parser: the decoded text without a leading
/// U+FEFF.
pub open spec fn strip_bom(s: Seq<char>) -> Seq<char> {
    if s.len() > 0 && s[0] == '\u{feff}' {
        s.skip(1)
    } else {
        s
    }
}

/// The line at 0-based position `n` of `s` (`str::lines`): lines end at
/// `\n`, a `\r` just before it is dropped, and a line past the end is empty.
pub open spec fn nth_line(s: Seq<char>, n: nat) -> Seq<char>
    decreases s.len(),
{
    match crate::text::position_in(s, '\n') {
        None => if n == 0 {
            s
        } else {
            Seq::empty()
        },
        Some(p) => if n == 0 {
            let l = s.take(p);
            if l.len() > 0 && l.last() == '\r' {
                l.drop_last()
            } else {
                l
            }
        } else {
            proof {
                crate::text::position_in_meaning(s, '\n');
            }
            nth_line(s.skip(p + 1), (n - 1) as nat)
        },
    }
}

/// The 1-based `line` of `s`; empty for line 0 or a line past the end.
pub open spec fn source_line(s: Seq<char>, line: u32) -> Seq<char> {
    if line == 0 {
        Seq::empty()
    } else {
        nth_line(s, (line - 1) as nat)
    }
}

/// The error for a document that is not well-formed, given the parser's
/// message and position `e` and the text that was parsed.
pub open spec fn malformed_matches(err: AppError, e: (Seq<char>, u32, u32), text: Seq<char>) -> bool {
    err matches AppError::MalformedXml(m, Some(p)) && m@ == "input is not well-formed XML: "@ + e.0
        && p.line == e.1 && p.column == e.2 && p.excerpt@ == source_line(text, e.1)
}

/// The text the XML parser reads for `bytes`.
pub open spec fn parsed_text(bytes: Seq<u8>) -> Seq<char> {
    strip_bom(spec_decode(bytes).0)
}

/// Whether two index entries read the same.
pub open spec fn index_same(a: Index, b: Index) -> bool {
    &&& a.uuid@ == b.uuid@
    &&& opt_view(a.kind) == opt_view(b.kind)
    &&& a.unique_keys == b.unique_keys
    &&& a.type_code == b.type_code
    &&& views(a.tables@) == views(b.tables@)
}

/// A copy of an index entry.
fn copy_index(x: &Index) -> (r: Index)
    ensures
        index_same(r, *x),
{
    let mut tables: Vec<String> = Vec::new();
    let mut i: usize = 0;
    while i < x.tables.len()
        invariant
            i <= x.tables@.len(),
            views(tables@) == views(x.tables@).take(i as int),
        decreases x.tables@.len() - i,
    {
        let t = x.tables[i].clone();
        proof {
            lemma_views_push(tables@, t);
        }
        tables.push(t);
        assert(views(x.tables@).take(i as int + 1) == views(x.tables@).take(i as int).push(x.tables@[i as int]@));
        i = i + 1;
    }
    assert(views(x.tables@).take(x.tables@.len() as int) == views(x.tables@));
    let kind = match &x.kind {
        Some(k) => Some(k.clone()),
        None => None,
    };
    Index { uuid: x.uuid.clone(), kind, unique_keys: x.unique_keys, type_code: x.type_code, tables }
}

/// `v` ordered by uuid, as a map keyed by uuid iterates.
fn sort_by_uuid(v: &Vec<Index>) -> (r: Vec<Index>)
    ensures
        r@.len() == v@.len(),
        forall|k: int| 0 <= k < r@.len() ==> index_same(#[trigger] r@[k], v@[name_order(index_uuids(v@))[k]]),
{
    let mut uuids: Vec<String> = Vec::new();
    let mut i: usize = 0;
    while i < v.len()
        invariant
            i <= v@.len(),
            views(uuids@) == index_uuids(v@).take(i as int),
        decreases v@.len() - i,
    {
        let u = v[i].uuid.clone();
        proof {
            lemma_views_push(uuids@, u);
        }
        uuids.push(u);
        assert(index_uuids(v@).take(i as int + 1) == index_uuids(v@).take(i as int).push(v@[i as int].uuid@));
        i = i + 1;
    }
    assert(index_uuids(v@).take(v@.len() as int) == index_uuids(v@));
    let keys = single_keys(&uuids);
    let order = sorted_positions(&keys);
    assert(keys@.len() == uuids@.len()) by {
        assert(key_views(keys@).len() == keys@.len());
    }
    let ghost o = name_order(index_uuids(v@));
    assert(views(uuids@) == index_uuids(v@));
    let mut out: Vec<Index> = Vec::new();
    let mut k: usize = 0;
    while k < order.len()
        invariant
            k <= order@.len(),
            order@.len() == v@.len(),
            order@.map_values(|j: usize| j as int) == o,
            forall|q: int| 0 <= q < order@.len() ==> #[trigger] order@[q] < v@.len(),
            out@.len() == k,
            forall|q: int| 0 <= q < k ==> index_same(#[trigger] out@[q], v@[o[q]]),
        decreases order@.len() - k,
    {
        assert(o[k as int] == order@[k as int] as int);
        let x = copy_index(&v[order[k]]);
        out.push(x);
        k = k + 1;
    }
    out
}

/// Files `x` under its uuid: it replaces the entry with the same uuid, or
/// joins the end of the list.
fn insert_index(indexes: &mut Vec<Index>, x: Index)
    ensures
        match crate::text::position_in(index_uuids(old(indexes)@), x.uuid@) {
            Some(p) => final(indexes)@ == old(indexes)@.update(p, x),
            None => final(indexes)@ == old(indexes)@.push(x),
        },
{
    let ghost us = index_uuids(indexes@);
    let mut i: usize = 0;
    while i < indexes.len()
        invariant
            i <= indexes@.len(),
            indexes@ == old(indexes)@,
            us == index_uuids(indexes@),
            us.len() == indexes@.len(),
            crate::text::position_in(us.take(i as int), x.uuid@) is None,
        decreases indexes@.len() - i,
    {
        assert(us.take(i as int + 1).drop_last() == us.take(i as int));
        assert(us[i as int] == indexes@[i as int].uuid@);
        if indexes[i].uuid.eq(&x.uuid) {
            proof {
                crate::text::lemma_position_prefix(us, x.uuid@, i as int + 1);
            }
            indexes.set(i, x);
            return;
        }
        i = i + 1;
    }
    assert(us.take(us.len() as int) == us);
    indexes.push(x);
}

/// Filing one more index node keeps the list keyed by uuid in first-seen
/// order, each entry read from the last node with its uuid.
proof fn lemma_index_step(
    ns: Seq<XmlNodeView>,
    idx: Seq<int>,
    n: int,
    before: Seq<Index>,
    x: Index,
    after: Seq<Index>,
)
    requires
        index_uuids(before) == uuid_order(ns, idx),
        index_uuids(before).no_duplicates(),
        forall|k: int|
            0 <= k < before.len() ==> index_matches(
                #[trigger] before[k],
                ns,
                last_with_uuid(ns, idx, index_uuids(before)[k]).unwrap(),
            ),
        index_matches(x, ns, n),
        match crate::text::position_in(index_uuids(before), x.uuid@) {
            Some(p) => after == before.update(p, x),
            None => after == before.push(x),
        },
    ensures
        index_uuids(after) == uuid_order(ns, idx.push(n)),
        index_uuids(after).no_duplicates(),
        forall|k: int|
            0 <= k < after.len() ==> index_matches(
                #[trigger] after[k],
                ns,
                last_with_uuid(ns, idx.push(n), index_uuids(after)[k]).unwrap(),
            ),
{
    let us = index_uuids(before);
    let u = x.uuid@;
    let l2 = idx.push(n);
    assert(l2.drop_last() == idx);
    assert(index_uuid(ns, n) == u);
    crate::text::position_in_meaning(us, u);
    match crate::text::position_in(us, u) {
        Some(p) => {
            assert(index_uuids(after) =~= us);
            assert forall|k: int| 0 <= k < after.len() implies index_matches(
                #[trigger] after[k],
                ns,
                last_with_uuid(ns, l2, index_uuids(after)[k]).unwrap(),
            ) by {
                if k != p {
                    assert(after[k] == before[k]);
                    assert(us[k] != u);
                }
            }
        },
        None => {
            assert(index_uuids(after) =~= us.push(u));
            assert forall|k: int| 0 <= k < after.len() implies index_matches(
                #[trigger] after[k],
                ns,
                last_with_uuid(ns, l2, index_uuids(after)[k]).unwrap(),
            ) by {
                if k < before.len() {
                    assert(after[k] == before[k]);
                    assert(us[k] != u);
                }
            }
            assert(index_uuids(after).no_duplicates()) by {
                assert forall|a: int, b: int| 0 <= a < b < index_uuids(after).len() implies index_uuids(after)[a] != index_uuids(after)[b] by {
                    if b == us.len() {
                        assert(index_uuids(after)[a] == us[a]);
                    }
                }
            }
        },
    }
}

/// Appends the warning for the relation endpoint `t.f`, if any.
fn push_endpoint_warning(catalog: &Catalog, t: &String, f: &String, out: &mut Vec<String>)
    ensures
        views(final(out)@) == views(old(out)@) + endpoint_warning(catalog.tables@, t@, f@),
{
    proof {
        crate::model::first_table_named_meaning(catalog.tables@, t@);
    }
    match catalog.table_index(t.as_str()) {
        None => {
            let mut m = String::new();
            push_str(&mut m, "relation references unknown table ");
            let quoted = debug_text(t.as_str());
            push_str(&mut m, quoted.as_str());
            push_str(&mut m, "; it will be drawn as an external reference");
            proof {
                lemma_views_push(out@, m);
            }
            out.push(m);
        },
        Some(i) => {
            if crate::select::table_has_field(&catalog.tables[i], f) {
                assert(views(out@) =~= views(out@) + Seq::<Seq<char>>::empty());
            } else {
                let mut m = String::new();
                push_str(&mut m, "relation references unknown field ");
                push_str(&mut m, t.as_str());
                push_str(&mut m, ".");
                push_str(&mut m, f.as_str());
                proof {
                    lemma_views_push(out@, m);
                }
                out.push(m);
            }
        },
    }
}

/// The lines of `raw` with runs of equal consecutive lines reduced to one.
fn dedup_strings(raw: &Vec<String>) -> (r: Vec<String>)
    ensures
        views(r@) == dedup_runs(views(raw@)),
{
    let ghost s = views(raw@);
    let mut out: Vec<String> = Vec::new();
    let mut i: usize = 0;
    while i < raw.len()
        invariant
            i <= raw@.len(),
            s == views(raw@),
            views(out@) == dedup_runs(s.take(i as int)),
        decreases raw@.len() - i,
    {
        let ghost t = s.take(i as int + 1);
        assert(t.drop_last() == s.take(i as int));
        assert(t.last() == raw@[i as int]@);
        if i > 0 && raw[i].eq(&raw[i - 1]) {
            assert(t[t.len() - 2] == raw@[i - 1]@);
        } else {
            assert(i > 0 ==> t[t.len() - 2] == raw@[i - 1]@);
            let c = raw[i].clone();
            proof {
                lemma_views_push(out@, c);
            }
            out.push(c);
        }
        i = i + 1;
    }
    assert(s.take(s.len() as int) == s);
    out
}

/// The endpoint warnings of every relation of `catalog`, runs of repeats
/// reduced to one.
fn validate_relations(catalog: &Catalog) -> (r: Vec<String>)
    ensures
        views(r@) == dedup_runs(validation(catalog.tables@, catalog.relations@)),
{
    let mut raw: Vec<String> = Vec::new();
    let mut i: usize = 0;
    while i < catalog.relations.len()
        invariant
            i <= catalog.relations@.len(),
            views(raw@) == validation(catalog.tables@, catalog.relations@.take(i as int)),
        decreases catalog.relations@.len() - i,
    {
        assert(catalog.relations@.take(i as int + 1).drop_last() == catalog.relations@.take(i as int));
        let rel = &catalog.relations[i];
        push_endpoint_warning(catalog, &rel.from_table, &rel.from_field, &mut raw);
        push_endpoint_warning(catalog, &rel.to_table, &rel.to_field, &mut raw);
        i = i + 1;
    }
    assert(catalog.relations@.take(catalog.relations@.len() as int) == catalog.relations@);
    dedup_strings(&raw)
}

/// The 1-based `line` of `text`, without its line ending.
fn line_excerpt(text: &Vec<char>, line: u32) -> (r: String)
    ensures
        r@ == source_line(text@, line),
{
    if line == 0 {
        return String::new();
    }
    let mut from: usize = 0;
    let mut rem: u32 = line - 1;
    assert(text@.skip(0) == text@);
    loop
        invariant
            line > 0,
            from <= text@.len(),
            nth_line(text@.skip(from as int), rem as nat) == nth_line(text@, (line - 1) as nat),
        decreases text@.len() - from,
    {
        let ghost w = text@.skip(from as int);
        proof {
            crate::text::position_in_meaning(w, '\n');
        }
        match crate::text::position_from(text, from, '\n') {
            None => {
                if rem == 0 {
                    let r = crate::text::string_range(text, from, text.len());
                    assert(r@ == w);
                    assert(nth_line(w, 0) == w);
                    return r;
                } else {
                    return String::new();
                }
            },
            Some(p) => {
                assert(p < text@.len());
                if rem == 0 {
                    let end = if p > from && text[p - 1] == '\r' {
                        p - 1
                    } else {
                        p
                    };
                    let r = crate::text::string_range(text, from, end);
                    assert(w.take(p - from) == text@.subrange(from as int, p as int));
                    assert(p > from ==> w.take(p - from).last() == text@[p - 1]);
                    assert(r@ == nth_line(w, 0)) by {
                        if p > from && text@[p - 1] == '\r' {
                            assert(w.take(p - from).drop_last() == text@.subrange(from as int, p - 1));
                        }
                    }
                    return r;
                }
                assert(w.skip(p - from + 1) == text@.skip(p + 1));
                let len = text.len();
                assert(p < len);
                from = p + 1;
                rem = rem - 1;
            },
        }
    }
}

/// The decoded text without a leading U+FEFF.
fn without_bom(text: String) -> (r: String)
    ensures
        r@ == strip_bom(text@),
{
    let v = chars_of(text.as_str());
    if v.len() > 0 && v[0] == '\u{feff}' {
        let r = crate::text::string_range(&v, 1, v.len());
        assert(r@ == text@.skip(1));
        r
    } else {
        text
    }
}

/// Parses a catalog from the raw bytes of its XML export.
///
/// The bytes are decoded ([`decode`]), a leading U+FEFF is dropped, and the
/// text is read as XML. A document that is not well-formed is the only
/// failure: the error carries the parser's message and position and the
/// offending source line. Otherwise every `<table>`, `<relation>` and
/// `<index>` child of the root element is read in document order, other
/// elements are ignored, and each relation endpoint naming an unknown table
/// or field adds a warning.
pub fn parse_bytes(bytes: &[u8]) -> (r: Result<Catalog, AppError>)
    requires
        bytes@.len() <= usize::MAX / 4,
    ensures
        match xml_document(parsed_text(bytes@)) {
            Ok(ns) => r matches Ok(c) && catalog_matches(c, ns, spec_decode(bytes@).1),
            Err(e) => r matches Err(err) && malformed_matches(err, e, parsed_text(bytes@)),
        },
{
    let (decoded, mut warnings) = decode(bytes);
    let text = without_bom(decoded);
    let nodes = match crate::xml::read_xml(text.as_str()) {
        Ok(n) => n,
        Err(e) => {
            let mut m = String::new();
            push_str(&mut m, "input is not well-formed XML: ");
            push_str(&mut m, e.message.as_str());
            let chars = chars_of(text.as_str());
            let excerpt = line_excerpt(&chars, e.line);
            assert(text@ == parsed_text(bytes@));
            return Err(
                AppError::MalformedXml(
                    m,
                    Some(XmlPosition { line: e.line, column: e.column, excerpt }),
                ),
            );
        },
    };
    let ghost ns = nodes_view(nodes@);
    let root = crate::xml::root_of(&nodes).unwrap();
    proof {
        element_children_in_range(ns, 0, nodes@.len() as int);
    }
    assert(ns[root as int] == nodes@[root as int]@);
    if !is_lit(nodes[root].name.as_str(), "base") {
        let mut m = String::new();
        push_str(&mut m, "root element is <");
        push_str(&mut m, nodes[root].name.as_str());
        push_str(&mut m, ">, expected <base>; parsing anyway");
        proof {
            lemma_views_push(warnings@, m);
        }
        warnings.push(m);
    }
    let base_name = match attr(&nodes, root, "name") {
        Some(n) => n,
        None => String::from_str("Catalog"),
    };
    let items = crate::xml::child_elements(&nodes, root);
    let ghost list = element_children(ns, root as int, nodes@.len() as int);
    proof {
        element_children_in_range(ns, root as int, nodes@.len() as int);
        assert forall|j: int| 0 <= j < items@.len() implies (#[trigger] items@[j]) < nodes@.len()
            && list[j] == items@[j] as int by {
            assert(items@.map_values(|x: usize| x as int)[j] == items@[j] as int);
        }
    }
    let ghost w0 = views(warnings@);
    let mut tables: Vec<Table> = Vec::new();
    let mut relations: Vec<Relation> = Vec::new();
    let mut indexes: Vec<Index> = Vec::new();
    let mut k: usize = 0;
    while k < items.len()
        invariant
            ns == nodes_view(nodes@),
            base_name@ == nattr(ns, root as int, "name"@).unwrap_or("Catalog"@),
            w0 == spec_decode(bytes@).1 + root_warning(ns, root as int),
            list == element_children(ns, root as int, nodes@.len() as int),
            k <= items@.len(),
            list.len() == items@.len(),
            forall|j: int| 0 <= j < items@.len() ==> (#[trigger] items@[j]) < nodes@.len()
                && list[j] == items@[j] as int,
            views(warnings@) == w0 + walk_warnings(ns, list.take(k as int)),
            tables@.len() == table_items(ns, list.take(k as int)).len(),
            forall|j: int| 0 <= j < tables@.len() ==> table_matches(
                #[trigger] tables@[j],
                ns,
                table_items(ns, list.take(k as int))[j],
            ),
            relations@.len() == relation_items(ns, list.take(k as int)).len(),
            forall|j: int| 0 <= j < relations@.len() ==> relation_matches(
                #[trigger] relations@[j],
                ns,
                relation_items(ns, list.take(k as int))[j],
            ),
            index_uuids(indexes@) == uuid_order(ns, index_items(ns, list.take(k as int))),
            index_uuids(indexes@).no_duplicates(),
            forall|j: int| 0 <= j < indexes@.len() ==> index_matches(
                #[trigger] indexes@[j],
                ns,
                last_with_uuid(ns, index_items(ns, list.take(k as int)), index_uuids(indexes@)[j]).unwrap(),
            ),
        decreases items@.len() - k,
    {
        let ghost prev = list.take(k as int);
        let ghost next = list.take(k as int + 1);
        let n = items[k];
        assert(next.drop_last() == prev);
        assert(next.last() == n as int);
        assert(ns[n as int] == nodes@[n as int]@);
        let ghost tb0 = tables@;
        let ghost rl0 = relations@;
        let ghost ix0 = indexes@;
        proof {
            reveal_strlit("table");
            reveal_strlit("relation");
            reveal_strlit("index");
            assert("table"@.len() == 5 && "relation"@.len() == 8 && "index"@.len() == 5);
            assert("table"@[0] == 't' && "index"@[0] == 'i');
            assert("table"@ != "relation"@ && "table"@ != "index"@ && "relation"@ != "index"@);
        }
        if is_lit(nodes[n].name.as_str(), "table") {
            match parse_table(&nodes, n, &mut warnings) {
                Some(t) => {
                    tables.push(t);
                },
                None => {},
            }
            assert(table_items(ns, next) == if is_named(ns, n as int) {
                table_items(ns, prev).push(n as int)
            } else {
                table_items(ns, prev)
            });
            assert forall|j: int| 0 <= j < tables@.len() implies table_matches(
                #[trigger] tables@[j],
                ns,
                table_items(ns, next)[j],
            ) by {
                if j < tb0.len() {
                    assert(tables@[j] == tb0[j]);
                }
            }
            assert(views(warnings@) == w0 + walk_warnings(ns, next));
            assert(relation_items(ns, next) == relation_items(ns, prev));
            assert(index_items(ns, next) == index_items(ns, prev));
        } else if is_lit(nodes[n].name.as_str(), "relation") {
            match parse_relation(&nodes, n, &mut warnings) {
                Some(rel) => {
                    relations.push(rel);
                },
                None => {},
            }
            assert forall|j: int| 0 <= j < relations@.len() implies relation_matches(
                #[trigger] relations@[j],
                ns,
                relation_items(ns, next)[j],
            ) by {
                if j < rl0.len() {
                    assert(relations@[j] == rl0[j]);
                }
            }
            assert(views(warnings@) =~= w0 + walk_warnings(ns, next));
            assert(table_items(ns, next) == table_items(ns, prev));
            assert(index_items(ns, next) == index_items(ns, prev));
        } else if is_lit(nodes[n].name.as_str(), "index") {
            let x = parse_index(&nodes, n);
            insert_index(&mut indexes, x);
            proof {
                lemma_index_step(ns, index_items(ns, prev), n as int, ix0, x, indexes@);
            }
            assert(index_items(ns, next) == index_items(ns, prev).push(n as int));
            assert(table_items(ns, next) == table_items(ns, prev));
            assert(relation_items(ns, next) == relation_items(ns, prev));
            assert(walk_warnings(ns, next) == walk_warnings(ns, prev));
        } else {
            assert(index_items(ns, next) == index_items(ns, prev));
            assert(table_items(ns, next) == table_items(ns, prev));
            assert(relation_items(ns, next) == relation_items(ns, prev));
            assert(walk_warnings(ns, next) == walk_warnings(ns, prev));
        }
        k = k + 1;
    }
    assert(list.take(list.len() as int) == list);
    let ghost seen = index_uuids(indexes@);
    let ghost idx = index_items(ns, list);
    let by_uuid = sort_by_uuid(&indexes);
    proof {
        name_order_sorts(seen);
        let o = name_order(seen);
        assert forall|q: int| 0 <= q < by_uuid@.len() implies (#[trigger] by_uuid@[q]).uuid@ == seen[o[q]]
            && index_matches(by_uuid@[q], ns, last_with_uuid(ns, idx, seen[o[q]]).unwrap()) by {
            assert(0 <= o[q] < indexes@.len());
            assert(seen[o[q]] == indexes@[o[q]].uuid@);
        }
    }
    let mut catalog = Catalog { base_name, tables, relations, indexes: by_uuid, warnings };
    let extra = validate_relations(&catalog);
    let ghost before = views(catalog.warnings@);
    let ghost c0 = catalog;
    let mut i: usize = 0;
    while i < extra.len()
        invariant
            i <= extra@.len(),
            catalog.base_name == c0.base_name,
            catalog.tables == c0.tables,
            catalog.relations == c0.relations,
            catalog.indexes == c0.indexes,
            views(catalog.warnings@) == before + views(extra@).take(i as int),
        decreases extra@.len() - i,
    {
        proof {
            lemma_views_push(catalog.warnings@, extra@[i as int]);
            assert(views(extra@).take(i as int + 1) == views(extra@).take(i as int).push(extra@[i as int]@));
        }
        catalog.warnings.push(extra[i].clone());
        i = i + 1;
    }
    assert(views(extra@).take(extra@.len() as int) == views(extra@));
    assert(text@ == parsed_text(bytes@));
    assert(xml_document(parsed_text(bytes@)) == Ok::<Seq<XmlNodeView>, (Seq<char>, u32, u32)>(ns));
    Ok(catalog)
}

/// The uuid order lists each uuid of the index nodes once, and each listed
/// uuid has a last node.
proof fn lemma_uuid_order(ns: Seq<XmlNodeView>, list: Seq<int>)
    ensures
        uuid_order(ns, list).no_duplicates(),
        forall|j: int| 0 <= j < list.len() ==> uuid_order(ns, list).contains(index_uuid(ns, #[trigger] list[j])),
        forall|u: Seq<char>| uuid_order(ns, list).contains(u) ==> last_with_uuid(ns, list, u) is Some,
    decreases list.len(),
{
    if list.len() > 0 {
        let rest = list.drop_last();
        lemma_uuid_order(ns, rest);
        let o = uuid_order(ns, rest);
        let u = index_uuid(ns, list.last());
        if !o.contains(u) {
            assert(uuid_order(ns, list) == o.push(u));
            assert forall|a: int, b: int| 0 <= a < b < o.len() + 1 implies o.push(u)[a] != o.push(u)[b] by {
                if b == o.len() {
                    assert(o.push(u)[a] == o[a]);
                    assert(o.contains(o[a]));
                }
            }
        }
        assert forall|j: int| 0 <= j < list.len() implies uuid_order(ns, list).contains(index_uuid(ns, #[trigger] list[j])) by {
            if j < rest.len() {
                assert(list[j] == rest[j]);
                let w = index_uuid(ns, rest[j]);
                let t = choose|t: int| 0 <= t < o.len() && o[t] == w;
                if !o.contains(u) {
                    assert(o.push(u)[t] == w);
                }
            } else if !o.contains(u) {
                assert(o.push(u)[o.len() as int] == u);
            }
        }
        assert forall|v: Seq<char>| uuid_order(ns, list).contains(v) implies last_with_uuid(ns, list, v) is Some by {
            if v != u {
                assert(o.contains(v)) by {
                    if !o.contains(u) {
                        let t = choose|t: int| 0 <= t < o.len() + 1 && o.push(u)[t] == v;
                        assert(o[t] == v);
                    }
                }
                assert(last_with_uuid(ns, list, v) == last_with_uuid(ns, rest, v));
            }
        }
    }
}

/// The indexes of a parsed catalog are keyed by uuid, as in a map ordered by
/// uuid: no uuid is filed twice, the entries come in strictly increasing uuid
/// order, every `<index>` node's uuid is filed, and each entry is read from
/// the last `<index>` node with its uuid.
pub proof fn parsed_indexes_are_keyed_by_uuid(c: Catalog, ns: Seq<XmlNodeView>, decoded: Seq<Seq<char>>)
    requires
        catalog_matches(c, ns, decoded),
    ensures
        index_uuids(c.indexes@).no_duplicates(),
        forall|i: int, j: int| 0 <= i < j < c.indexes@.len() ==> text_lt(#[trigger] c.indexes@[i].uuid@, #[trigger] c.indexes@[j].uuid@),
        ({
            let items = element_children(ns, root_element(ns).unwrap(), ns.len() as int);
            let idx = index_items(ns, items);
            &&& forall|j: int| 0 <= j < idx.len() ==> index_uuids(c.indexes@).contains(index_uuid(ns, #[trigger] idx[j]))
            &&& forall|k: int| 0 <= k < c.indexes@.len() ==> {
                let n = last_with_uuid(ns, idx, #[trigger] c.indexes@[k].uuid@);
                n is Some && index_matches(c.indexes@[k], ns, n.unwrap())
            }
        }),
{
    let items = element_children(ns, root_element(ns).unwrap(), ns.len() as int);
    let idx = index_items(ns, items);
    let seen = uuid_order(ns, idx);
    lemma_uuid_order(ns, idx);
    let o = name_order(seen);
    name_order_sorts(seen);
    let us = index_uuids(c.indexes@);
    assert forall|k: int| 0 <= k < us.len() implies #[trigger] us[k] == seen[o[k]] by {
        assert(us[k] == c.indexes@[k].uuid@);
    }
    assert forall|i: int, j: int| 0 <= i < j < us.len() implies us[i] != us[j] by {
        assert(us[i] == seen[o[i]] && us[j] == seen[o[j]]);
    }
    assert forall|i: int, j: int| 0 <= i < j < c.indexes@.len() implies text_lt(#[trigger] c.indexes@[i].uuid@, #[trigger] c.indexes@[j].uuid@) by {
        assert(us[i] == seen[o[i]] && us[j] == seen[o[j]]);
        assert(us[i] == c.indexes@[i].uuid@ && us[j] == c.indexes@[j].uuid@);
        text_order_is_total(seen[o[i]], seen[o[j]], seen[o[j]]);
    }
    assert forall|j: int| 0 <= j < idx.len() implies us.contains(index_uuid(ns, #[trigger] idx[j])) by {
        let u = index_uuid(ns, idx[j]);
        assert(seen.contains(u));
        let m = choose|m: int| 0 <= m < seen.len() && seen[m] == u;
        permutation_lists_every_position(o, seen.len(), m);
        let k = choose|k: int| 0 <= k < o.len() && o[k] == m;
        assert(us[k] == u);
    }
    assert forall|k: int| 0 <= k < c.indexes@.len() implies {
        let n = last_with_uuid(ns, idx, #[trigger] c.indexes@[k].uuid@);
        n is Some && index_matches(c.indexes@[k], ns, n.unwrap())
    } by {
        assert(us[k] == c.indexes@[k].uuid@);
        assert(seen.contains(seen[o[k]]));
    }
}

/// A top-level element other than `<table>`, `<relation>` and `<index>` is
/// ignored: it adds no table, relation, index or warning.
pub proof fn unknown_elements_are_ignored(ns: Seq<XmlNodeView>, list: Seq<int>, k: int)
    requires
        !named_as(ns, k, "table"@),
        !named_as(ns, k, "relation"@),
        !named_as(ns, k, "index"@),
    ensures
        table_items(ns, list.push(k)) == table_items(ns, list),
        relation_items(ns, list.push(k)) == relation_items(ns, list),
        index_items(ns, list.push(k)) == index_items(ns, list),
        walk_warnings(ns, list.push(k)) == walk_warnings(ns, list),
{
    assert(list.push(k).drop_last() == list);
}

/// Reducing runs leaves the last entry in place.
proof fn lemma_dedup_last(s: Seq<Seq<char>>)
    requires
        s.len() > 0,
    ensures
        dedup_runs(s).len() > 0,
        dedup_runs(s).last() == s.last(),
    decreases s.len(),
{
    if s.len() >= 2 && s[s.len() - 1] == s[s.len() - 2] {
        lemma_dedup_last(s.drop_last());
    }
}

/// The validation warnings never repeat one another back to back: each run
/// of equal warnings is reported once.
pub proof fn reduced_runs_have_no_repeats(s: Seq<Seq<char>>)
    ensures
        forall|i: int| 0 <= i < dedup_runs(s).len() - 1 ==> #[trigger] dedup_runs(s)[i] != dedup_runs(s)[i + 1],
    decreases s.len(),
{
    if s.len() > 0 {
        let rest = s.drop_last();
        reduced_runs_have_no_repeats(rest);
        if !(s.len() >= 2 && s[s.len() - 1] == s[s.len() - 2]) {
            let r = dedup_runs(rest);
            let d = dedup_runs(s);
            assert(d == r.push(s.last()));
            if rest.len() > 0 {
                lemma_dedup_last(rest);
                assert(r.last() == s[s.len() - 2]);
            }
            assert forall|i: int| 0 <= i < d.len() - 1 implies #[trigger] d[i] != d[i + 1] by {
                if i < r.len() - 1 {
                    assert(d[i] == r[i] && d[i + 1] == r[i + 1]);
                } else {
                    assert(d[i] == r.last());
                }
            }
        }
    }
}

} // verus!
