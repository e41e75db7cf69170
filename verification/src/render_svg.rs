//! The text side of the SVG renderer: escaping, palettes, stylesheets,
//! marker definitions and the other pieces of markup that carry no
//! geometry.
//!
//! Every string that came from the catalog is escaped here with XML rules
//! before it reaches the output.

use vstd::prelude::*;

use crate::export::is_ascii_alnum;
use crate::order::{text_lt, text_less, text_order_is_total};
use crate::text::{chars_of, concat, lemma_concat_step, lemma_take_all, push_char, push_decimal, push_str, views, decimal};

verus! {

/// The colour scheme of a rendering.
#[derive(Debug, Clone, Copy, PartialEq, Eq, Structural)]
pub enum Theme {
    Light,
    Dark,
    Auto,
}

/// The theme a command-line value names.
pub open spec fn spec_parse_theme(value: Seq<char>) -> Option<Theme> {
    if value == "light"@ {
        Some(Theme::Light)
    } else if value == "dark"@ {
        Some(Theme::Dark)
    } else if value == "auto"@ {
        Some(Theme::Auto)
    } else {
        None
    }
}

impl Theme {
    /// `light`, `dark` or `auto`; anything else is no theme.
    pub fn parse(value: &str) -> (r: Option<Theme>)
        ensures
            r == spec_parse_theme(value@),
    {
        if crate::text::is_lit(value, "light") {
            Some(Theme::Light)
        } else if crate::text::is_lit(value, "dark") {
            Some(Theme::Dark)
        } else if crate::text::is_lit(value, "auto") {
            Some(Theme::Auto)
        } else {
            None
        }
    }
}

/// Whether `c` is a character XML 1.0 does not allow: a control character
/// below U+0020 other than tab, line feed and carriage return, or one of the
/// noncharacters U+FFFE and U+FFFF.
pub open spec fn is_dropped_char(c: char) -> bool {
    (c < ' ' && c != '\t' && c != '\n' && c != '\r') || c == '\u{FFFE}' || c == '\u{FFFF}'
}

/// What one character becomes in a text node.
pub open spec fn text_char(c: char) -> Seq<char> {
    if c == '&' {
        "&amp;"@
    } else if c == '<' {
        "&lt;"@
    } else if c == '>' {
        "&gt;"@
    } else if is_dropped_char(c) {
        seq![]
    } else {
        seq![c]
    }
}

/// What one character becomes in a double-quoted attribute value.
pub open spec fn attr_char(c: char) -> Seq<char> {
    if c == '"' {
        "&quot;"@
    } else if c == '\'' {
        "&#39;"@
    } else {
        text_char(c)
    }
}

/// `value` escaped for a text node.
pub open spec fn spec_esc_text(value: Seq<char>) -> Seq<char>
    decreases value.len(),
{
    if value.len() == 0 {
        seq![]
    } else {
        spec_esc_text(value.drop_last()) + text_char(value.last())
    }
}

/// `value` escaped for an attribute value.
pub open spec fn spec_esc_attr(value: Seq<char>) -> Seq<char>
    decreases value.len(),
{
    if value.len() == 0 {
        seq![]
    } else {
        spec_esc_attr(value.drop_last()) + attr_char(value.last())
    }
}

/// Escape a string for an XML/SVG/HTML *text node*.
pub fn esc_text(value: &str) -> (r: String)
    ensures
        r@ == spec_esc_text(value@),
{
    let chars = chars_of(value);
    let mut out = String::new();
    let mut i: usize = 0;
    while i < chars.len()
        invariant
            i <= chars@.len(),
            chars@ == value@,
            out@ == spec_esc_text(chars@.take(i as int)),
        decreases chars@.len() - i,
    {
        let c = chars[i];
        assert(chars@.take(i as int + 1).drop_last() == chars@.take(i as int));
        if c == '&' {
            push_str(&mut out, "&amp;");
        } else if c == '<' {
            push_str(&mut out, "&lt;");
        } else if c == '>' {
            push_str(&mut out, "&gt;");
        } else if (c < ' ' && c != '\t' && c != '\n' && c != '\r') || c == '\u{FFFE}' || c
            == '\u{FFFF}' {
        } else {
            push_char(&mut out, c);
        }
        i = i + 1;
    }
    proof {
        lemma_take_all(chars@);
    }
    out
}

/// Escape a string for an XML/SVG/HTML *attribute value* (always
/// double-quoted).
pub fn esc_attr(value: &str) -> (r: String)
    ensures
        r@ == spec_esc_attr(value@),
{
    let chars = chars_of(value);
    let mut out = String::new();
    let mut i: usize = 0;
    while i < chars.len()
        invariant
            i <= chars@.len(),
            chars@ == value@,
            out@ == spec_esc_attr(chars@.take(i as int)),
        decreases chars@.len() - i,
    {
        let c = chars[i];
        assert(chars@.take(i as int + 1).drop_last() == chars@.take(i as int));
        if c == '"' {
            push_str(&mut out, "&quot;");
        } else if c == '\'' {
            push_str(&mut out, "&#39;");
        } else if c == '&' {
            push_str(&mut out, "&amp;");
        } else if c == '<' {
            push_str(&mut out, "&lt;");
        } else if c == '>' {
            push_str(&mut out, "&gt;");
        } else if (c < ' ' && c != '\t' && c != '\n' && c != '\r') || c == '\u{FFFE}' || c
            == '\u{FFFF}' {
        } else {
            push_char(&mut out, c);
        }
        i = i + 1;
    }
    proof {
        lemma_take_all(chars@);
    }
    out
}

/// Escaped text holds no angle bracket and no character XML does not allow,
/// so it can neither open nor close markup.
pub proof fn escaped_text_is_inert(value: Seq<char>)
    ensures
        forall|i: int| 0 <= i < spec_esc_text(value).len() ==> {
            let c = #[trigger] spec_esc_text(value)[i];
            c != '<' && c != '>' && !is_dropped_char(c)
        },
    decreases value.len(),
{
    reveal_strlit("&amp;");
    reveal_strlit("&lt;");
    reveal_strlit("&gt;");
    if value.len() > 0 {
        escaped_text_is_inert(value.drop_last());
        let a = spec_esc_text(value.drop_last());
        let b = text_char(value.last());
        assert forall|i: int| 0 <= i < spec_esc_text(value).len() implies {
            let c = #[trigger] spec_esc_text(value)[i];
            c != '<' && c != '>' && !is_dropped_char(c)
        } by {
            if i < a.len() {
                assert(spec_esc_text(value)[i] == a[i]);
            } else {
                assert(spec_esc_text(value)[i] == b[i - a.len()]);
            }
        }
    }
}

/// An escaped attribute value holds no angle bracket, no quote of either
/// kind and no character XML does not allow, so it cannot leave its
/// double-quoted attribute.
pub proof fn escaped_attribute_is_inert(value: Seq<char>)
    ensures
        forall|i: int| 0 <= i < spec_esc_attr(value).len() ==> {
            let c = #[trigger] spec_esc_attr(value)[i];
            c != '<' && c != '>' && c != '"' && c != '\'' && !is_dropped_char(c)
        },
    decreases value.len(),
{
    reveal_strlit("&amp;");
    reveal_strlit("&lt;");
    reveal_strlit("&gt;");
    reveal_strlit("&quot;");
    reveal_strlit("&#39;");
    if value.len() > 0 {
        escaped_attribute_is_inert(value.drop_last());
        let a = spec_esc_attr(value.drop_last());
        let b = attr_char(value.last());
        assert forall|i: int| 0 <= i < spec_esc_attr(value).len() implies {
            let c = #[trigger] spec_esc_attr(value)[i];
            c != '<' && c != '>' && c != '"' && c != '\'' && !is_dropped_char(c)
        } by {
            if i < a.len() {
                assert(spec_esc_attr(value)[i] == a[i]);
            } else {
                assert(spec_esc_attr(value)[i] == b[i - a.len()]);
            }
        }
    }
}

/// Palette resolved per theme. The HTML renderer emits both palettes as CSS
/// custom properties instead.
#[derive(Debug, Clone, Copy)]
pub struct Palette {
    pub bg: &'static str,
    pub card: &'static str,
    pub card_border: &'static str,
    pub row_alt: &'static str,
    pub text: &'static str,
    pub text_muted: &'static str,
    pub badge_bg: &'static str,
    pub badge_text: &'static str,
    pub edge_label_bg: &'static str,
    pub dark: bool,
}

/// The colours of the light palette, in field order.
pub open spec fn light_colors() -> Seq<Seq<char>> {
    seq![
        "#f6f7fb"@, "#ffffff"@, "#dbe1ea"@, "#f8fafc"@, "#0f172a"@, "#64748b"@, "#eef2f7"@,
        "#475569"@, "#f6f7fb"@,
    ]
}

/// The colours of the dark palette, in field order.
pub open spec fn dark_colors() -> Seq<Seq<char>> {
    seq![
        "#0b1020"@, "#151b2e"@, "#26304a"@, "#1a2135"@, "#e6ecf7"@, "#94a3b8"@, "#232c45"@,
        "#a9b6cc"@, "#0b1020"@,
    ]
}

/// The colours of a palette, in field order.
pub open spec fn palette_colors(p: Palette) -> Seq<Seq<char>> {
    seq![
        p.bg@, p.card@, p.card_border@, p.row_alt@, p.text@, p.text_muted@, p.badge_bg@,
        p.badge_text@, p.edge_label_bg@,
    ]
}

/// The light palette.
pub fn light() -> (r: Palette)
    ensures
        palette_colors(r) == light_colors(),
        !r.dark,
{
    let p = Palette {
        bg: "#f6f7fb",
        card: "#ffffff",
        card_border: "#dbe1ea",
        row_alt: "#f8fafc",
        text: "#0f172a",
        text_muted: "#64748b",
        badge_bg: "#eef2f7",
        badge_text: "#475569",
        edge_label_bg: "#f6f7fb",
        dark: false,
    };
    assert(palette_colors(p) =~= light_colors());
    p
}

/// The dark palette.
pub fn dark() -> (r: Palette)
    ensures
        palette_colors(r) == dark_colors(),
        r.dark,
{
    let p = Palette {
        bg: "#0b1020",
        card: "#151b2e",
        card_border: "#26304a",
        row_alt: "#1a2135",
        text: "#e6ecf7",
        text_muted: "#94a3b8",
        badge_bg: "#232c45",
        badge_text: "#a9b6cc",
        edge_label_bg: "#0b1020",
        dark: true,
    };
    assert(palette_colors(p) =~= dark_colors());
    p
}

/// The palette of a theme: dark for `Dark`; `Auto` has no meaning for a
/// static image, so it is light like `Light`.
pub fn palette(theme: Theme) -> (r: Palette)
    ensures
        theme == Theme::Dark ==> palette_colors(r) == dark_colors() && r.dark,
        theme != Theme::Dark ==> palette_colors(r) == light_colors() && !r.dark,
{
    match theme {
        Theme::Dark => dark(),
        _ => light(),
    }
}

/// A colour reduced to its ASCII letters and digits, lowercased.
pub open spec fn spec_color_key(color: Seq<char>) -> Seq<char>
    decreases color.len(),
{
    if color.len() == 0 {
        seq![]
    } else {
        let rest = spec_color_key(color.drop_last());
        let c = color.last();
        if !is_ascii_alnum(c) {
            rest
        } else if 'A' <= c && c <= 'Z' {
            rest.push(((c as u32) + 32) as char)
        } else {
            rest.push(c)
        }
    }
}

/// `c` with an ASCII upper-case letter lowered.
pub open spec fn ascii_lower(c: char) -> char {
    if 'A' <= c && c <= 'Z' {
        ((c as u32) + 32) as char
    } else {
        c
    }
}

/// `is_ascii_alnum` as a predicate.
pub open spec fn alnum() -> spec_fn(char) -> bool {
    |c: char| is_ascii_alnum(c)
}

/// `ascii_lower` as a function.
pub open spec fn lower() -> spec_fn(char) -> char {
    |c: char| ascii_lower(c)
}

/// Whether `c` is an ASCII digit or lower-case letter.
pub open spec fn is_key_char(c: char) -> bool {
    ('0' <= c && c <= '9') || ('a' <= c && c <= 'z')
}

/// Text made of digits and lower-case letters is its own key.
proof fn lemma_plain_key(s: Seq<char>)
    requires
        forall|i: int| 0 <= i < s.len() ==> is_key_char(#[trigger] s[i]),
    ensures
        spec_color_key(s) == s,
    decreases s.len(),
{
    if s.len() > 0 {
        let rest = s.drop_last();
        assert forall|i: int| 0 <= i < rest.len() implies is_key_char(#[trigger] rest[i]) by {
            assert(rest[i] == s[i]);
        }
        lemma_plain_key(rest);
        assert(is_key_char(s[s.len() - 1]));
        assert(rest.push(s.last()) == s);
    }
}

/// The colour key is the colour text with only its ASCII letters and digits
/// kept and upper case lowered; it holds only digits and lower-case letters;
/// and the key of a key is the key itself, so equal colours and colours that
/// differ only in case or punctuation share their markers.
pub proof fn color_keys_are_lowercase_alphanumerics(color: Seq<char>)
    ensures
        spec_color_key(color) == color.filter(alnum()).map_values(lower()),
        forall|i: int| 0 <= i < spec_color_key(color).len() ==> is_key_char(#[trigger] spec_color_key(color)[i]),
        spec_color_key(spec_color_key(color)) == spec_color_key(color),
    decreases color.len(),
{
    let k = spec_color_key(color);
    if color.len() > 0 {
        let rest = color.drop_last();
        let c = color.last();
        color_keys_are_lowercase_alphanumerics(rest);
        let kr = spec_color_key(rest);
        let f = rest.filter(alnum());
        rest.lemma_filter_push(c, alnum());
        assert(rest.push(c) == color);
        assert(color.filter(alnum()) == if is_ascii_alnum(c) { f.push(c) } else { f });
        if is_ascii_alnum(c) {
            assert(f.push(c).map_values(lower()) == f.map_values(lower()).push(ascii_lower(c)));
            if 'A' <= c && c <= 'Z' {
                assert(k == kr.push(((c as u32) + 32) as char));
            } else {
                assert(k == kr.push(c));
            }
            assert(k == kr.push(ascii_lower(c)));
            assert(is_key_char(ascii_lower(c)));
            assert forall|i: int| 0 <= i < k.len() implies is_key_char(#[trigger] k[i]) by {
                if i < kr.len() {
                    assert(k[i] == kr[i]);
                }
            }
        }
    }
    lemma_plain_key(k);
}

/// Marker ids are derived from the colour so identical colours share markers
/// and several scenes can coexist in one document without id collisions.
pub fn color_key(color: &str) -> (r: String)
    ensures
        r@ == spec_color_key(color@),
{
    let chars = chars_of(color);
    let mut out = String::new();
    let mut i: usize = 0;
    while i < chars.len()
        invariant
            i <= chars@.len(),
            chars@ == color@,
            out@ == spec_color_key(chars@.take(i as int)),
        decreases chars@.len() - i,
    {
        let c = chars[i];
        assert(chars@.take(i as int + 1).drop_last() == chars@.take(i as int));
        if ('0' <= c && c <= '9') || ('a' <= c && c <= 'z') {
            push_char(&mut out, c);
        } else if 'A' <= c && c <= 'Z' {
            let lower = ((c as u32) + 32) as u8 as char;
            assert(lower == ((c as u32) + 32) as char);
            push_char(&mut out, lower);
        }
        i = i + 1;
    }
    proof {
        lemma_take_all(chars@);
    }
    out
}

/// The marker definitions of one colour.
pub open spec fn marker_pair(color: Seq<char>) -> Seq<char> {
    let key = spec_color_key(color);
    let esc = spec_esc_attr(color);
    "<marker id=\"mN-"@ + key
        + "\" markerWidth=\"12\" markerHeight=\"12\" refX=\"0\" refY=\"6\" orient=\"auto\" markerUnits=\"userSpaceOnUse\"><path d=\"M10 6L0 1M10 6L0 6M10 6L0 11\" fill=\"none\" stroke=\""@
        + esc + "\" stroke-width=\"1.4\"/></marker>"@ + "<marker id=\"m1-"@ + key
        + "\" markerWidth=\"10\" markerHeight=\"12\" refX=\"1\" refY=\"6\" orient=\"auto\" markerUnits=\"userSpaceOnUse\"><path d=\"M1 1.5L1 10.5\" fill=\"none\" stroke=\""@
        + esc + "\" stroke-width=\"1.6\"/></marker>"@
}

/// The drop shadow shared by every card.
pub open spec fn shadow_filter() -> Seq<char> {
    "<filter id=\"cardShadow\" x=\"-20%\" y=\"-20%\" width=\"140%\" height=\"140%\"><feDropShadow dx=\"0\" dy=\"2\" stdDeviation=\"3\" flood-opacity=\"0.16\"/></filter>"@
}

/// The shared `<defs>` for the colours `colors`.
pub open spec fn spec_defs(colors: Seq<Seq<char>>) -> Seq<char> {
    "<defs>"@ + shadow_filter() + concat(colors.map_values(|c: Seq<char>| marker_pair(c)))
        + "</defs>"@
}

fn marker_pair_text(color: &str) -> (r: String)
    ensures
        r@ == marker_pair(color@),
{
    let key = color_key(color);
    let esc = esc_attr(color);
    let mut out = String::new();
    push_str(&mut out, "<marker id=\"mN-");
    push_str(&mut out, key.as_str());
    push_str(
        &mut out,
        "\" markerWidth=\"12\" markerHeight=\"12\" refX=\"0\" refY=\"6\" orient=\"auto\" markerUnits=\"userSpaceOnUse\"><path d=\"M10 6L0 1M10 6L0 6M10 6L0 11\" fill=\"none\" stroke=\"",
    );
    push_str(&mut out, esc.as_str());
    push_str(&mut out, "\" stroke-width=\"1.4\"/></marker>");
    push_str(&mut out, "<marker id=\"m1-");
    push_str(&mut out, key.as_str());
    push_str(
        &mut out,
        "\" markerWidth=\"10\" markerHeight=\"12\" refX=\"1\" refY=\"6\" orient=\"auto\" markerUnits=\"userSpaceOnUse\"><path d=\"M1 1.5L1 10.5\" fill=\"none\" stroke=\"",
    );
    push_str(&mut out, esc.as_str());
    push_str(&mut out, "\" stroke-width=\"1.6\"/></marker>");
    out
}

/// Shared `<defs>`: the drop shadow plus one marker pair per distinct relation
/// colour, so each edge's cardinality glyphs carry its own colour without
/// relying on `context-stroke` (not universally supported). `colors` is the
/// set [`edge_colors`] builds: distinct and sorted.
pub fn defs(colors: &Vec<String>) -> (r: String)
    ensures
        r@ == spec_defs(views(colors@)),
{
    let mut out = String::from_str("<defs>");
    push_str(
        &mut out,
        "<filter id=\"cardShadow\" x=\"-20%\" y=\"-20%\" width=\"140%\" height=\"140%\"><feDropShadow dx=\"0\" dy=\"2\" stdDeviation=\"3\" flood-opacity=\"0.16\"/></filter>",
    );
    let ghost head = out@;
    let ghost parts = views(colors@).map_values(|c: Seq<char>| marker_pair(c));
    let mut i: usize = 0;
    while i < colors.len()
        invariant
            i <= colors@.len(),
            parts == views(colors@).map_values(|c: Seq<char>| marker_pair(c)),
            out@ == head + concat(parts.take(i as int)),
        decreases colors@.len() - i,
    {
        let pair = marker_pair_text(colors[i].as_str());
        proof {
            lemma_concat_step(parts, i as int);
            assert(views(colors@)[i as int] == colors@[i as int]@);
        }
        push_str(&mut out, pair.as_str());
        i = i + 1;
    }
    proof {
        lemma_take_all(parts);
    }
    push_str(&mut out, "</defs>");
    out
}

/// Whether `s` is strictly increasing in text order.
pub open spec fn strictly_sorted(s: Seq<Seq<char>>) -> bool {
    forall|i: int, j: int| 0 <= i < j < s.len() ==> text_lt(s[i], s[j])
}

/// Adds `color` to the strictly sorted `set` unless it is there already.
fn insert_sorted(set: &mut Vec<String>, color: &String)
    requires
        strictly_sorted(views(old(set)@)),
    ensures
        strictly_sorted(views(final(set)@)),
        views(final(set)@).to_set() == views(old(set)@).to_set().insert(color@),
{
    let ghost before = views(set@);
    let mut p: usize = 0;
    while p < set.len() && text_less(set[p].as_str(), color.as_str())
        invariant
            p <= set@.len(),
            before == views(set@),
            strictly_sorted(before),
            forall|q: int| 0 <= q < p ==> text_lt(#[trigger] before[q], color@),
        decreases set@.len() - p,
    {
        assert(before[p as int] == set@[p as int]@);
        p = p + 1;
    }
    if p < set.len() && set[p].eq(color) {
        assert(before[p as int] == color@);
        assert(before.to_set() =~= before.to_set().insert(color@));
        return;
    }
    let ghost fresh = color@;
    proof {
        if p < before.len() {
            assert(before[p as int] == set@[p as int]@);
            text_order_is_total(before[p as int], fresh, fresh);
            assert(text_lt(fresh, before[p as int]));
        }
    }
    set.insert(p, color.clone());
    let ghost after = views(set@);
    assert(after =~= before.insert(p as int, fresh));
    assert forall|i: int, j: int| 0 <= i < j < after.len() implies text_lt(after[i], after[j]) by {
        if j < p {
        } else if j == p {
        } else if i < p {
            assert(after[j] == before[j - 1]);
            if p < before.len() {
                text_order_is_total(after[i], fresh, before[p as int]);
                text_order_is_total(after[i], before[p as int], before[j - 1]);
                if j - 1 > p {
                    assert(text_lt(before[p as int], before[j - 1]));
                }
            }
        } else if i == p {
            assert(after[j] == before[j - 1]);
            if j - 1 > p {
                text_order_is_total(fresh, before[p as int], before[j - 1]);
            }
        } else {
            assert(after[i] == before[i - 1] && after[j] == before[j - 1]);
        }
    }
    assert(after.to_set() =~= before.to_set().insert(fresh)) by {
        assert forall|x: Seq<char>| after.contains(x) <==> before.contains(x) || x == fresh by {
            if after.contains(x) {
                let k = choose|k: int| 0 <= k < after.len() && after[k] == x;
                if k < p {
                    assert(before[k] == x);
                } else if k > p {
                    assert(before[k - 1] == x);
                }
            }
            if before.contains(x) {
                let k = choose|k: int| 0 <= k < before.len() && before[k] == x;
                if k < p {
                    assert(after[k] == x);
                } else {
                    assert(after[k + 1] == x);
                }
            }
            if x == fresh {
                assert(after[p as int] == x);
            }
        }
    }
}

/// Every distinct relation colour, sorted: the set of `colors`.
pub fn edge_colors(colors: &Vec<String>) -> (r: Vec<String>)
    ensures
        strictly_sorted(views(r@)),
        views(r@).to_set() == views(colors@).to_set(),
{
    let mut set: Vec<String> = Vec::new();
    assert(views(set@).to_set() =~= views(colors@).take(0).to_set());
    let mut i: usize = 0;
    while i < colors.len()
        invariant
            i <= colors@.len(),
            strictly_sorted(views(set@)),
            views(set@).to_set() == views(colors@).take(i as int).to_set(),
        decreases colors@.len() - i,
    {
        insert_sorted(&mut set, &colors[i]);
        assert(views(colors@).take(i as int + 1) == views(colors@).take(i as int).push(colors@[i as int]@));
        assert(views(colors@).take(i as int + 1).to_set() =~= views(colors@).take(i as int).to_set().insert(colors@[i as int]@)) by {
            let t = views(colors@).take(i as int);
            let u = views(colors@).take(i as int + 1);
            assert forall|x: Seq<char>| u.contains(x) <==> t.contains(x) || x == colors@[i as int]@ by {
                if u.contains(x) {
                    let k = choose|k: int| 0 <= k < u.len() && u[k] == x;
                    if k < t.len() {
                        assert(t[k] == x);
                    }
                }
                if t.contains(x) {
                    let k = choose|k: int| 0 <= k < t.len() && t[k] == x;
                    assert(u[k] == x);
                }
                if x == colors@[i as int]@ {
                    assert(u[i as int] == x);
                }
            }
        }
        i = i + 1;
    }
    proof {
        lemma_take_all(views(colors@));
    }
    set
}

/// The sans-serif font stack of all text.
pub const SANS_STACK: &'static str = "-apple-system, BlinkMacSystemFont, 'Segoe UI', 'Helvetica Neue', Arial, 'DejaVu Sans', sans-serif";

/// The monospace font stack of type labels and badges.
pub const MONO_STACK: &'static str = "ui-monospace, SFMono-Regular, Menlo, Consolas, 'DejaVu Sans Mono', monospace";

/// The geometry and typography rules shared by both output families.
pub open spec fn spec_shared_css() -> Seq<char> {
    "text{font-family:"@ + SANS_STACK@ + ";dominant-baseline:auto}"@
        + ".diagram-title{font-size:13px;font-weight:700;letter-spacing:.2px}"@
        + ".card-title{font-size:13px;font-weight:700}"@ + ".card-meta{font-size:10px}"@
        + ".row-more-label{font-size:10.5px}"@ + ".field-name{font-size:12px}"@
        + ".ghost-name{font-size:13px;font-weight:600}"@ + ".field-type{font-family:"@ + MONO_STACK@
        + ";font-size:10px}"@ + ".badge text{font-family:"@ + MONO_STACK@
        + ";font-size:8.5px;font-weight:700}"@ + ".edge-label{font-size:9.5px}"@
        + ".row-bg{fill:transparent}"@ + ".row-hidden{opacity:.55}"@
        + ".edge-line{fill:none;stroke-width:1.6}"@
        + ".edge-hit{fill:none;stroke:transparent;stroke-width:14}"@
}

/// Geometry/typography rules shared by both output families.
pub fn shared_css() -> (r: String)
    ensures
        r@ == spec_shared_css(),
{
    let mut out = String::new();
    push_str(&mut out, "text{font-family:");
    push_str(&mut out, SANS_STACK);
    push_str(&mut out, ";dominant-baseline:auto}");
    push_str(&mut out, ".diagram-title{font-size:13px;font-weight:700;letter-spacing:.2px}");
    push_str(&mut out, ".card-title{font-size:13px;font-weight:700}");
    push_str(&mut out, ".card-meta{font-size:10px}");
    push_str(&mut out, ".row-more-label{font-size:10.5px}");
    push_str(&mut out, ".field-name{font-size:12px}");
    push_str(&mut out, ".ghost-name{font-size:13px;font-weight:600}");
    push_str(&mut out, ".field-type{font-family:");
    push_str(&mut out, MONO_STACK);
    push_str(&mut out, ";font-size:10px}");
    push_str(&mut out, ".badge text{font-family:");
    push_str(&mut out, MONO_STACK);
    push_str(&mut out, ";font-size:8.5px;font-weight:700}");
    push_str(&mut out, ".edge-label{font-size:9.5px}");
    push_str(&mut out, ".row-bg{fill:transparent}");
    push_str(&mut out, ".row-hidden{opacity:.55}");
    push_str(&mut out, ".edge-line{fill:none;stroke-width:1.6}");
    push_str(&mut out, ".edge-hit{fill:none;stroke:transparent;stroke-width:14}");
    out
}

/// The stylesheet of a standalone SVG in palette `p`.
pub open spec fn spec_static_css(p: Palette) -> Seq<char> {
    spec_shared_css() + ".bg{fill:"@ + p.bg@ + "}"@ + ".card-bg{fill:"@ + p.card@ + "}"@
        + ".card-outline{fill:none;stroke:"@ + p.card_border@ + "}"@ + ".row-alt .row-bg{fill:"@
        + p.row_alt@ + "}"@ + ".diagram-title{fill:"@ + p.text@ + "}"@ + ".field-name{fill:"@
        + p.text@ + "}"@ + ".ghost-name{fill:"@ + p.text_muted@ + "}"@ + ".badge rect{fill:"@
        + p.badge_bg@ + "}"@ + ".badge text{fill:"@ + p.badge_text@ + "}"@ + ".edge-label{fill:"@
        + p.text_muted@ + "}"@ + ".ghost-bg{fill:"@ + p.card@ + ";stroke:"@ + p.card_border@
        + ";stroke-dasharray:5 4}"@ + ".card-expanded-bg{fill:none;display:none}"@
        + ".card-expanded-outline{fill:none;stroke:"@ + p.card_border@ + ";display:none}"@
        + ".row-more-bg{fill:"@ + p.row_alt@ + "}"@ + ".row-more-label{fill:"@ + p.text_muted@
        + "}"@ + ".card-extra-rows{display:none}"@ + ".row-more-close{display:none}"@
}

/// CSS for a standalone SVG (single, resolved theme).
pub fn static_css(palette: &Palette) -> (r: String)
    ensures
        r@ == spec_static_css(*palette),
{
    let mut out = shared_css();
    push_str(&mut out, ".bg{fill:");
    push_str(&mut out, palette.bg);
    push_str(&mut out, "}");
    push_str(&mut out, ".card-bg{fill:");
    push_str(&mut out, palette.card);
    push_str(&mut out, "}");
    push_str(&mut out, ".card-outline{fill:none;stroke:");
    push_str(&mut out, palette.card_border);
    push_str(&mut out, "}");
    push_str(&mut out, ".row-alt .row-bg{fill:");
    push_str(&mut out, palette.row_alt);
    push_str(&mut out, "}");
    push_str(&mut out, ".diagram-title{fill:");
    push_str(&mut out, palette.text);
    push_str(&mut out, "}");
    push_str(&mut out, ".field-name{fill:");
    push_str(&mut out, palette.text);
    push_str(&mut out, "}");
    push_str(&mut out, ".ghost-name{fill:");
    push_str(&mut out, palette.text_muted);
    push_str(&mut out, "}");
    push_str(&mut out, ".badge rect{fill:");
    push_str(&mut out, palette.badge_bg);
    push_str(&mut out, "}");
    push_str(&mut out, ".badge text{fill:");
    push_str(&mut out, palette.badge_text);
    push_str(&mut out, "}");
    push_str(&mut out, ".edge-label{fill:");
    push_str(&mut out, palette.text_muted);
    push_str(&mut out, "}");
    push_str(&mut out, ".ghost-bg{fill:");
    push_str(&mut out, palette.card);
    push_str(&mut out, ";stroke:");
    push_str(&mut out, palette.card_border);
    push_str(&mut out, ";stroke-dasharray:5 4}");
    push_str(&mut out, ".card-expanded-bg{fill:none;display:none}");
    push_str(&mut out, ".card-expanded-outline{fill:none;stroke:");
    push_str(&mut out, palette.card_border);
    push_str(&mut out, ";display:none}");
    push_str(&mut out, ".row-more-bg{fill:");
    push_str(&mut out, palette.row_alt);
    push_str(&mut out, "}");
    push_str(&mut out, ".row-more-label{fill:");
    push_str(&mut out, palette.text_muted);
    push_str(&mut out, "}");
    push_str(&mut out, ".card-extra-rows{display:none}");
    push_str(&mut out, ".row-more-close{display:none}");
    out
}

/// The parts of a card's tooltip, in order.
pub open spec fn tooltip_parts(
    name: Seq<char>,
    primary_key: Option<Seq<char>>,
    field_count: nat,
    hidden_field_count: nat,
    relation_count: nat,
) -> Seq<Seq<char>> {
    seq![name] + match primary_key {
        Some(pk) => seq!["primary key: "@ + pk],
        None => seq![],
    } + seq![decimal(field_count) + " fields"@] + if hidden_field_count > 0 {
        seq![decimal(hidden_field_count) + " hidden"@]
    } else {
        seq![]
    } + seq![decimal(relation_count) + " relations"@]
}

/// `parts` joined with `sep`.
pub open spec fn joined(parts: Seq<Seq<char>>, sep: Seq<char>) -> Seq<char>
    decreases parts.len(),
{
    if parts.len() == 0 {
        seq![]
    } else if parts.len() == 1 {
        parts[0]
    } else {
        joined(parts.drop_last(), sep) + sep + parts.last()
    }
}

/// The tooltip of a table card: its name, primary key, field count, hidden
/// field count (when there are any) and relation count, joined by ` · `.
pub fn card_tooltip(
    name: &str,
    primary_key: &Option<String>,
    field_count: usize,
    hidden_field_count: usize,
    relation_count: usize,
) -> (r: String)
    ensures
        r@ == joined(
            tooltip_parts(
                name@,
                crate::parse::opt_view(*primary_key),
                field_count as nat,
                hidden_field_count as nat,
                relation_count as nat,
            ),
            " · "@,
        ),
{
    let ghost parts = tooltip_parts(
        name@,
        crate::parse::opt_view(*primary_key),
        field_count as nat,
        hidden_field_count as nat,
        relation_count as nat,
    );
    let mut out = String::new();
    push_str(&mut out, name);
    let ghost k: int = 1;
    assert(parts.take(1) =~= seq![name@]);
    assert(out@ == joined(parts.take(1), " · "@));
    match primary_key {
        Some(pk) => {
            push_str(&mut out, " · ");
            push_str(&mut out, "primary key: ");
            push_str(&mut out, pk.as_str());
            proof {
                assert(parts.take(2).drop_last() =~= parts.take(1));
                assert(parts[1] == "primary key: "@ + pk@);
                assert(out@ == joined(parts.take(2), " · "@));
                k = 2;
            }
        },
        None => {},
    }
    assert(out@ == joined(parts.take(k), " · "@));
    push_str(&mut out, " · ");
    push_decimal(&mut out, field_count as u64);
    push_str(&mut out, " fields");
    proof {
        assert(parts.take(k + 1).drop_last() =~= parts.take(k));
        assert(parts[k] == decimal(field_count as nat) + " fields"@);
        assert(out@ == joined(parts.take(k + 1), " · "@));
        k = k + 1;
    }
    if hidden_field_count > 0 {
        push_str(&mut out, " · ");
        push_decimal(&mut out, hidden_field_count as u64);
        push_str(&mut out, " hidden");
        proof {
            assert(parts.take(k + 1).drop_last() =~= parts.take(k));
            assert(parts[k] == decimal(hidden_field_count as nat) + " hidden"@);
            assert(out@ == joined(parts.take(k + 1), " · "@));
            k = k + 1;
        }
    }
    push_str(&mut out, " · ");
    push_decimal(&mut out, relation_count as u64);
    push_str(&mut out, " relations");
    proof {
        assert(parts.take(k + 1).drop_last() =~= parts.take(k));
        assert(parts[k] == decimal(relation_count as nat) + " relations"@);
        assert(out@ == joined(parts.take(k + 1), " · "@));
        assert(k + 1 == parts.len());
        lemma_take_all(parts);
    }
    out
}

/// The stroke path of a field icon, by glyph name; an unknown name gets the
/// question-mark icon.
pub open spec fn spec_icon_strokes(glyph: Seq<char>) -> Seq<char> {
    if glyph == "boolean"@ {
        "M2 5.4L4.1 7.6L8.2 2.9"@
    } else if glyph == "number"@ {
        "M3.4 1.6L2.4 8.4M7.2 1.6L6.2 8.4M1.4 3.6H8.2M1.1 6.4H7.9"@
    } else if glyph == "date"@ {
        "M1.4 2.6H8.6M1.4 2.6V8.4H8.6V2.6M3.2 1.2V3.6M6.8 1.2V3.6"@
    } else if glyph == "time"@ {
        "M5 1.4A3.6 3.6 0 1 1 4.99 1.4M5 2.9V5.2L6.7 6.4"@
    } else if glyph == "text"@ {
        "M1.4 2.6H8.6M1.4 5H8.6M1.4 7.4H6.2"@
    } else if glyph == "blob"@ {
        "M1.6 2.4H8.4M1.6 5H8.4M1.6 7.6H8.4M3 1.2V8.8"@
    } else if glyph == "image"@ {
        "M1.2 1.6H8.8V8.4H1.2ZM1.2 6.6L3.6 4.2L5.6 6.2L7 5L8.8 6.8"@
    } else {
        "M5 1.4A3.6 3.6 0 1 1 4.99 1.4M5 7.6V7.61M3.6 4.1A1.4 1.4 0 1 1 5 5.6V6.2"@
    }
}

/// Small inline vector icons are redrawn as geometry rather than shipping
/// bitmap field icons, so the output has zero external asset dependencies;
/// this is the stroke path of each.
pub fn icon_strokes(glyph: &str) -> (r: &'static str)
    ensures
        r@ == spec_icon_strokes(glyph@),
{
    if crate::text::is_lit(glyph, "boolean") {
        "M2 5.4L4.1 7.6L8.2 2.9"
    } else if crate::text::is_lit(glyph, "number") {
        "M3.4 1.6L2.4 8.4M7.2 1.6L6.2 8.4M1.4 3.6H8.2M1.1 6.4H7.9"
    } else if crate::text::is_lit(glyph, "date") {
        "M1.4 2.6H8.6M1.4 2.6V8.4H8.6V2.6M3.2 1.2V3.6M6.8 1.2V3.6"
    } else if crate::text::is_lit(glyph, "time") {
        "M5 1.4A3.6 3.6 0 1 1 4.99 1.4M5 2.9V5.2L6.7 6.4"
    } else if crate::text::is_lit(glyph, "text") {
        "M1.4 2.6H8.6M1.4 5H8.6M1.4 7.4H6.2"
    } else if crate::text::is_lit(glyph, "blob") {
        "M1.6 2.4H8.4M1.6 5H8.4M1.6 7.6H8.4M3 1.2V8.8"
    } else if crate::text::is_lit(glyph, "image") {
        "M1.2 1.6H8.8V8.4H1.2ZM1.2 6.6L3.6 4.2L5.6 6.2L7 5L8.8 6.8"
    } else {
        "M5 1.4A3.6 3.6 0 1 1 4.99 1.4M5 7.6V7.61M3.6 4.1A1.4 1.4 0 1 1 5 5.6V6.2"
    }
}

} // verus!
