//! The text side of the single-file interactive HTML renderer: the options,
//! the sidebar, the toolbar and the escaping of the inline data payload.
//!
//! Everything — CSS, JS, geometry — is inlined in the document. With
//! JavaScript disabled it still shows the fully rendered, legible diagram,
//! because the SVG is generated server-side rather than built in the browser.

use vstd::prelude::*;

use crate::inspect::{name_keys, name_order};
use crate::order::{key_views, sorted_positions};
use crate::render_svg::{esc_attr, esc_text, spec_esc_attr, spec_esc_text, Theme};
use crate::text::{
    chars_of, concat, decimal, lemma_concat_step, lemma_take_all, lemma_views_push, push_char,
    push_decimal, push_str, views,
};

verus! {

/// How the HTML document starts out.
pub struct HtmlOptions {
    pub theme: Theme,
    /// The variant shown on load, and the one the no-JS fallback displays.
    pub default_layout: &'static str,
    pub default_hide_system_fields: bool,
    pub generated_at: Option<String>,
    pub command: String,
}

/// The `data-theme` value of a theme.
pub open spec fn spec_theme_attr(theme: Theme) -> Seq<char> {
    match theme {
        Theme::Light => "light"@,
        Theme::Dark => "dark"@,
        Theme::Auto => "auto"@,
    }
}

/// The `data-theme` value of a theme.
pub fn theme_attr(theme: Theme) -> (r: &'static str)
    ensures
        r@ == spec_theme_attr(theme),
{
    match theme {
        Theme::Light => "light",
        Theme::Dark => "dark",
        Theme::Auto => "auto",
    }
}

/// What one character of serialized JSON becomes inside an inline
/// `<script>`: `<`, `>` and `&` as unicode escapes.
pub open spec fn script_char(c: char) -> Seq<char> {
    if c == '<' {
        "\\u003c"@
    } else if c == '>' {
        "\\u003e"@
    } else if c == '&' {
        "\\u0026"@
    } else {
        seq![c]
    }
}

/// Serialized JSON made safe for an inline `<script>`.
pub open spec fn spec_json_for_script(json: Seq<char>) -> Seq<char>
    decreases json.len(),
{
    if json.len() == 0 {
        seq![]
    } else {
        spec_json_for_script(json.drop_last()) + script_char(json.last())
    }
}

/// JSON serialization already escapes quotes and backslashes; the remaining
/// risk in an inline `<script>` is a literal `</script>` (or `<!--`) inside a
/// string, so `<`, `>` and `&` are escaped as unicode escapes, which are
/// valid inside JSON strings and parse back to the original characters.
pub fn json_for_script(json: &str) -> (r: String)
    ensures
        r@ == spec_json_for_script(json@),
{
    let chars = chars_of(json);
    let mut out = String::new();
    let mut i: usize = 0;
    while i < chars.len()
        invariant
            i <= chars@.len(),
            chars@ == json@,
            out@ == spec_json_for_script(chars@.take(i as int)),
        decreases chars@.len() - i,
    {
        let c = chars[i];
        assert(chars@.take(i as int + 1).drop_last() == chars@.take(i as int));
        if c == '<' {
            push_str(&mut out, "\\u003c");
        } else if c == '>' {
            push_str(&mut out, "\\u003e");
        } else if c == '&' {
            push_str(&mut out, "\\u0026");
        } else {
            push_char(&mut out, c);
        }
        i = i + 1;
    }
    proof {
        lemma_take_all(chars@);
    }
    out
}

/// The script payload never holds `<`, `>` or `&`, so no `</script>` can end
/// the script block early.
pub proof fn script_payload_is_inert(json: Seq<char>)
    ensures
        forall|i: int| 0 <= i < spec_json_for_script(json).len() ==> {
            let c = #[trigger] spec_json_for_script(json)[i];
            c != '<' && c != '>' && c != '&'
        },
    decreases json.len(),
{
    reveal_strlit("\\u003c");
    reveal_strlit("\\u003e");
    reveal_strlit("\\u0026");
    if json.len() > 0 {
        script_payload_is_inert(json.drop_last());
        let a = spec_json_for_script(json.drop_last());
        let b = script_char(json.last());
        assert forall|i: int| 0 <= i < spec_json_for_script(json).len() implies {
            let c = #[trigger] spec_json_for_script(json)[i];
            c != '<' && c != '>' && c != '&'
        } by {
            if i < a.len() {
                assert(spec_json_for_script(json)[i] == a[i]);
            } else {
                assert(spec_json_for_script(json)[i] == b[i - a.len()]);
            }
        }
    }
}

/// The zoom controls.
pub open spec fn spec_toolbar() -> Seq<char> {
    "<div id=\"toolbar\" role=\"group\" aria-label=\"Zoom controls\"><button type=\"button\" id=\"zoom-out\" title=\"Zoom out\">−</button><button type=\"button\" id=\"zoom-fit\" title=\"Fit to screen\">Fit</button><button type=\"button\" id=\"zoom-in\" title=\"Zoom in\">+</button></div>"@
}

/// The zoom controls.
pub fn toolbar() -> (r: String)
    ensures
        r@ == spec_toolbar(),
{
    String::from_str(
        "<div id=\"toolbar\" role=\"group\" aria-label=\"Zoom controls\"><button type=\"button\" id=\"zoom-out\" title=\"Zoom out\">−</button><button type=\"button\" id=\"zoom-fit\" title=\"Fit to screen\">Fit</button><button type=\"button\" id=\"zoom-in\" title=\"Zoom in\">+</button></div>",
    )
}

/// What the sidebar shows of one card of the default scene.
#[derive(Debug, Clone)]
pub struct CardEntry {
    pub name: String,
    pub external: bool,
    pub accent: String,
    pub field_count: usize,
}

/// The switches of one pre-built variant.
#[derive(Debug, Clone)]
pub struct VariantFlags {
    pub layout: String,
    pub hide_system_fields: bool,
}

/// Whether variant `v` is the one the options ask to show first.
pub open spec fn is_requested(v: VariantFlags, layout: Seq<char>, hide: bool) -> bool {
    v.layout@ == layout && v.hide_system_fields == hide
}

/// The variant shown on load: the first one with the requested layout and
/// system-field switch, else the first one.
pub fn default_variant(variants: &Vec<VariantFlags>, options: &HtmlOptions) -> (r: usize)
    requires
        variants@.len() > 0,
    ensures
        r < variants@.len(),
        is_requested(variants@[r as int], options.default_layout@, options.default_hide_system_fields)
            ==> forall|j: int| 0 <= j < r ==> !is_requested(
            #[trigger] variants@[j],
            options.default_layout@,
            options.default_hide_system_fields,
        ),
        !is_requested(variants@[r as int], options.default_layout@, options.default_hide_system_fields)
            ==> r == 0 && forall|j: int| 0 <= j < variants@.len() ==> !is_requested(
            #[trigger] variants@[j],
            options.default_layout@,
            options.default_hide_system_fields,
        ),
{
    let mut i: usize = 0;
    while i < variants.len()
        invariant
            i <= variants@.len(),
            forall|j: int| 0 <= j < i ==> !is_requested(
                #[trigger] variants@[j],
                options.default_layout@,
                options.default_hide_system_fields,
            ),
        decreases variants@.len() - i,
    {
        let v = &variants[i];
        if crate::text::is_lit(v.layout.as_str(), options.default_layout)
            && v.hide_system_fields == options.default_hide_system_fields {
            return i;
        }
        i = i + 1;
    }
    0
}

/// `s` when `n` is not one: the plural ending.
pub open spec fn plural(n: nat) -> Seq<char> {
    if n == 1 {
        seq![]
    } else {
        "s"@
    }
}

/// How many of `cards` are tables (not ghosts).
pub open spec fn table_card_count(cards: Seq<CardEntry>) -> nat
    decreases cards.len(),
{
    if cards.len() == 0 {
        0
    } else {
        table_card_count(cards.drop_last()) + if cards.last().external {
            0nat
        } else {
            1nat
        }
    }
}

/// The sidebar heading: title, then table, relation and (when there are any)
/// external counts.
pub open spec fn sidebar_header(title: Seq<char>, cards: Seq<CardEntry>, edge_count: nat) -> Seq<char> {
    let tables = table_card_count(cards);
    let ghosts = cards.len() - tables;
    "<aside id=\"sidebar\">"@ + "<header><h1>"@ + spec_esc_text(title) + "</h1><p class=\"counts\">"@
        + decimal(tables) + " table"@ + plural(tables) + " · "@ + decimal(edge_count)
        + " relation"@ + plural(edge_count) + if ghosts > 0 {
        " · "@ + decimal(ghosts as nat) + " external"@
    } else {
        seq![]
    } + "</p></header>"@
}

/// The sidebar's table filter box.
pub open spec fn search_box() -> Seq<char> {
    "<div class=\"search\"><input id=\"search\" type=\"search\" placeholder=\"Filter tables…\" autocomplete=\"off\" spellcheck=\"false\"></div>"@
}

/// The sidebar list entry of a card.
pub open spec fn card_item(c: CardEntry) -> Seq<char> {
    "<li><button type=\"button\" data-target=\""@ + spec_esc_attr(c.name@) + "\" class=\"table-item"@
        + if c.external {
        " is-ghost"@
    } else {
        seq![]
    } + "\"><span class=\"swatch\" style=\"background:"@ + spec_esc_attr(c.accent@)
        + "\"></span><span class=\"label\">"@ + spec_esc_text(c.name@)
        + "</span><span class=\"count\">"@ + if c.external {
        "ext"@
    } else {
        decimal(c.field_count as nat)
    } + "</span></button></li>"@
}

/// The names of `cards`.
pub open spec fn card_names(cards: Seq<CardEntry>) -> Seq<Seq<char>> {
    cards.map_values(|c: CardEntry| c.name@)
}

/// The table list: one entry per card, sorted by name.
pub open spec fn sidebar_list(cards: Seq<CardEntry>) -> Seq<char> {
    let order = name_order(card_names(cards));
    "<ul id=\"table-list\">"@ + concat(order.map_values(|i: int| card_item(cards[i]))) + "</ul>"@
}

/// Whether both system-field states and both layouts were pre-built.
pub open spec fn has_hidden_variant(variants: Seq<VariantFlags>) -> bool {
    (exists|i: int| 0 <= i < variants.len() && #[trigger] variants[i].hide_system_fields)
        && (exists|i: int| 0 <= i < variants.len() && !#[trigger] variants[i].hide_system_fields)
}

/// Whether both layouts were pre-built.
pub open spec fn has_both_layouts(variants: Seq<VariantFlags>) -> bool {
    (exists|i: int| 0 <= i < variants.len() && #[trigger] variants[i].layout@ == "auto"@) && (exists|
        i: int,
    |
        0 <= i < variants.len() && #[trigger] variants[i].layout@ == "as-designed"@)
}

/// A toggle: enabled and reflecting the default when both states exist,
/// disabled otherwise.
pub open spec fn toggle(id: Seq<char>, label: Seq<char>, available: bool, on: bool) -> Seq<char> {
    "<label class=\"toggle"@ + if available {
        seq![]
    } else {
        " is-disabled"@
    } + "\"><input type=\"checkbox\" id=\""@ + id + "\""@ + if available {
        if on {
            " checked"@
        } else {
            seq![]
        }
    } else {
        " disabled"@
    } + "> "@ + label + "</label>"@
}

/// The option toggles.
pub open spec fn sidebar_options(variants: Seq<VariantFlags>, o: HtmlOptions) -> Seq<char> {
    "<div class=\"options\">"@ + toggle(
        "toggle-system"@,
        "Hide 4D-internal fields"@,
        has_hidden_variant(variants),
        o.default_hide_system_fields,
    ) + toggle(
        "toggle-layout"@,
        "Automatic layout"@,
        has_both_layouts(variants),
        o.default_layout@ == "auto"@,
    ) + "<label class=\"toggle\"><input type=\"checkbox\" id=\"toggle-theme\"> Dark theme</label>"@
        + "</div>"@
}

/// The export buttons and the optional timestamp.
pub open spec fn sidebar_footer(o: HtmlOptions) -> Seq<char> {
    "<footer><div class=\"exports\"><button type=\"button\" id=\"export-svg\">Export SVG</button><button type=\"button\" id=\"export-png\">Export PNG</button></div>"@
        + match o.generated_at {
        Some(stamp) => "<p class=\"stamp\">"@ + spec_esc_text(stamp@) + "</p>"@,
        None => seq![],
    } + "</footer></aside>"@
}

/// The whole sidebar.
pub open spec fn spec_sidebar(
    title: Seq<char>,
    cards: Seq<CardEntry>,
    edge_count: nat,
    variants: Seq<VariantFlags>,
    o: HtmlOptions,
) -> Seq<char> {
    sidebar_header(title, cards, edge_count) + search_box() + sidebar_list(cards) + sidebar_options(
        variants,
        o,
    ) + sidebar_footer(o)
}

fn push_plural(out: &mut String, n: usize)
    ensures
        final(out)@ == old(out)@ + plural(n as nat),
{
    if n != 1 {
        push_str(out, "s");
    } else {
        assert(old(out)@ + plural(n as nat) =~= old(out)@);
    }
}

fn header_text(title: &str, cards: &Vec<CardEntry>, edge_count: usize) -> (r: String)
    ensures
        r@ == sidebar_header(title@, cards@, edge_count as nat),
{
    let mut tables: usize = 0;
    let mut i: usize = 0;
    while i < cards.len()
        invariant
            i <= cards@.len(),
            tables == table_card_count(cards@.take(i as int)),
            tables <= i,
        decreases cards@.len() - i,
    {
        assert(cards@.take(i as int + 1).drop_last() == cards@.take(i as int));
        if !cards[i].external {
            tables = tables + 1;
        }
        i = i + 1;
    }
    proof {
        lemma_take_all(cards@);
    }
    let ghosts = cards.len() - tables;
    let mut out = String::new();
    push_str(&mut out, "<aside id=\"sidebar\">");
    push_str(&mut out, "<header><h1>");
    let t = esc_text(title);
    push_str(&mut out, t.as_str());
    push_str(&mut out, "</h1><p class=\"counts\">");
    push_decimal(&mut out, tables as u64);
    push_str(&mut out, " table");
    push_plural(&mut out, tables);
    push_str(&mut out, " · ");
    push_decimal(&mut out, edge_count as u64);
    push_str(&mut out, " relation");
    push_plural(&mut out, edge_count);
    if ghosts > 0 {
        push_str(&mut out, " · ");
        push_decimal(&mut out, ghosts as u64);
        push_str(&mut out, " external");
    }
    push_str(&mut out, "</p></header>");
    out
}

fn card_item_text(c: &CardEntry) -> (r: String)
    ensures
        r@ == card_item(*c),
{
    let mut out = String::new();
    push_str(&mut out, "<li><button type=\"button\" data-target=\"");
    let a = esc_attr(c.name.as_str());
    push_str(&mut out, a.as_str());
    push_str(&mut out, "\" class=\"table-item");
    if c.external {
        push_str(&mut out, " is-ghost");
    }
    push_str(&mut out, "\"><span class=\"swatch\" style=\"background:");
    let accent = esc_attr(c.accent.as_str());
    push_str(&mut out, accent.as_str());
    push_str(&mut out, "\"></span><span class=\"label\">");
    let label = esc_text(c.name.as_str());
    push_str(&mut out, label.as_str());
    push_str(&mut out, "</span><span class=\"count\">");
    if c.external {
        push_str(&mut out, "ext");
    } else {
        push_decimal(&mut out, c.field_count as u64);
    }
    push_str(&mut out, "</span></button></li>");
    out
}

fn list_text(cards: &Vec<CardEntry>) -> (r: String)
    ensures
        r@ == sidebar_list(cards@),
{
    let ghost cn = card_names(cards@);
    let mut names: Vec<String> = Vec::new();
    let mut i: usize = 0;
    while i < cards.len()
        invariant
            i <= cards@.len(),
            cn == card_names(cards@),
            views(names@) == cn.take(i as int),
        decreases cards@.len() - i,
    {
        let n = cards[i].name.clone();
        proof {
            lemma_views_push(names@, n);
        }
        names.push(n);
        assert(cn.take(i as int + 1) =~= cn.take(i as int).push(cards@[i as int].name@));
        i = i + 1;
    }
    proof {
        lemma_take_all(cn);
    }
    let mut keys: Vec<Vec<String>> = Vec::new();
    let mut j: usize = 0;
    while j < names.len()
        invariant
            j <= names@.len(),
            key_views(keys@) == name_keys(views(names@)).take(j as int),
        decreases names@.len() - j,
    {
        let mut key: Vec<String> = Vec::new();
        key.push(names[j].clone());
        assert(views(key@) =~= seq![names@[j as int]@]);
        assert(key_views(keys@.push(key)) =~= key_views(keys@).push(views(key@)));
        assert(name_keys(views(names@)).take(j as int + 1) =~= name_keys(views(names@)).take(
            j as int,
        ).push(seq![views(names@)[j as int]]));
        keys.push(key);
        j = j + 1;
    }
    proof {
        lemma_take_all(name_keys(views(names@)));
        assert(key_views(keys@).len() == keys@.len());
    }
    let order = sorted_positions(&keys);
    let ghost o = name_order(cn);
    let ghost parts = o.map_values(|i: int| card_item(cards@[i]));
    let mut out = String::from_str("<ul id=\"table-list\">");
    let ghost head = out@;
    let mut k: usize = 0;
    while k < order.len()
        invariant
            k <= order@.len(),
            order@.len() == cards@.len(),
            o == name_order(card_names(cards@)),
            order@.map_values(|i: usize| i as int) == o,
            parts == o.map_values(|i: int| card_item(cards@[i])),
            forall|q: int| 0 <= q < order@.len() ==> #[trigger] order@[q] < cards@.len(),
            out@ == head + concat(parts.take(k as int)),
        decreases order@.len() - k,
    {
        assert(o[k as int] == order@[k as int] as int);
        let item = card_item_text(&cards[order[k]]);
        proof {
            lemma_concat_step(parts, k as int);
        }
        push_str(&mut out, item.as_str());
        k = k + 1;
    }
    proof {
        lemma_take_all(parts);
    }
    push_str(&mut out, "</ul>");
    out
}

fn toggle_text(id: &str, label: &str, available: bool, on: bool) -> (r: String)
    ensures
        r@ == toggle(id@, label@, available, on),
{
    let mut out = String::new();
    push_str(&mut out, "<label class=\"toggle");
    if !available {
        push_str(&mut out, " is-disabled");
    }
    push_str(&mut out, "\"><input type=\"checkbox\" id=\"");
    push_str(&mut out, id);
    push_str(&mut out, "\"");
    if available {
        if on {
            push_str(&mut out, " checked");
        }
    } else {
        push_str(&mut out, " disabled");
    }
    push_str(&mut out, "> ");
    push_str(&mut out, label);
    push_str(&mut out, "</label>");
    out
}

fn options_text(variants: &Vec<VariantFlags>, options: &HtmlOptions) -> (r: String)
    ensures
        r@ == sidebar_options(variants@, *options),
{
    let mut any_hidden = false;
    let mut any_shown = false;
    let mut any_auto = false;
    let mut any_designed = false;
    let mut i: usize = 0;
    while i < variants.len()
        invariant
            i <= variants@.len(),
            any_hidden == exists|j: int| 0 <= j < i && #[trigger] variants@[j].hide_system_fields,
            any_shown == exists|j: int| 0 <= j < i && !#[trigger] variants@[j].hide_system_fields,
            any_auto == exists|j: int| 0 <= j < i && #[trigger] variants@[j].layout@ == "auto"@,
            any_designed == exists|j: int| 0 <= j < i && #[trigger] variants@[j].layout@ == "as-designed"@,
        decreases variants@.len() - i,
    {
        let v = &variants[i];
        if v.hide_system_fields {
            any_hidden = true;
        } else {
            any_shown = true;
        }
        if crate::text::is_lit(v.layout.as_str(), "auto") {
            any_auto = true;
        }
        if crate::text::is_lit(v.layout.as_str(), "as-designed") {
            any_designed = true;
        }
        i = i + 1;
    }
    let hidden_available = any_hidden && any_shown;
    let layouts_available = any_auto && any_designed;
    let mut out = String::from_str("<div class=\"options\">");
    let a = toggle_text(
        "toggle-system",
        "Hide 4D-internal fields",
        hidden_available,
        options.default_hide_system_fields,
    );
    push_str(&mut out, a.as_str());
    let b = toggle_text(
        "toggle-layout",
        "Automatic layout",
        layouts_available,
        crate::text::is_lit(options.default_layout, "auto"),
    );
    push_str(&mut out, b.as_str());
    push_str(
        &mut out,
        "<label class=\"toggle\"><input type=\"checkbox\" id=\"toggle-theme\"> Dark theme</label>",
    );
    push_str(&mut out, "</div>");
    out
}

fn footer_text(options: &HtmlOptions) -> (r: String)
    ensures
        r@ == sidebar_footer(*options),
{
    let mut out = String::from_str(
        "<footer><div class=\"exports\"><button type=\"button\" id=\"export-svg\">Export SVG</button><button type=\"button\" id=\"export-png\">Export PNG</button></div>",
    );
    match &options.generated_at {
        Some(stamp) => {
            push_str(&mut out, "<p class=\"stamp\">");
            let e = esc_text(stamp.as_str());
            push_str(&mut out, e.as_str());
            push_str(&mut out, "</p>");
        },
        None => {},
    }
    push_str(&mut out, "</footer></aside>");
    out
}

/// The sidebar of the HTML document: the title and counts of the default
/// scene, a filter box, its cards sorted by name, the system-field and
/// layout toggles (enabled only where both states were pre-built), the theme
/// toggle, the export buttons and the optional timestamp.
pub fn sidebar(
    title: &str,
    cards: &Vec<CardEntry>,
    edge_count: usize,
    variants: &Vec<VariantFlags>,
    options: &HtmlOptions,
) -> (r: String)
    ensures
        r@ == spec_sidebar(title@, cards@, edge_count as nat, variants@, *options),
{
    let mut out = header_text(title, cards, edge_count);
    push_str(
        &mut out,
        "<div class=\"search\"><input id=\"search\" type=\"search\" placeholder=\"Filter tables…\" autocomplete=\"off\" spellcheck=\"false\"></div>",
    );
    let list = list_text(cards);
    push_str(&mut out, list.as_str());
    let opts = options_text(variants, options);
    push_str(&mut out, opts.as_str());
    let foot = footer_text(options);
    push_str(&mut out, foot.as_str());
    out
}

} // verus!
