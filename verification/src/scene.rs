//! The decisions of the geometric scene that carry no geometry: field
//! badges, type labels, glyph names, card numbering and card collapsing.
//!
//! Card sizes, positions and edge paths are measured in floating point by
//! the application; everything they are built from is decided here.

use vstd::prelude::*;

use crate::layout::LayoutMode;
use crate::model::{spec_display_code, Field, Table};
use crate::select::{Endpoint, Selection};
use crate::text::{decimal, lemma_take_all, push_decimal, push_signed, push_str, signed_decimal};
use crate::types::{spec_type_label, Glyph};

verus! {

/// A card with more than this many visible fields is rendered collapsed in
/// the interactive HTML output.
pub const COLLAPSE_MIN_FIELDS: usize = 10;

/// How many field rows a collapsed card keeps on screen. The row freed up by
/// collapsing carries the "Show N more" affordance, so a collapsed card is
/// `COLLAPSE_VISIBLE_ROWS + 1` rows tall.
pub const COLLAPSE_VISIBLE_ROWS: usize = 8;

/// A marker shown next to a field.
#[derive(Debug, Clone, Copy, PartialEq, Eq, Structural)]
pub enum Badge {
    /// Primary key.
    Key,
    Unique,
    Indexed,
    Mandatory,
    /// 4D-internal (`visible="false"`) field.
    Hidden,
}

impl Badge {
    /// The letter drawn in the badge.
    pub fn letter(self) -> (r: &'static str)
        ensures
            r@ == match self {
                Badge::Key => "K"@,
                Badge::Unique => "U"@,
                Badge::Indexed => "I"@,
                Badge::Mandatory => "M"@,
                Badge::Hidden => "H"@,
            },
    {
        match self {
            Badge::Key => "K",
            Badge::Unique => "U",
            Badge::Indexed => "I",
            Badge::Mandatory => "M",
            Badge::Hidden => "H",
        }
    }

    /// The tooltip of the badge.
    pub fn title(self) -> (r: &'static str)
        ensures
            r@ == match self {
                Badge::Key => "primary key"@,
                Badge::Unique => "unique"@,
                Badge::Indexed => "indexed"@,
                Badge::Mandatory => "mandatory"@,
                Badge::Hidden => "hidden (4D-internal) field"@,
            },
    {
        match self {
            Badge::Key => "primary key",
            Badge::Unique => "unique",
            Badge::Indexed => "indexed",
            Badge::Mandatory => "mandatory",
            Badge::Hidden => "hidden (4D-internal) field",
        }
    }
}

/// The badges of a field, in drawing order: key, unique (unless it is the
/// key), indexed, mandatory (also when it may never be null), hidden.
pub open spec fn spec_badges(f: Field) -> Seq<Badge> {
    (if f.is_primary_key {
        seq![Badge::Key]
    } else {
        seq![]
    }) + (if f.unique && !f.is_primary_key {
        seq![Badge::Unique]
    } else {
        seq![]
    }) + (if f.indexed {
        seq![Badge::Indexed]
    } else {
        seq![]
    }) + (if f.mandatory || f.never_null {
        seq![Badge::Mandatory]
    } else {
        seq![]
    }) + (if f.hidden {
        seq![Badge::Hidden]
    } else {
        seq![]
    })
}

/// The badges shown next to a field.
pub fn badges_for(field: &Field) -> (r: Vec<Badge>)
    ensures
        r@ == spec_badges(*field),
{
    let mut badges: Vec<Badge> = Vec::new();
    if field.is_primary_key {
        badges.push(Badge::Key);
    }
    if field.unique && !field.is_primary_key {
        badges.push(Badge::Unique);
    }
    if field.indexed {
        badges.push(Badge::Indexed);
    }
    if field.mandatory || field.never_null {
        badges.push(Badge::Mandatory);
    }
    if field.hidden {
        badges.push(Badge::Hidden);
    }
    assert(badges@ =~= spec_badges(*field));
    badges
}

/// The type text of a field: its label, followed by the length limit in
/// parentheses when one is set.
pub open spec fn spec_type_badge_text(f: Field) -> Seq<char> {
    let label = spec_type_label(spec_display_code(f));
    match f.limiting_length {
        Some(len) => if len > 0 {
            label + "("@ + signed_decimal(len as int) + ")"@
        } else {
            label
        },
        None => label,
    }
}

/// The type text shown on a field row.
pub fn type_badge_text(field: &Field) -> (r: String)
    ensures
        r@ == spec_type_badge_text(*field),
{
    let mut out = field.type_label();
    match field.limiting_length {
        Some(len) => if len > 0 {
            push_str(&mut out, "(");
            push_signed(&mut out, len);
            push_str(&mut out, ")");
        },
        None => {},
    }
    out
}

/// The icon name of a glyph family.
pub open spec fn spec_glyph_name(glyph: Glyph) -> Seq<char> {
    match glyph {
        Glyph::Boolean => "boolean"@,
        Glyph::Number => "number"@,
        Glyph::Date => "date"@,
        Glyph::Time => "time"@,
        Glyph::Text => "text"@,
        Glyph::Blob => "blob"@,
        Glyph::Image => "image"@,
        Glyph::Object => "object"@,
        Glyph::Unknown => "unknown"@,
    }
}

/// The icon name of a glyph family.
pub fn glyph_name(glyph: Glyph) -> (r: &'static str)
    ensures
        r@ == spec_glyph_name(glyph),
{
    match glyph {
        Glyph::Boolean => "boolean",
        Glyph::Number => "number",
        Glyph::Date => "date",
        Glyph::Time => "time",
        Glyph::Text => "text",
        Glyph::Blob => "blob",
        Glyph::Image => "image",
        Glyph::Object => "object",
        Glyph::Unknown => "unknown",
    }
}

/// The card of an endpoint: tables first, then ghosts.
pub open spec fn spec_card_index(tables: nat, e: Endpoint) -> int {
    match e {
        Endpoint::Table(i) => i as int,
        Endpoint::Stub(i) => tables + i,
    }
}

/// The card of an endpoint: table cards come first, ghost cards after them.
pub fn card_index(selection: &Selection, endpoint: Endpoint) -> (r: usize)
    requires
        match endpoint {
            Endpoint::Stub(i) => selection.tables@.len() + i <= usize::MAX,
            Endpoint::Table(_) => true,
        },
    ensures
        r as int == spec_card_index(selection.tables@.len(), endpoint),
{
    match endpoint {
        Endpoint::Table(i) => i,
        Endpoint::Stub(i) => selection.tables.len() + i,
    }
}

/// What a scene is built for.
pub struct SceneOptions {
    pub title: String,
    pub layout: LayoutMode,
    pub hide_system_fields: bool,
    /// Collapse dense cards behind a "Show N more" toggle. HTML only.
    pub collapse_dense_cards: bool,
}

/// How many rows a card keeps visible: a card with more than
/// [`COLLAPSE_MIN_FIELDS`] visible fields keeps [`COLLAPSE_VISIBLE_ROWS`]
/// when collapsing is asked for; otherwise every row shows.
pub open spec fn spec_collapsed_rows(collapse: bool, visible: nat) -> Option<usize> {
    if collapse && visible > COLLAPSE_MIN_FIELDS {
        Some(COLLAPSE_VISIBLE_ROWS)
    } else {
        None
    }
}

/// How many rows a card keeps visible when collapsed, if it is.
pub fn collapsed_rows(collapse: bool, visible: usize) -> (r: Option<usize>)
    ensures
        r == spec_collapsed_rows(collapse, visible as nat),
{
    if collapse && visible > COLLAPSE_MIN_FIELDS {
        Some(COLLAPSE_VISIBLE_ROWS)
    } else {
        None
    }
}

/// The row slot of the `n`-th visible field: rows past the cut of a
/// collapsed card move down one slot, below the "Show N more" row.
pub fn row_slot(n: usize, collapsed: Option<usize>) -> (r: usize)
    requires
        n < usize::MAX,
    ensures
        r == match collapsed {
            Some(keep) => if n >= keep {
                n + 1
            } else {
                n as int
            },
            None => n as int,
        },
{
    match collapsed {
        Some(keep) => if n >= keep {
            n + 1
        } else {
            n
        },
        None => n,
    }
}

/// `N field` or `N fields`.
pub open spec fn spec_field_count_text(n: nat) -> Seq<char> {
    decimal(n) + " field"@ + if n == 1 {
        seq![]
    } else {
        "s"@
    }
}

/// The field count shown in a card header.
pub fn field_count_text(n: usize) -> (r: String)
    ensures
        r@ == spec_field_count_text(n as nat),
{
    let mut out = String::new();
    push_decimal(&mut out, n as u64);
    push_str(&mut out, " field");
    if n != 1 {
        push_str(&mut out, "s");
    } else {
        assert(out@ =~= out@ + Seq::<char>::empty());
    }
    out
}

/// How many of `fields` are hidden.
pub open spec fn hidden_count(fields: Seq<Field>) -> nat
    decreases fields.len(),
{
    if fields.len() == 0 {
        0
    } else {
        hidden_count(fields.drop_last()) + if fields.last().hidden {
            1nat
        } else {
            0nat
        }
    }
}

/// How many fields of `table` are hidden.
pub fn hidden_field_count(table: &Table) -> (r: usize)
    ensures
        r == hidden_count(table.fields@),
{
    let mut n: usize = 0;
    let mut i: usize = 0;
    while i < table.fields.len()
        invariant
            i <= table.fields@.len(),
            n == hidden_count(table.fields@.take(i as int)),
            n <= i,
        decreases table.fields@.len() - i,
    {
        assert(table.fields@.take(i as int + 1).drop_last() == table.fields@.take(i as int));
        if table.fields[i].hidden {
            n = n + 1;
        }
        i = i + 1;
    }
    proof {
        lemma_take_all(table.fields@);
    }
    n
}

} // verus!
