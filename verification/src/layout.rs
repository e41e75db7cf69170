//! Positioning modes.
//!
//! Two modes, both fully deterministic:
//!
//! * `as-designed` reuses the `left`/`top` the human designer arranged in 4D's
//!   own structure editor. Only the *position* is taken from the XML — card
//!   size is always recomputed from the tool's own text metrics. Tables that
//!   carry no coordinates are auto-placed into free space below the rest.
//! * `auto` ignores stored coordinates and runs a fixed-seed relaxation over
//!   the relation graph.

use vstd::prelude::*;

verus! {

/// How cards are positioned.
#[derive(Debug, Clone, Copy, PartialEq, Eq, Structural)]
pub enum LayoutMode {
    AsDesigned,
    Auto,
}

/// The mode a command-line value names.
pub open spec fn spec_parse_layout(value: Seq<char>) -> Option<LayoutMode> {
    if value == "as-designed"@ {
        Some(LayoutMode::AsDesigned)
    } else if value == "auto"@ {
        Some(LayoutMode::Auto)
    } else {
        None
    }
}

/// The command-line name of a mode.
pub open spec fn spec_layout_name(mode: LayoutMode) -> Seq<char> {
    match mode {
        LayoutMode::AsDesigned => "as-designed"@,
        LayoutMode::Auto => "auto"@,
    }
}

impl LayoutMode {
    /// `as-designed` or `auto`; anything else is no mode.
    pub fn parse(value: &str) -> (r: Option<LayoutMode>)
        ensures
            r == spec_parse_layout(value@),
    {
        if crate::text::is_lit(value, "as-designed") {
            Some(LayoutMode::AsDesigned)
        } else if crate::text::is_lit(value, "auto") {
            Some(LayoutMode::Auto)
        } else {
            None
        }
    }

    /// The command-line name of the mode.
    pub fn as_str(self) -> (r: &'static str)
        ensures
            r@ == spec_layout_name(self),
    {
        match self {
            LayoutMode::AsDesigned => "as-designed",
            LayoutMode::Auto => "auto",
        }
    }
}

/// Naming a mode and reading the name back gives the mode again.
pub proof fn layout_names_round_trip(mode: LayoutMode)
    ensures
        spec_parse_layout(spec_layout_name(mode)) == Some(mode),
{
    reveal_strlit("as-designed");
    reveal_strlit("auto");
    assert("as-designed"@.len() == 11 && "auto"@.len() == 4);
}

} // verus!
