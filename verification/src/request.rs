//! The decisions behind a command line: the table list, where the output
//! goes, which HTML variants are pre-built and how the command is echoed
//! into the document.

use vstd::prelude::*;

use crate::error::AppError;
use crate::layout::LayoutMode;
use crate::model::{Catalog, Field};
use crate::render_html::plural;
use crate::render_svg::{joined, Theme};
use crate::select::Selection;
use crate::text::{
    chars_of, debug_quoted, debug_text, decimal, lemma_take_all, lemma_views_push, position_in,
    position_in_meaning, position_from, push_decimal, push_str, string_range, trim, trimmed, views,
};

verus! {

/// `s` cut at every `,`.
pub open spec fn split_commas(s: Seq<char>) -> Seq<Seq<char>>
    decreases s.len(),
{
    match position_in(s, ',') {
        None => seq![s],
        Some(p) => {
            proof {
                position_in_meaning(s, ',');
            }
            seq![s.take(p)] + split_commas(s.skip(p + 1))
        },
    }
}

/// The trimmed, non-empty entries among `pieces`.
pub open spec fn kept_entries(pieces: Seq<Seq<char>>) -> Seq<Seq<char>>
    decreases pieces.len(),
{
    if pieces.len() == 0 {
        seq![]
    } else {
        let rest = kept_entries(pieces.drop_last());
        if trim(pieces.last()).len() > 0 {
            rest.push(trim(pieces.last()))
        } else {
            rest
        }
    }
}

/// The table names of a `--tables` list.
pub open spec fn spec_table_list(csv: Seq<char>) -> Seq<Seq<char>> {
    kept_entries(split_commas(csv))
}

fn keep_entry(out: &mut Vec<String>, piece: &Vec<char>, Ghost(pieces): Ghost<Seq<Seq<char>>>)
    requires
        views(old(out)@) == kept_entries(pieces),
    ensures
        views(final(out)@) == kept_entries(pieces.push(piece@)),
{
    assert(pieces.push(piece@).drop_last() == pieces);
    let t = trimmed_text(piece);
    if t.as_str().unicode_len() > 0 {
        proof {
            lemma_views_push(out@, t);
        }
        out.push(t);
    }
}

fn trimmed_text(piece: &Vec<char>) -> (r: String)
    ensures
        r@ == trim(piece@),
{
    let s = crate::text::string_of(piece.as_slice());
    let t = trimmed(s.as_str());
    crate::text::string_of(t.as_slice())
}

/// An explicit table allow-list: the comma-separated entries, trimmed, empty
/// ones dropped.
pub fn table_list(csv: &str) -> (r: Vec<String>)
    ensures
        views(r@) == spec_table_list(csv@),
{
    let v = chars_of(csv);
    let mut out: Vec<String> = Vec::new();
    let ghost mut done: Seq<Seq<char>> = seq![];
    let mut from: usize = 0;
    assert(v@.skip(0) == v@);
    loop
        invariant
            from <= v@.len(),
            v@ == csv@,
            done + split_commas(v@.skip(from as int)) == split_commas(csv@),
            views(out@) == kept_entries(done),
        decreases v@.len() - from,
    {
        let ghost w = v@.skip(from as int);
        proof {
            position_in_meaning(w, ',');
        }
        match position_from(&v, from, ',') {
            None => {
                let piece = chars_of(string_range(&v, from, v.len()).as_str());
                assert(piece@ == w);
                keep_entry(&mut out, &piece, Ghost(done));
                proof {
                    assert(split_commas(w) == seq![w]);
                    assert(done + seq![w] == done.push(w));
                }
                return out;
            },
            Some(p) => {
                let piece = chars_of(string_range(&v, from, p).as_str());
                assert(piece@ == w.take(p - from));
                keep_entry(&mut out, &piece, Ghost(done));
                proof {
                    assert(w.skip(p - from + 1) == v@.skip(p + 1));
                    assert(split_commas(w) == seq![piece@] + split_commas(v@.skip(p + 1)));
                    assert(done + split_commas(w) == done.push(piece@) + split_commas(v@.skip(p + 1)));
                    done = done.push(piece@);
                }
                let len = v.len();
                assert(p < len);
                from = p + 1;
            },
        }
    }
}

/// The output formats.
#[derive(Debug, Clone, Copy, PartialEq, Eq, Structural)]
pub enum OutputFormat {
    Svg,
    Png,
    Html,
}

/// The file extension of a format.
pub open spec fn spec_extension(format: OutputFormat) -> Seq<char> {
    match format {
        OutputFormat::Html => "html"@,
        OutputFormat::Svg => "svg"@,
        OutputFormat::Png => "png"@,
    }
}

/// The file extension of a format.
pub fn extension(format: OutputFormat) -> (r: &'static str)
    ensures
        r@ == spec_extension(format),
{
    match format {
        OutputFormat::Html => "html",
        OutputFormat::Svg => "svg",
        OutputFormat::Png => "png",
    }
}

/// Where rendered bytes go.
#[derive(Debug, Clone, Copy, PartialEq, Eq, Structural)]
pub enum OutputTarget {
    /// Standard output.
    Stdout,
    /// The path given with `-o`.
    Given,
    /// The input path with the format's extension in place of its own.
    NextToInput,
}

/// Where the output goes, or the usage error: `-o -` means standard output
/// (never for PNG); no `-o` means next to the input, which standard input
/// does not have.
pub open spec fn spec_output_target(
    format: OutputFormat,
    output_given: bool,
    output_is_dash: bool,
    input_is_stdin: bool,
) -> Result<OutputTarget, Seq<char>> {
    if output_given {
        if output_is_dash {
            if format == OutputFormat::Png {
                Err("PNG output cannot be written to stdout; pass -o <path>"@)
            } else {
                Ok(OutputTarget::Stdout)
            }
        } else {
            Ok(OutputTarget::Given)
        }
    } else if input_is_stdin {
        Err("reading from stdin requires an explicit -o/--output path"@)
    } else {
        Ok(OutputTarget::NextToInput)
    }
}

/// Where the output goes: standard output, the path given with `-o`, or a
/// file next to the input named after the format.
pub fn resolve_output(
    format: OutputFormat,
    output_given: bool,
    output_is_dash: bool,
    input_is_stdin: bool,
) -> (r: Result<OutputTarget, AppError>)
    ensures
        match (r, spec_output_target(format, output_given, output_is_dash, input_is_stdin)) {
            (Ok(t), Ok(u)) => t == u,
            (Err(e), Err(m)) => e matches AppError::Usage(s) && s@ == m,
            _ => false,
        },
{
    if output_given {
        if output_is_dash {
            if format == OutputFormat::Png {
                Err(AppError::Usage(String::from_str("PNG output cannot be written to stdout; pass -o <path>")))
            } else {
                Ok(OutputTarget::Stdout)
            }
        } else {
            Ok(OutputTarget::Given)
        }
    } else if input_is_stdin {
        Err(AppError::Usage(String::from_str("reading from stdin requires an explicit -o/--output path")))
    } else {
        Ok(OutputTarget::NextToInput)
    }
}

/// Above this many selected tables only the requested variant is built, to
/// keep the document from ballooning.
pub const VARIANT_CARD_BUDGET: usize = 120;

/// The layout/system-field variants the HTML toggles switch between: both
/// layouts for a small enough selection, both system-field states when some
/// selected table has hidden fields and the selection is small enough,
/// otherwise only what was asked for. Layout varies slowest.
pub open spec fn spec_variant_plan(tables: nat, has_hidden: bool, requested: LayoutMode, hide: bool) -> Seq<(LayoutMode, bool)> {
    let small = tables <= VARIANT_CARD_BUDGET;
    let hides: Seq<bool> = if has_hidden && small {
        seq![false, true]
    } else {
        seq![hide]
    };
    if small {
        hides.map_values(|h: bool| (LayoutMode::AsDesigned, h)) + hides.map_values(
            |h: bool| (LayoutMode::Auto, h),
        )
    } else {
        hides.map_values(|h: bool| (requested, h))
    }
}

/// The variants to pre-build.
pub fn variant_plan(tables: usize, has_hidden: bool, requested: LayoutMode, hide: bool) -> (r: Vec<(LayoutMode, bool)>)
    ensures
        r@ == spec_variant_plan(tables as nat, has_hidden, requested, hide),
{
    let small = tables <= VARIANT_CARD_BUDGET;
    let mut hides: Vec<bool> = Vec::new();
    if has_hidden && small {
        hides.push(false);
        hides.push(true);
    } else {
        hides.push(hide);
    }
    let mut layouts: Vec<LayoutMode> = Vec::new();
    if small {
        layouts.push(LayoutMode::AsDesigned);
        layouts.push(LayoutMode::Auto);
    } else {
        layouts.push(requested);
    }
    let mut out: Vec<(LayoutMode, bool)> = Vec::new();
    let mut a: usize = 0;
    while a < layouts.len()
        invariant
            a <= layouts@.len(),
            out@ == Seq::new((a * hides@.len()) as nat, |k: int| (layouts@[k / hides@.len() as int], hides@[k % hides@.len() as int])),
            hides@.len() > 0,
            hides@.len() <= 2,
            layouts@.len() <= 2,
        decreases layouts@.len() - a,
    {
        let mut b: usize = 0;
        while b < hides.len()
            invariant
                a < layouts@.len(),
                b <= hides@.len(),
                hides@.len() > 0,
                hides@.len() <= 2,
                layouts@.len() <= 2,
                out@ == Seq::new((a * hides@.len() + b) as nat, |k: int| (layouts@[k / hides@.len() as int], hides@[k % hides@.len() as int])),
            decreases hides@.len() - b,
        {
            let ghost n = hides@.len() as int;
            let ghost before = out@;
            out.push((layouts[a], hides[b]));
            proof {
                let idx = a * n + b;
                assert(idx / n == a && idx % n == b) by (nonlinear_arith)
                    requires
                        idx == a * n + b,
                        0 <= b < n,
                        0 <= a,
                ;
                assert(out@ =~= Seq::new((a * n + b + 1) as nat, |k: int| (layouts@[k / n], hides@[k % n])));
            }
            b = b + 1;
        }
        proof {
            let n = hides@.len() as int;
            assert((a + 1) * n == a * n + n) by (nonlinear_arith);
        }
        a = a + 1;
    }
    let ghost n = hides@.len() as int;
    proof {
        let spec = spec_variant_plan(tables as nat, has_hidden, requested, hide);
        assert(out@.len() == spec.len());
        assert forall|k: int| 0 <= k < out@.len() implies out@[k] == spec[k] by {
            if n == 2 {
                assert(k / 2 == 0 || k / 2 == 1);
            }
        }
        assert(out@ =~= spec);
    }
    out
}

/// Whether some field of `fields` is hidden.
pub open spec fn any_hidden(fields: Seq<Field>) -> bool {
    exists|j: int| 0 <= j < fields.len() && #[trigger] fields[j].hidden
}

/// Whether some selected table has a hidden field.
pub open spec fn selection_has_hidden(c: Catalog, s: Selection) -> bool {
    exists|k: int| 0 <= k < s.tables@.len() && any_hidden(#[trigger] c.tables@[s.tables@[k] as int].fields@)
}

/// Whether some selected table has a hidden (4D-internal) field.
pub fn has_hidden_fields(catalog: &Catalog, selection: &Selection) -> (r: bool)
    requires
        forall|k: int| 0 <= k < selection.tables@.len() ==> #[trigger] selection.tables@[k] < catalog.tables@.len(),
    ensures
        r == selection_has_hidden(*catalog, *selection),
{
    let mut k: usize = 0;
    while k < selection.tables.len()
        invariant
            k <= selection.tables@.len(),
            forall|q: int| 0 <= q < selection.tables@.len() ==> #[trigger] selection.tables@[q] < catalog.tables@.len(),
            forall|q: int| 0 <= q < k ==> !any_hidden(#[trigger] catalog.tables@[selection.tables@[q] as int].fields@),
        decreases selection.tables@.len() - k,
    {
        let t = &catalog.tables[selection.tables[k]];
        let mut j: usize = 0;
        while j < t.fields.len()
            invariant
                j <= t.fields@.len(),
                k < selection.tables@.len(),
                *t == catalog.tables@[selection.tables@[k as int] as int],
                forall|q: int| 0 <= q < j ==> !(#[trigger] t.fields@[q]).hidden,
            decreases t.fields@.len() - j,
        {
            if t.fields[j].hidden {
                assert(any_hidden(catalog.tables@[selection.tables@[k as int] as int].fields@));
                return true;
            }
            j = j + 1;
        }
        k = k + 1;
    }
    false
}

/// One argument as echoed into the document: quoted when it holds a space.
pub open spec fn quoted_arg(a: Seq<char>) -> Seq<char> {
    if a.contains(' ') {
        debug_quoted(a)
    } else {
        a
    }
}

/// The command line as echoed into the document.
pub open spec fn spec_command_text(args: Seq<Seq<char>>) -> Seq<char> {
    joined(args.map_values(|a: Seq<char>| quoted_arg(a)), " "@)
}

/// The arguments after the program name, joined by spaces, each one that
/// holds a space in its debug (quoted) form.
pub fn command_text(args: &Vec<String>) -> (r: String)
    ensures
        r@ == spec_command_text(views(args@)),
{
    let ghost parts = views(args@).map_values(|a: Seq<char>| quoted_arg(a));
    let mut out = String::new();
    let mut i: usize = 0;
    while i < args.len()
        invariant
            i <= args@.len(),
            parts == views(args@).map_values(|a: Seq<char>| quoted_arg(a)),
            out@ == joined(parts.take(i as int), " "@),
        decreases args@.len() - i,
    {
        let v = chars_of(args[i].as_str());
        proof {
            position_in_meaning(v@, ' ');
        }
        let has_space = crate::text::first_char_position(&v, ' ').is_some();
        assert(views(args@)[i as int] == args@[i as int]@);
        assert(parts[i as int] == quoted_arg(args@[i as int]@));
        if i > 0 {
            push_str(&mut out, " ");
        }
        if has_space {
            let q = debug_text(args[i].as_str());
            push_str(&mut out, q.as_str());
        } else {
            push_str(&mut out, args[i].as_str());
        }
        proof {
            assert(parts.take(i as int + 1).drop_last() == parts.take(i as int));
            if i == 0 {
                assert(parts.take(1) =~= seq![parts[0]]);
            }
        }
        i = i + 1;
    }
    proof {
        lemma_take_all(parts);
    }
    out
}

/// The usage error for an `inspect --format` other than `json`.
pub open spec fn spec_inspect_format(format: Seq<char>) -> Option<Seq<char>> {
    if format == "json"@ {
        None
    } else {
        Some("inspect only supports --format json, got "@ + debug_quoted(format))
    }
}

/// `inspect` only writes JSON; any other `--format` is a usage error.
pub fn check_inspect_format(format: &str) -> (r: Result<(), AppError>)
    ensures
        match spec_inspect_format(format@) {
            None => r is Ok,
            Some(m) => r matches Err(AppError::Usage(s)) && s@ == m,
        },
{
    if crate::text::is_lit(format, "json") {
        Ok(())
    } else {
        let mut m = String::new();
        push_str(&mut m, "inspect only supports --format json, got ");
        let q = debug_text(format);
        push_str(&mut m, q.as_str());
        Err(AppError::Usage(m))
    }
}

/// What `validate` prints of a catalog.
pub open spec fn spec_validation_summary(c: Catalog) -> Seq<char> {
    c.base_name@ + ": "@ + decimal(c.tables@.len()) + " tables, "@ + decimal(c.relations@.len())
        + " relations, "@ + decimal(c.indexes@.len()) + " indexes, "@ + decimal(c.warnings@.len())
        + " warnings"@
}

/// The one-line summary `validate` prints.
pub fn validation_summary(catalog: &Catalog) -> (r: String)
    ensures
        r@ == spec_validation_summary(*catalog),
{
    let mut out = catalog.base_name.clone();
    push_str(&mut out, ": ");
    push_decimal(&mut out, catalog.tables.len() as u64);
    push_str(&mut out, " tables, ");
    push_decimal(&mut out, catalog.relations.len() as u64);
    push_str(&mut out, " relations, ");
    push_decimal(&mut out, catalog.indexes.len() as u64);
    push_str(&mut out, " indexes, ");
    push_decimal(&mut out, catalog.warnings.len() as u64);
    push_str(&mut out, " warnings");
    out
}

/// The theme of a rendering: the one asked for, else `auto` for HTML (which
/// follows the reader's preference) and `light` for the static formats.
pub open spec fn spec_theme_for(format: OutputFormat, requested: Option<Theme>) -> Theme {
    match requested {
        Some(t) => t,
        None => match format {
            OutputFormat::Html => Theme::Auto,
            _ => Theme::Light,
        },
    }
}

/// A theme that was asked for is the theme used, whatever the output format;
/// only without one does the format decide (`auto` for HTML, `light` for the
/// static formats).
pub proof fn requested_theme_is_used(format: OutputFormat, requested: Option<Theme>)
    ensures
        requested matches Some(t) ==> spec_theme_for(format, requested) == t,
        requested is None && format == OutputFormat::Html ==> spec_theme_for(format, requested) == Theme::Auto,
        requested is None && format != OutputFormat::Html ==> spec_theme_for(format, requested) == Theme::Light,
{
}

/// The theme a rendering uses.
pub fn theme_for(format: OutputFormat, requested: Option<Theme>) -> (r: Theme)
    ensures
        r == spec_theme_for(format, requested),
{
    match requested {
        Some(t) => t,
        None => match format {
            OutputFormat::Html => Theme::Auto,
            _ => Theme::Light,
        },
    }
}

/// What a written file holds, as reported after writing it.
pub open spec fn spec_written_counts(tables: nat, relations: nat) -> Seq<char> {
    decimal(tables) + " table"@ + plural(tables) + ", "@ + decimal(relations) + " relation"@
        + plural(relations)
}

/// `N table(s), M relation(s)` for the report after a file is written.
pub fn written_counts(tables: usize, relations: usize) -> (r: String)
    ensures
        r@ == spec_written_counts(tables as nat, relations as nat),
{
    let mut out = String::new();
    push_decimal(&mut out, tables as u64);
    push_str(&mut out, " table");
    if tables != 1 {
        push_str(&mut out, "s");
    }
    push_str(&mut out, ", ");
    push_decimal(&mut out, relations as u64);
    push_str(&mut out, " relation");
    if relations != 1 {
        push_str(&mut out, "s");
    }
    out
}

} // verus!
