//! Subset selection: explicit lists, regex, and relation-graph neighbourhoods.

use vstd::prelude::*;

use crate::error::{spec_exit_code, spec_message, AppError, ExitCode};
use crate::model::{first_table_named, first_table_named_meaning, Catalog, Relation, Table};
use crate::text::{
    chars_of, contains_name, position_in, position_in_meaning, lemma_position_prefix, string_range, first_char_position, debug_quoted, debug_text, decimal, insert_name, lemma_views_push,
    push_decimal, push_str, views,
};

verus! {

/// Whether some relation joins `a` and `b`, in either direction.
pub open spec fn adjacent(rels: Seq<Relation>, a: Seq<char>, b: Seq<char>) -> bool {
    exists|k: int|
        0 <= k < rels.len() && ((#[trigger] rels[k].from_table@ == a && rels[k].to_table@ == b) || (
        rels[k].to_table@ == a && rels[k].from_table@ == b))
}

/// Every name one relation away from `a`.
pub open spec fn neighbours_of(rels: Seq<Relation>, a: Seq<char>) -> Set<Seq<char>> {
    Set::new(|b: Seq<char>| adjacent(rels, a, b))
}

/// Every name one relation away from a name in `s`.
pub open spec fn step(rels: Seq<Relation>, s: Set<Seq<char>>) -> Set<Seq<char>> {
    Set::new(|b: Seq<char>| exists|a: Seq<char>| s.contains(a) && #[trigger] adjacent(rels, a, b))
}

/// The names reachable from `seeds` in at most `depth` relation hops,
/// following relations in either direction.
pub open spec fn within(rels: Seq<Relation>, seeds: Set<Seq<char>>, depth: nat) -> Set<Seq<char>>
    decreases depth,
{
    if depth == 0 {
        seeds
    } else {
        let prev = within(rels, seeds, (depth - 1) as nat);
        prev.union(step(rels, prev))
    }
}

/// Once a set contains every neighbour of its members, growing the hop
/// count adds nothing.
proof fn lemma_within_stable(rels: Seq<Relation>, seeds: Set<Seq<char>>, level: nat, depth: nat)
    requires
        level <= depth,
        step(rels, within(rels, seeds, level)).subset_of(within(rels, seeds, level)),
    ensures
        within(rels, seeds, depth) == within(rels, seeds, level),
    decreases depth - level,
{
    if depth > level {
        lemma_within_stable(rels, seeds, level, (depth - 1) as nat);
        assert(within(rels, seeds, depth) =~= within(rels, seeds, level));
    }
}

/// Adds to `seen` every table joined by a relation to `name`, and records in
/// `fresh` the ones that were new.
fn add_neighbours(catalog: &Catalog, name: &String, seen: &mut Vec<String>, fresh: &mut Vec<String>)
    requires
        views(old(seen)@).no_duplicates(),
        views(old(fresh)@).to_set().subset_of(views(old(seen)@).to_set()),
    ensures
        views(final(seen)@).no_duplicates(),
        views(final(seen)@).to_set() == views(old(seen)@).to_set().union(
            neighbours_of(catalog.relations@, name@),
        ),
        views(final(fresh)@).to_set() == views(old(fresh)@).to_set().union(
            views(final(seen)@).to_set().difference(views(old(seen)@).to_set()),
        ),
{
    let ghost seen0 = views(seen@).to_set();
    let ghost fresh0 = views(fresh@).to_set();
    let ghost rels = catalog.relations@;
    let mut k: usize = 0;
    while k < catalog.relations.len()
        invariant
            k <= rels.len(),
            rels == catalog.relations@,
            views(seen@).no_duplicates(),
            views(seen@).to_set() == seen0.union(
                Set::new(|b: Seq<char>| exists|j: int| 0 <= j < k && ((#[trigger] rels[j].from_table@ == name@ && rels[j].to_table@ == b) || (rels[j].to_table@ == name@ && rels[j].from_table@ == b))),
            ),
            views(fresh@).to_set() == fresh0.union(views(seen@).to_set().difference(seen0)),
            fresh0.subset_of(seen0),
        decreases rels.len() - k,
    {
        let relation = &catalog.relations[k];
        if relation.from_table.eq(name) {
            let ghost s1 = views(seen@).to_set();
            let ghost f1 = views(fresh@).to_set();
            assert(seen0.subset_of(s1));
            let added = insert_name(seen, relation.to_table.clone());
            if added {
                assert(!s1.contains(relation.to_table@));
                assert(!seen0.contains(relation.to_table@));
                proof { lemma_views_push(fresh@, relation.to_table); }
                fresh.push(relation.to_table.clone());
            }
            assert(views(fresh@).to_set() =~= fresh0.union(views(seen@).to_set().difference(seen0)));
        }
        if relation.to_table.eq(name) {
            let ghost s1 = views(seen@).to_set();
            let ghost f1 = views(fresh@).to_set();
            assert(seen0.subset_of(s1));
            let added = insert_name(seen, relation.from_table.clone());
            if added {
                assert(!s1.contains(relation.from_table@));
                assert(!seen0.contains(relation.from_table@));
                proof { lemma_views_push(fresh@, relation.from_table); }
                fresh.push(relation.from_table.clone());
            }
            assert(views(fresh@).to_set() =~= fresh0.union(views(seen@).to_set().difference(seen0)));
        }
        k = k + 1;
    }
    assert(Set::new(|b: Seq<char>| exists|j: int| 0 <= j < rels.len() && ((#[trigger] rels[j].from_table@ == name@ && rels[j].to_table@ == b) || (rels[j].to_table@ == name@ && rels[j].from_table@ == b)))
        =~= neighbours_of(catalog.relations@, name@));
}

proof fn lemma_step_union(rels: Seq<Relation>, a: Set<Seq<char>>, b: Set<Seq<char>>)
    ensures
        step(rels, a.union(b)) == step(rels, a).union(step(rels, b)),
{
    assert(step(rels, a.union(b)) =~= step(rels, a).union(step(rels, b)));
}

proof fn lemma_step_insert(rels: Seq<Relation>, a: Set<Seq<char>>, x: Seq<char>)
    ensures
        step(rels, a.insert(x)) == step(rels, a).union(neighbours_of(rels, x)),
{
    assert forall|b: Seq<char>| step(rels, a.insert(x)).contains(b) implies step(rels, a).union(neighbours_of(rels, x)).contains(b) by {
        let w = choose|w: Seq<char>| a.insert(x).contains(w) && #[trigger] adjacent(rels, w, b);
        if w != x {
            assert(a.contains(w));
        }
    }
    assert(step(rels, a.insert(x)) =~= step(rels, a).union(neighbours_of(rels, x)));
}

proof fn lemma_step_empty(rels: Seq<Relation>)
    ensures
        step(rels, Set::empty()) == Set::<Seq<char>>::empty(),
{
    assert(step(rels, Set::empty()) =~= Set::<Seq<char>>::empty());
}

/// Level-by-level breadth-first expansion: the names reachable from `seeds`
/// in at most `depth` hops.
fn expand(catalog: &Catalog, seeds: Vec<String>, depth: usize) -> (r: Vec<String>)
    requires
        views(seeds@).no_duplicates(),
    ensures
        views(r@).no_duplicates(),
        views(r@).to_set() == within(catalog.relations@, views(seeds@).to_set(), depth as nat),
{
    let ghost rels = catalog.relations@;
    let ghost start = views(seeds@).to_set();
    let mut frontier: Vec<String> = Vec::new();
    let mut i: usize = 0;
    while i < seeds.len()
        invariant
            i <= seeds@.len(),
            frontier@ == seeds@.take(i as int),
        decreases seeds@.len() - i,
    {
        frontier.push(seeds[i].clone());
        assert(seeds@.take(i as int + 1) == seeds@.take(i as int).push(seeds@[i as int]));
        i = i + 1;
    }
    assert(seeds@.take(seeds@.len() as int) == seeds@);
    let mut seen = seeds;
    let mut level: usize = 0;
    assert(views(seen@).to_set().difference(views(frontier@).to_set()) =~= Set::empty());
    proof { lemma_step_empty(rels); }
    while level < depth && frontier.len() > 0
        invariant
            rels == catalog.relations@,
            level <= depth,
            views(seen@).no_duplicates(),
            views(seen@).to_set() == within(rels, start, level as nat),
            views(frontier@).to_set().subset_of(views(seen@).to_set()),
            step(rels, views(seen@).to_set().difference(views(frontier@).to_set())).subset_of(
                views(seen@).to_set(),
            ),
        decreases depth - level,
    {
        let ghost s0 = views(seen@).to_set();
        let ghost f0 = views(frontier@).to_set();
        let mut next: Vec<String> = Vec::new();
        let mut j: usize = 0;
        assert(views(frontier@).take(0).to_set() =~= Set::empty());
        assert(s0.union(Set::empty()) =~= s0);
        assert(views(next@).to_set() =~= Set::empty());
        while j < frontier.len()
            invariant
                rels == catalog.relations@,
                j <= frontier@.len(),
                f0 == views(frontier@).to_set(),
                views(seen@).no_duplicates(),
                views(seen@).to_set() == s0.union(step(rels, views(frontier@).take(j as int).to_set())),
                views(next@).to_set() == views(seen@).to_set().difference(s0),
                s0.subset_of(views(seen@).to_set()),
            decreases frontier@.len() - j,
        {
            proof {
                assert(views(frontier@).take(j as int + 1) == views(frontier@).take(j as int).push(frontier@[j as int]@));
                views(frontier@).take(j as int).lemma_push_to_set_commute(frontier@[j as int]@);
                lemma_step_insert(rels, views(frontier@).take(j as int).to_set(), frontier@[j as int]@);
            }
            add_neighbours(catalog, &frontier[j], &mut seen, &mut next);
            j = j + 1;
        }
        proof {
            assert(views(frontier@).take(frontier@.len() as int) == views(frontier@));
            let s1 = views(seen@).to_set();
            assert(s0.difference(f0).union(f0) =~= s0);
            lemma_step_union(rels, s0.difference(f0), f0);
            assert(s1 =~= s0.union(step(rels, s0)));
            assert(s1.difference(views(next@).to_set()) =~= s0);
        }
        level = level + 1;
        frontier = next;
    }
    proof {
        if level < depth {
            let s = views(seen@).to_set();
            assert(views(frontier@).to_set() =~= Set::empty());
            assert(s.difference(views(frontier@).to_set()) =~= s);
            lemma_within_stable(rels, start, level as nat, depth as nat);
        }
    }
    seen
}


/// What to do with relations that leave the selection.
#[derive(Debug, Clone, Copy, PartialEq, Eq, Structural)]
pub enum ExternalRefs {
    /// Draw a stub node for tables just outside the selection.
    Stub,
    /// Drop relations that leave the selection entirely.
    Hide,
    /// Pull the external tables into the selection.
    Include,
}

impl Default for ExternalRefs {
    fn default() -> (r: ExternalRefs)
        ensures
            r == ExternalRefs::Stub,
    {
        ExternalRefs::Stub
    }
}

/// How `ExternalRefs::parse` answers `value`.
pub open spec fn spec_parse_external_refs(value: Seq<char>) -> Result<ExternalRefs, Seq<char>> {
    if value == "ghost"@ {
        Ok(ExternalRefs::Stub)
    } else if value == "hide"@ {
        Ok(ExternalRefs::Hide)
    } else if value == "include"@ {
        Ok(ExternalRefs::Include)
    } else {
        Err("invalid --external-refs "@ + debug_quoted(value) + " (expected ghost, hide, or include)"@)
    }
}

impl ExternalRefs {
    /// Parses the `--external-refs` value; anything else is a usage error.
    pub fn parse(value: &str) -> (r: Result<ExternalRefs, AppError>)
        ensures
            match (r, spec_parse_external_refs(value@)) {
                (Ok(x), Ok(y)) => x == y,
                (Err(AppError::Usage(m)), Err(n)) => m@ == n,
                _ => false,
            },
    {
        if crate::text::is_lit(value, "ghost") {
            Ok(ExternalRefs::Stub)
        } else if crate::text::is_lit(value, "hide") {
            Ok(ExternalRefs::Hide)
        } else if crate::text::is_lit(value, "include") {
            Ok(ExternalRefs::Include)
        } else {
            let mut m = String::new();
            push_str(&mut m, "invalid --external-refs ");
            let quoted = debug_text(value);
            push_str(&mut m, quoted.as_str());
            push_str(&mut m, " (expected ghost, hide, or include)");
            Err(AppError::Usage(m))
        }
    }
}

/// What to select.
#[derive(Debug, Clone)]
pub struct SelectionSpec {
    pub tables: Vec<String>,
    pub tables_match: Option<String>,
    pub focus: Option<String>,
    pub field: Option<String>,
    pub depth: usize,
    pub external_refs: ExternalRefs,
    pub max_tables: usize,
}

impl Default for SelectionSpec {
    fn default() -> (r: SelectionSpec)
        ensures
            r.tables@.len() == 0,
            r.tables_match is None,
            r.focus is None,
            r.field is None,
            r.depth == 0,
            r.external_refs == ExternalRefs::Stub,
            r.max_tables == 0,
    {
        SelectionSpec {
            tables: Vec::new(),
            tables_match: None,
            focus: None,
            field: None,
            depth: 0,
            external_refs: ExternalRefs::Stub,
            max_tables: 0,
        }
    }
}

/// No filter at all: the whole catalog is selected.
pub open spec fn spec_unfiltered(s: SelectionSpec) -> bool {
    s.tables@.len() == 0 && s.tables_match is None && s.focus is None && s.field is None
}

impl SelectionSpec {
    /// Whether no filter was given, in which case every table is selected.
    pub fn is_unfiltered(&self) -> (r: bool)
        ensures
            r == spec_unfiltered(*self),
    {
        self.tables.len() == 0 && self.tables_match.is_none() && self.focus.is_none()
            && self.field.is_none()
    }
}

/// One endpoint of a rendered relation.
#[derive(Debug, Clone, Copy, PartialEq, Eq, Structural)]
pub enum Endpoint {
    /// Index into [`Selection::tables`].
    Table(usize),
    /// Index into [`Selection::ghosts`].
    Stub(usize),
}

/// A relation kept by the selection, with its two endpoints resolved.
#[derive(Debug, Clone, Copy, PartialEq, Eq, Structural)]
pub struct SelectedRelation {
    /// Index into `Catalog::relations`.
    pub relation: usize,
    pub from: Endpoint,
    pub to: Endpoint,
}

/// The outcome of a selection.
#[derive(Debug, Clone)]
pub struct Selection {
    /// Indices into `Catalog::tables`, in catalog order (deterministic).
    pub tables: Vec<usize>,
    /// Names of tables referenced from the selection but not part of it.
    pub ghosts: Vec<String>,
    pub relations: Vec<SelectedRelation>,
}

impl Default for Selection {
    fn default() -> (r: Selection)
        ensures
            r.tables@.len() == 0,
            r.ghosts@.len() == 0,
            r.relations@.len() == 0,
    {
        Selection { tables: Vec::new(), ghosts: Vec::new(), relations: Vec::new() }
    }
}

impl Selection {
    /// Position of catalog table `table_index` in the selection.
    pub fn position_of(&self, table_index: usize) -> (r: Option<usize>)
        ensures
            match position_in(self.tables@, table_index) {
                Some(i) => r matches Some(x) && x as int == i,
                None => r is None,
            },
    {
        let mut i: usize = 0;
        while i < self.tables.len()
            invariant
                i <= self.tables@.len(),
                position_in(self.tables@.take(i as int), table_index) is None,
            decreases self.tables@.len() - i,
        {
            assert(self.tables@.take(i as int + 1).drop_last() == self.tables@.take(i as int));
            if self.tables[i] == table_index {
                proof {
                    lemma_position_prefix(self.tables@, table_index, i as int + 1);
                }
                return Some(i);
            }
            i = i + 1;
        }
        assert(self.tables@.take(self.tables@.len() as int) == self.tables@);
        None
    }
}

/// Whether some table of the catalog is called `n`.
pub open spec fn is_table_name(tables: Seq<Table>, n: Seq<char>) -> bool {
    exists|i: int| 0 <= i < tables.len() && #[trigger] tables[i].name@ == n
}

/// Every table name of the catalog.
pub open spec fn table_names(tables: Seq<Table>) -> Set<Seq<char>> {
    Set::new(|n: Seq<char>| is_table_name(tables, n))
}

proof fn lemma_is_table_name(tables: Seq<Table>, n: Seq<char>)
    ensures
        is_table_name(tables, n) <==> first_table_named(tables, n) is Some,
{
    first_table_named_meaning(tables, n);
}

fn is_table(catalog: &Catalog, name: &String) -> (r: bool)
    ensures
        r == is_table_name(catalog.tables@, name@),
{
    proof {
        lemma_is_table_name(catalog.tables@, name@);
    }
    catalog.table_index(name.as_str()).is_some()
}


/// The opaque compiled form of a `--tables-match` pattern.
#[verifier::external_type_specification]
#[verifier::external_body]
pub struct ExRegex(regex::Regex);

/// A compiled `--tables-match` pattern together with its source text.
pub struct TablePattern {
    pattern: String,
    regex: regex::Regex,
}

impl TablePattern {
    /// The pattern text this was compiled from.
    pub closed spec fn source(&self) -> Seq<char> {
        self.pattern@
    }
}

/// The error text `regex::Regex::new` gives for `pattern`, or `None` when the
/// pattern compiles.
pub uninterp spec fn regex_compile_error(pattern: Seq<char>) -> Option<Seq<char>>;

/// Whether the regex compiled from `pattern` matches somewhere in `text`
/// (`regex::Regex::is_match`).
pub uninterp spec fn regex_matches(pattern: Seq<char>, text: Seq<char>) -> bool;

/// Compiles `pattern` with `regex::Regex::new`. On success the result keeps
/// the pattern text; on failure it carries the error's display text. Nothing
/// is stated about which patterns compile: that is regex's grammar.
#[verifier::external_body]
fn compile_pattern(pattern: &str) -> (r: Result<TablePattern, String>)
    ensures
        match r {
            Ok(p) => regex_compile_error(pattern@) is None && p.source() == pattern@,
            Err(e) => regex_compile_error(pattern@) == Some(e@),
        },
{
    match regex::Regex::new(pattern) {
        Ok(regex) => Ok(TablePattern { pattern: pattern.to_string(), regex }),
        Err(e) => Err(e.to_string()),
    }
}

/// `regex::Regex::is_match`: whether the compiled pattern matches anywhere in
/// `text`. The result is named after the pattern text and `text`.
#[verifier::external_body]
fn pattern_matches(p: &TablePattern, text: &str) -> (r: bool)
    ensures
        r == regex_matches(p.source(), text@),
{
    p.regex.is_match(text)
}

/// A failure as its exit code and message.
pub open spec fn failure(e: AppError) -> (ExitCode, Seq<char>) {
    (spec_exit_code(e), spec_message(e))
}

/// The first listed name that is not a table.
pub open spec fn first_missing(tables: Seq<Table>, list: Seq<String>) -> Option<Seq<char>>
    decreases list.len(),
{
    if list.len() == 0 {
        None
    } else {
        match first_missing(tables, list.drop_last()) {
            Some(n) => Some(n),
            None => if is_table_name(tables, list.last()@) {
                None
            } else {
                Some(list.last()@)
            },
        }
    }
}

/// Tables whose name the pattern matches.
pub open spec fn matched_names(tables: Seq<Table>, pattern: Seq<char>) -> Set<Seq<char>> {
    Set::new(|n: Seq<char>| is_table_name(tables, n) && regex_matches(pattern, n))
}

/// Whether some field is called `n`.
pub open spec fn has_field(fields: Seq<crate::model::Field>, n: Seq<char>) -> bool {
    exists|j: int| 0 <= j < fields.len() && #[trigger] fields[j].name@ == n
}

/// Tables joined to `table` by a relation that touches its field `field`.
pub open spec fn field_hop(rels: Seq<Relation>, table: Seq<char>, field: Seq<char>) -> Set<Seq<char>> {
    Set::new(
        |b: Seq<char>|
            exists|k: int|
                0 <= k < rels.len() && ((#[trigger] rels[k].from_table@ == table
                    && rels[k].from_field@ == field && rels[k].to_table@ == b) || (
                rels[k].to_table@ == table && rels[k].to_field@ == field && rels[k].from_table@
                    == b)),
    )
}

/// The names `--field TABLE.FIELD` contributes, or its failure.
pub open spec fn spec_field_names(c: Catalog, f: Seq<char>, depth: nat) -> Result<
    Set<Seq<char>>,
    (ExitCode, Seq<char>),
> {
    match position_in(f, '.') {
        None => Err((ExitCode::Usage, "--field expects TABLE.FIELD, got "@ + debug_quoted(f))),
        Some(d) => {
            let tn = f.take(d);
            let fname = f.skip(d + 1);
            match first_table_named(c.tables@, tn) {
                None => Err(
                    (ExitCode::Selection, "--field references unknown table "@ + debug_quoted(tn)),
                ),
                Some(i) => if !has_field(c.tables@[i].fields@, fname) {
                    Err(
                        (
                            ExitCode::Selection,
                            "--field references unknown field "@ + tn + "."@ + fname,
                        ),
                    )
                } else if depth == 0 {
                    Ok(set![tn])
                } else {
                    let hop = field_hop(c.relations@, tn, fname);
                    Ok(
                        set![tn].union(hop).union(
                            if depth > 1 {
                                within(c.relations@, hop, (depth - 1) as nat)
                            } else {
                                Set::empty()
                            },
                        ),
                    )
                },
            }
        },
    }
}

/// Tables just outside `names`, reached by a relation with exactly one end
/// inside it.
pub open spec fn outside_neighbours(tables: Seq<Table>, rels: Seq<Relation>, names: Set<Seq<char>>) -> Set<
    Seq<char>,
> {
    Set::new(
        |x: Seq<char>|
            is_table_name(tables, x) && exists|k: int|
                0 <= k < rels.len() && ((names.contains(#[trigger] rels[k].from_table@)
                    && !names.contains(rels[k].to_table@) && rels[k].to_table@ == x) || (
                !names.contains(rels[k].from_table@) && names.contains(rels[k].to_table@)
                    && rels[k].from_table@ == x)),
    )
}

/// The selected names before the emptiness and size checks, or the first
/// failure met on the way.
pub open spec fn spec_candidates(c: Catalog, s: SelectionSpec) -> Result<
    Set<Seq<char>>,
    (ExitCode, Seq<char>),
> {
    let tables = c.tables@;
    let base = if spec_unfiltered(s) {
        table_names(tables)
    } else {
        Set::empty()
    };
    match first_missing(tables, s.tables@) {
        Some(n) => Err(
            (
                ExitCode::Selection,
                "--tables references "@ + debug_quoted(n) + ", which is not in this catalog"@,
            ),
        ),
        None => {
            let listed = base.union(views(s.tables@).to_set());
            let matched: Result<Set<Seq<char>>, (ExitCode, Seq<char>)> = match s.tables_match {
                None => Ok(Set::empty()),
                Some(p) => match regex_compile_error(p@) {
                    Some(e) => Err((ExitCode::Usage, "invalid --tables-match regex: "@ + e)),
                    None => if matched_names(tables, p@) == Set::<Seq<char>>::empty() {
                        Err(
                            (
                                ExitCode::Selection,
                                "--tables-match "@ + debug_quoted(p@)
                                    + " matched no table in this catalog"@,
                            ),
                        )
                    } else {
                        Ok(matched_names(tables, p@))
                    },
                },
            };
            match matched {
                Err(e) => Err(e),
                Ok(m) => {
                    let focused: Result<Set<Seq<char>>, (ExitCode, Seq<char>)> = match s.focus {
                        None => Ok(Set::empty()),
                        Some(f) => if !is_table_name(tables, f@) {
                            Err(
                                (
                                    ExitCode::Selection,
                                    "--focus references "@ + debug_quoted(f@)
                                        + ", which is not in this catalog"@,
                                ),
                            )
                        } else {
                            Ok(within(c.relations@, set![f@], s.depth as nat))
                        },
                    };
                    match focused {
                        Err(e) => Err(e),
                        Ok(fo) => {
                            let by_field = match s.field {
                                None => Ok(Set::empty()),
                                Some(f) => spec_field_names(c, f@, s.depth as nat),
                            };
                            match by_field {
                                Err(e) => Err(e),
                                Ok(bf) => {
                                    let all = listed.union(m).union(fo).union(bf).intersect(
                                        table_names(tables),
                                    );
                                    if s.external_refs == ExternalRefs::Include {
                                        Ok(all.union(outside_neighbours(tables, c.relations@, all)))
                                    } else {
                                        Ok(all)
                                    }
                                },
                            }
                        },
                    }
                },
            }
        },
    }
}

/// Indices of the tables whose name is in `names`, in catalog order.
pub open spec fn catalog_order(tables: Seq<Table>, names: Set<Seq<char>>) -> Seq<usize>
    decreases tables.len(),
{
    if tables.len() == 0 {
        seq![]
    } else {
        let rest = catalog_order(tables.drop_last(), names);
        if names.contains(tables.last().name@) {
            rest.push((tables.len() - 1) as usize)
        } else {
            rest
        }
    }
}

/// Resolves one end of a kept relation: a table end points into the
/// selection, an outside end reuses or appends a ghost.
pub open spec fn spec_endpoint(
    tables: Seq<Table>,
    order: Seq<usize>,
    ghosts: Seq<Seq<char>>,
    name: Seq<char>,
    inside: bool,
) -> (Seq<Seq<char>>, Endpoint) {
    if inside {
        let i = match first_table_named(tables, name) {
            Some(i) => i,
            None => 0,
        };
        let p = match position_in(order, i as usize) {
            Some(p) => p,
            None => 0,
        };
        (ghosts, Endpoint::Table(p as usize))
    } else {
        match position_in(ghosts, name) {
            Some(p) => (ghosts, Endpoint::Stub(p as usize)),
            None => (ghosts.push(name), Endpoint::Stub(ghosts.len() as usize)),
        }
    }
}

/// Ghosts and kept relations after visiting the first `k` relations.
pub open spec fn spec_route(
    c: Catalog,
    names: Set<Seq<char>>,
    order: Seq<usize>,
    mode: ExternalRefs,
    k: nat,
) -> (Seq<Seq<char>>, Seq<SelectedRelation>)
    decreases k,
{
    if k == 0 {
        (seq![], seq![])
    } else {
        let (g, rs) = spec_route(c, names, order, mode, (k - 1) as nat);
        let r = c.relations@[k - 1];
        let from_in = names.contains(r.from_table@);
        let to_in = names.contains(r.to_table@);
        if !from_in && !to_in {
            (g, rs)
        } else if from_in != to_in && mode == ExternalRefs::Hide {
            (g, rs)
        } else {
            let (g1, from) = spec_endpoint(c.tables@, order, g, r.from_table@, from_in);
            let (g2, to) = spec_endpoint(c.tables@, order, g1, r.to_table@, to_in);
            (g2, rs.push(SelectedRelation { relation: (k - 1) as usize, from, to }))
        }
    }
}

/// The whole selection: its tables (catalog indices, catalog order), ghost
/// names and kept relations — or the failure, as exit code and message.
pub open spec fn spec_select(c: Catalog, s: SelectionSpec) -> Result<
    (Seq<usize>, Seq<Seq<char>>, Seq<SelectedRelation>),
    (ExitCode, Seq<char>),
> {
    match spec_candidates(c, s) {
        Err(e) => Err(e),
        Ok(n) => if n.len() == 0 {
            Err(
                (
                    ExitCode::Selection,
                    "the selection is empty; loosen --tables/--tables-match/--focus or increase --depth"@,
                ),
            )
        } else if n.len() > s.max_tables {
            Err(
                (
                    ExitCode::Selection,
                    "the selection contains "@ + decimal(n.len()) + " tables, above the --max-tables cap of "@
                        + decimal(s.max_tables as nat)
                        + "; narrow it with --focus, --tables, or --tables-match, or raise --max-tables"@,
                ),
            )
        } else {
            let order = catalog_order(c.tables@, n);
            let (g, rs) = spec_route(c, n, order, s.external_refs, c.relations@.len());
            Ok((order, g, rs))
        },
    }
}


/// Adds every name of `more`.
fn add_all(names: &mut Vec<String>, more: &Vec<String>)
    requires
        views(old(names)@).no_duplicates(),
    ensures
        views(final(names)@).no_duplicates(),
        views(final(names)@).to_set() == views(old(names)@).to_set().union(views(more@).to_set()),
{
    let ghost start = views(names@).to_set();
    let mut i: usize = 0;
    assert(views(more@).take(0).to_set() =~= Set::empty());
    assert(start.union(Set::empty()) =~= start);
    while i < more.len()
        invariant
            i <= more@.len(),
            views(names@).no_duplicates(),
            views(names@).to_set() == start.union(views(more@).take(i as int).to_set()),
        decreases more@.len() - i,
    {
        proof {
            assert(views(more@).take(i as int + 1) == views(more@).take(i as int).push(more@[i as int]@));
            views(more@).take(i as int).lemma_push_to_set_commute(more@[i as int]@);
        }
        insert_name(names, more[i].clone());
        proof {
            assert(views(names@).to_set() =~= start.union(views(more@).take(i as int + 1).to_set()));
        }
        i = i + 1;
    }
    assert(views(more@).take(more@.len() as int) == views(more@));
}

/// Adds the `--tables` names, refusing the first one that is not a table.
fn add_listed(catalog: &Catalog, list: &Vec<String>, names: &mut Vec<String>) -> (r: Result<(), AppError>)
    requires
        views(old(names)@).no_duplicates(),
    ensures
        views(final(names)@).no_duplicates(),
        match first_missing(catalog.tables@, list@) {
            Some(n) => r matches Err(e) && failure(e) == (
                ExitCode::Selection,
                "--tables references "@ + debug_quoted(n) + ", which is not in this catalog"@,
            ),
            None => r is Ok && views(final(names)@).to_set() == views(old(names)@).to_set().union(
                views(list@).to_set(),
            ),
        },
{
    let ghost start = views(names@).to_set();
    let mut i: usize = 0;
    assert(views(list@).take(0).to_set() =~= Set::empty());
    assert(start.union(Set::empty()) =~= start);
    while i < list.len()
        invariant
            i <= list@.len(),
            views(names@).no_duplicates(),
            first_missing(catalog.tables@, list@.take(i as int)) is None,
            views(names@).to_set() == start.union(views(list@).take(i as int).to_set()),
        decreases list@.len() - i,
    {
        proof {
            assert(list@.take(i as int + 1).drop_last() == list@.take(i as int));
            assert(views(list@).take(i as int + 1) == views(list@).take(i as int).push(list@[i as int]@));
            views(list@).take(i as int).lemma_push_to_set_commute(list@[i as int]@);
        }
        if !is_table(catalog, &list[i]) {
            proof {
                lemma_first_missing_prefix(catalog.tables@, list@, i as int + 1);
            }
            let mut m = String::new();
            push_str(&mut m, "--tables references ");
            let quoted = debug_text(list[i].as_str());
            push_str(&mut m, quoted.as_str());
            push_str(&mut m, ", which is not in this catalog");
            return Err(AppError::Selection(m));
        }
        insert_name(names, list[i].clone());
        proof {
            assert(views(names@).to_set() =~= start.union(views(list@).take(i as int + 1).to_set()));
        }
        i = i + 1;
    }
    assert(views(list@).take(list@.len() as int) == views(list@));
    assert(list@.take(list@.len() as int) == list@);
    Ok(())
}

proof fn lemma_first_missing_prefix(tables: Seq<Table>, list: Seq<String>, k: int)
    requires
        0 < k <= list.len(),
        first_missing(tables, list.take(k - 1)) is None,
        !is_table_name(tables, list[k - 1]@),
    ensures
        first_missing(tables, list) == Some(list[k - 1]@),
    decreases list.len(),
{
    if k < list.len() {
        assert(list.drop_last().take(k - 1) == list.take(k - 1));
        lemma_first_missing_prefix(tables, list.drop_last(), k);
    } else {
        assert(list.take(k - 1) == list.drop_last());
    }
}

/// Adds the tables `--tables-match` selects, or reports why it cannot.
fn add_matching(catalog: &Catalog, pattern: &String, names: &mut Vec<String>) -> (r: Result<(), AppError>)
    requires
        views(old(names)@).no_duplicates(),
    ensures
        views(final(names)@).no_duplicates(),
        match regex_compile_error(pattern@) {
            Some(e) => r matches Err(x) && failure(x) == (ExitCode::Usage, "invalid --tables-match regex: "@ + e),
            None => if matched_names(catalog.tables@, pattern@) == Set::<Seq<char>>::empty() {
                r matches Err(x) && failure(x) == (
                    ExitCode::Selection,
                    "--tables-match "@ + debug_quoted(pattern@) + " matched no table in this catalog"@,
                )
            } else {
                r is Ok && views(final(names)@).to_set() == views(old(names)@).to_set().union(
                    matched_names(catalog.tables@, pattern@),
                )
            },
        },
{
    let compiled = match compile_pattern(pattern.as_str()) {
        Ok(p) => p,
        Err(e) => {
            let mut m = String::new();
            push_str(&mut m, "invalid --tables-match regex: ");
            push_str(&mut m, e.as_str());
            return Err(AppError::Usage(m));
        },
    };
    let ghost tables = catalog.tables@;
    let ghost p = pattern@;
    let mut matched: Vec<String> = Vec::new();
    let mut i: usize = 0;
    assert(views(matched@).to_set() =~= Set::empty());
    while i < catalog.tables.len()
        invariant
            tables == catalog.tables@,
            p == pattern@,
            compiled.source() == p,
            i <= tables.len(),
            views(matched@).no_duplicates(),
            views(matched@).to_set() == Set::new(
                |n: Seq<char>|
                    exists|j: int| 0 <= j < i && #[trigger] tables[j].name@ == n && regex_matches(p, n),
            ),
        decreases tables.len() - i,
    {
        if pattern_matches(&compiled, catalog.tables[i].name.as_str()) {
            insert_name(&mut matched, catalog.tables[i].name.clone());
        }
        proof {
            assert(views(matched@).to_set() =~= Set::new(
                |n: Seq<char>|
                    exists|j: int| 0 <= j < i + 1 && #[trigger] tables[j].name@ == n && regex_matches(p, n),
            ));
        }
        i = i + 1;
    }
    assert(views(matched@).to_set() =~= matched_names(tables, p));
    if matched.len() == 0 {
        assert(views(matched@).to_set() =~= Set::empty());
        let mut m = String::new();
        push_str(&mut m, "--tables-match ");
        let quoted = debug_text(pattern.as_str());
        push_str(&mut m, quoted.as_str());
        push_str(&mut m, " matched no table in this catalog");
        return Err(AppError::Selection(m));
    }
    assert(views(matched@)[0] == matched@[0]@);
    assert(views(matched@).contains(matched@[0]@));
    assert(views(matched@).to_set().contains(matched@[0]@));
    add_all(names, &matched);
    Ok(())
}


pub(crate) fn table_has_field(table: &Table, name: &String) -> (r: bool)
    ensures
        r == has_field(table.fields@, name@),
{
    let mut j: usize = 0;
    while j < table.fields.len()
        invariant
            j <= table.fields@.len(),
            forall|k: int| 0 <= k < j ==> table.fields@[k].name@ != name@,
        decreases table.fields@.len() - j,
    {
        if table.fields[j].name.eq(name) {
            return true;
        }
        j = j + 1;
    }
    false
}

/// `--field Table.Field`: start from the one table, then follow only relations
/// that actually touch that field; further hops behave like `--focus`.
fn select_by_field(catalog: &Catalog, spec: &str, depth: usize) -> (r: Result<Vec<String>, AppError>)
    ensures
        match (r, spec_field_names(*catalog, spec@, depth as nat)) {
            (Ok(v), Ok(n)) => views(v@).no_duplicates() && views(v@).to_set() == n,
            (Err(e), Err(f)) => failure(e) == f,
            _ => false,
        },
{
    let chars = chars_of(spec);
    proof {
        position_in_meaning(chars@, '.');
    }
    let dot = match first_char_position(&chars, '.') {
        Some(d) => d,
        None => {
            let mut m = String::new();
            push_str(&mut m, "--field expects TABLE.FIELD, got ");
            let quoted = debug_text(spec);
            push_str(&mut m, quoted.as_str());
            return Err(AppError::Usage(m));
        },
    };
    assert(position_in(chars@, '.') matches Some(i) && i == dot as int) by {
        match position_in(chars@, '.') {
            Some(i) => {
                assert(i < chars@.len());
            },
            None => {},
        }
    }
    assert(dot < chars.len());
    let table_name = string_range(&chars, 0, dot);
    let field_name = string_range(&chars, dot + 1, chars.len());
    assert(table_name@ == spec@.take(dot as int));
    assert(field_name@ == spec@.skip(dot as int + 1));
    let table = match catalog.table(table_name.as_str()) {
        Some(t) => t,
        None => {
            let mut m = String::new();
            push_str(&mut m, "--field references unknown table ");
            let quoted = debug_text(table_name.as_str());
            push_str(&mut m, quoted.as_str());
            return Err(AppError::Selection(m));
        },
    };
    if !table_has_field(table, &field_name) {
        let mut m = String::new();
        push_str(&mut m, "--field references unknown field ");
        push_str(&mut m, table_name.as_str());
        push_str(&mut m, ".");
        push_str(&mut m, field_name.as_str());
        return Err(AppError::Selection(m));
    }
    let mut names: Vec<String> = Vec::new();
    insert_name(&mut names, table_name.clone());
    assert(views(names@).to_set() =~= set![table_name@]);
    if depth == 0 {
        return Ok(names);
    }
    let ghost rels = catalog.relations@;
    let mut first_hop: Vec<String> = Vec::new();
    let mut k: usize = 0;
    assert(views(first_hop@).to_set() =~= Set::empty());
    while k < catalog.relations.len()
        invariant
            rels == catalog.relations@,
            k <= rels.len(),
            views(first_hop@).no_duplicates(),
            views(first_hop@).to_set() == Set::new(
                |b: Seq<char>|
                    exists|j: int|
                        0 <= j < k && ((#[trigger] rels[j].from_table@ == table_name@
                            && rels[j].from_field@ == field_name@ && rels[j].to_table@ == b) || (
                        rels[j].to_table@ == table_name@ && rels[j].to_field@ == field_name@
                            && rels[j].from_table@ == b)),
            ),
        decreases rels.len() - k,
    {
        let relation = &catalog.relations[k];
        if relation.from_table.eq(&table_name) && relation.from_field.eq(&field_name) {
            insert_name(&mut first_hop, relation.to_table.clone());
        }
        if relation.to_table.eq(&table_name) && relation.to_field.eq(&field_name) {
            insert_name(&mut first_hop, relation.from_table.clone());
        }
        proof {
            assert(views(first_hop@).to_set() =~= Set::new(
                |b: Seq<char>|
                    exists|j: int|
                        0 <= j < k + 1 && ((#[trigger] rels[j].from_table@ == table_name@
                            && rels[j].from_field@ == field_name@ && rels[j].to_table@ == b) || (
                        rels[j].to_table@ == table_name@ && rels[j].to_field@ == field_name@
                            && rels[j].from_table@ == b)),
            ));
        }
        k = k + 1;
    }
    assert(views(first_hop@).to_set() =~= field_hop(rels, table_name@, field_name@));
    add_all(&mut names, &first_hop);
    if depth > 1 {
        let reached = expand(catalog, first_hop, depth - 1);
        add_all(&mut names, &reached);
    } else {
        assert(views(names@).to_set() =~= views(names@).to_set().union(Set::empty()));
    }
    Ok(names)
}


/// Keeps the names that are tables of the catalog.
fn retain_existing(catalog: &Catalog, names: &Vec<String>) -> (r: Vec<String>)
    requires
        views(names@).no_duplicates(),
    ensures
        views(r@).no_duplicates(),
        views(r@).to_set() == views(names@).to_set().intersect(table_names(catalog.tables@)),
{
    let ghost all = views(names@).to_set();
    let mut out: Vec<String> = Vec::new();
    let mut i: usize = 0;
    assert(views(out@).to_set() =~= Set::empty());
    assert(views(names@).take(0).to_set() =~= Set::empty());
    while i < names.len()
        invariant
            i <= names@.len(),
            views(out@).no_duplicates(),
            views(out@).to_set() == views(names@).take(i as int).to_set().intersect(
                table_names(catalog.tables@),
            ),
        decreases names@.len() - i,
    {
        proof {
            assert(views(names@).take(i as int + 1) == views(names@).take(i as int).push(names@[i as int]@));
            views(names@).take(i as int).lemma_push_to_set_commute(names@[i as int]@);
        }
        if is_table(catalog, &names[i]) {
            insert_name(&mut out, names[i].clone());
        }
        proof {
            assert(views(out@).to_set() =~= views(names@).take(i as int + 1).to_set().intersect(
                table_names(catalog.tables@),
            ));
        }
        i = i + 1;
    }
    assert(views(names@).take(names@.len() as int) == views(names@));
    out
}

/// Tables just outside `names` that a relation with one end inside reaches.
fn outside_tables(catalog: &Catalog, names: &Vec<String>) -> (r: Vec<String>)
    ensures
        views(r@).no_duplicates(),
        views(r@).to_set() == outside_neighbours(
            catalog.tables@,
            catalog.relations@,
            views(names@).to_set(),
        ),
{
    let ghost rels = catalog.relations@;
    let ghost tables = catalog.tables@;
    let ghost n = views(names@).to_set();
    let mut extra: Vec<String> = Vec::new();
    let mut k: usize = 0;
    assert(views(extra@).to_set() =~= Set::empty());
    while k < catalog.relations.len()
        invariant
            rels == catalog.relations@,
            tables == catalog.tables@,
            n == views(names@).to_set(),
            k <= rels.len(),
            views(extra@).no_duplicates(),
            views(extra@).to_set() == Set::new(
                |x: Seq<char>|
                    is_table_name(tables, x) && exists|j: int|
                        0 <= j < k && ((n.contains(#[trigger] rels[j].from_table@) && !n.contains(
                            rels[j].to_table@,
                        ) && rels[j].to_table@ == x) || (!n.contains(rels[j].from_table@)
                            && n.contains(rels[j].to_table@) && rels[j].from_table@ == x)),
            ),
        decreases rels.len() - k,
    {
        let relation = &catalog.relations[k];
        let from_in = contains_name(names, &relation.from_table);
        let to_in = contains_name(names, &relation.to_table);
        if from_in != to_in {
            let outside = if from_in {
                &relation.to_table
            } else {
                &relation.from_table
            };
            if is_table(catalog, outside) {
                insert_name(&mut extra, outside.clone());
            }
        }
        proof {
            assert(views(extra@).to_set() =~= Set::new(
                |x: Seq<char>|
                    is_table_name(tables, x) && exists|j: int|
                        0 <= j < k + 1 && ((n.contains(#[trigger] rels[j].from_table@) && !n.contains(
                            rels[j].to_table@,
                        ) && rels[j].to_table@ == x) || (!n.contains(rels[j].from_table@)
                            && n.contains(rels[j].to_table@) && rels[j].from_table@ == x)),
            ));
        }
        k = k + 1;
    }
    assert(views(extra@).to_set() =~= outside_neighbours(tables, rels, n));
    extra
}

/// The catalog indices of the tables named in `names`, in catalog order.
fn catalog_indices(catalog: &Catalog, names: &Vec<String>) -> (r: Vec<usize>)
    ensures
        r@ == catalog_order(catalog.tables@, views(names@).to_set()),
{
    let ghost n = views(names@).to_set();
    let mut out: Vec<usize> = Vec::new();
    let mut i: usize = 0;
    while i < catalog.tables.len()
        invariant
            i <= catalog.tables@.len(),
            n == views(names@).to_set(),
            out@ == catalog_order(catalog.tables@.take(i as int), n),
        decreases catalog.tables@.len() - i,
    {
        assert(catalog.tables@.take(i as int + 1).drop_last() == catalog.tables@.take(i as int));
        if contains_name(names, &catalog.tables[i].name) {
            out.push(i);
        }
        i = i + 1;
    }
    assert(catalog.tables@.take(catalog.tables@.len() as int) == catalog.tables@);
    out
}

/// A table whose name is selected appears in the catalog order.
proof fn lemma_catalog_order_contains(tables: Seq<Table>, n: Set<Seq<char>>, i: int)
    requires
        0 <= i < tables.len(),
        tables.len() <= usize::MAX,
        n.contains(tables[i].name@),
    ensures
        catalog_order(tables, n).contains(i as usize),
    decreases tables.len(),
{
    let o = catalog_order(tables, n);
    if i == tables.len() - 1 {
        assert(o[o.len() - 1] == i as usize);
    } else {
        assert(tables.drop_last()[i] == tables[i]);
        lemma_catalog_order_contains(tables.drop_last(), n, i);
        let o0 = catalog_order(tables.drop_last(), n);
        let j = choose|j: int| 0 <= j < o0.len() && o0[j] == i as usize;
        assert(o[j] == i as usize);
    }
}

fn index_position(v: &Vec<usize>, x: usize) -> (r: Option<usize>)
    ensures
        match position_in(v@, x) {
            Some(i) => r matches Some(p) && p as int == i,
            None => r is None,
        },
{
    let mut i: usize = 0;
    while i < v.len()
        invariant
            i <= v@.len(),
            position_in(v@.take(i as int), x) is None,
        decreases v@.len() - i,
    {
        assert(v@.take(i as int + 1).drop_last() == v@.take(i as int));
        if v[i] == x {
            proof {
                lemma_position_prefix(v@, x, i as int + 1);
            }
            return Some(i);
        }
        i = i + 1;
    }
    assert(v@.take(v@.len() as int) == v@);
    None
}

fn name_position(v: &Vec<String>, x: &String) -> (r: Option<usize>)
    ensures
        match position_in(views(v@), x@) {
            Some(i) => r matches Some(p) && p as int == i,
            None => r is None,
        },
{
    let mut i: usize = 0;
    while i < v.len()
        invariant
            i <= v@.len(),
            position_in(views(v@).take(i as int), x@) is None,
        decreases v@.len() - i,
    {
        assert(views(v@).take(i as int + 1).drop_last() == views(v@).take(i as int));
        if v[i].eq(x) {
            proof {
                assert(views(v@)[i as int] == x@);
                lemma_position_prefix(views(v@), x@, i as int + 1);
            }
            return Some(i);
        }
        i = i + 1;
    }
    assert(views(v@).take(v@.len() as int) == views(v@));
    None
}

fn resolve_endpoint(
    catalog: &Catalog,
    order: &Vec<usize>,
    ghosts: &mut Vec<String>,
    name: &String,
    inside: bool,
) -> (r: Endpoint)
    requires
        inside ==> (first_table_named(catalog.tables@, name@) matches Some(i) && order@.contains(
            i as usize,
        )),
    ensures
        (views(final(ghosts)@), r) == spec_endpoint(
            catalog.tables@,
            order@,
            views(old(ghosts)@),
            name@,
            inside,
        ),
{
    if inside {
        proof {
            first_table_named_meaning(catalog.tables@, name@);
        }
        let i = match catalog.table_index(name.as_str()) {
            Some(i) => i,
            None => 0,
        };
        proof {
            position_in_meaning(order@, i);
        }
        let p = match index_position(order, i) {
            Some(p) => p,
            None => 0,
        };
        Endpoint::Table(p)
    } else {
        proof {
            position_in_meaning(views(ghosts@), name@);
        }
        match name_position(ghosts, name) {
            Some(p) => Endpoint::Stub(p),
            None => {
                let position = ghosts.len();
                proof {
                    lemma_views_push(ghosts@, *name);
                }
                ghosts.push(name.clone());
                Endpoint::Stub(position)
            },
        }
    }
}


/// Visits every relation in order, keeping those with at least one end in the
/// selection (and, in `Hide` mode, only those with both ends in it).
fn route(
    catalog: &Catalog,
    names: &Vec<String>,
    order: &Vec<usize>,
    mode: ExternalRefs,
) -> (r: (Vec<String>, Vec<SelectedRelation>))
    requires
        views(names@).to_set().subset_of(table_names(catalog.tables@)),
        order@ == catalog_order(catalog.tables@, views(names@).to_set()),
    ensures
        (views(r.0@), r.1@) == spec_route(
            *catalog,
            views(names@).to_set(),
            order@,
            mode,
            catalog.relations@.len(),
        ),
{
    let ghost n = views(names@).to_set();
    let mut ghosts: Vec<String> = Vec::new();
    let mut relations: Vec<SelectedRelation> = Vec::new();
    let mut k: usize = 0;
    assert(views(ghosts@) =~= Seq::<Seq<char>>::empty());
    while k < catalog.relations.len()
        invariant
            k <= catalog.relations@.len(),
            n == views(names@).to_set(),
            n.subset_of(table_names(catalog.tables@)),
            order@ == catalog_order(catalog.tables@, n),
            (views(ghosts@), relations@) == spec_route(*catalog, n, order@, mode, k as nat),
        decreases catalog.relations@.len() - k,
    {
        let relation = &catalog.relations[k];
        let from_in = contains_name(names, &relation.from_table);
        let to_in = contains_name(names, &relation.to_table);
        if !from_in && !to_in {
        } else if from_in != to_in && mode == ExternalRefs::Hide {
        } else {
            let tables_len = catalog.tables.len();
            proof {
                assert(catalog.tables@.len() == tables_len);
                if from_in {
                    endpoint_is_selected(catalog.tables@, n, relation.from_table@);
                }
                if to_in {
                    endpoint_is_selected(catalog.tables@, n, relation.to_table@);
                }
            }
            let from = resolve_endpoint(catalog, order, &mut ghosts, &relation.from_table, from_in);
            let to = resolve_endpoint(catalog, order, &mut ghosts, &relation.to_table, to_in);
            relations.push(SelectedRelation { relation: k, from, to });
        }
        k = k + 1;
    }
    (ghosts, relations)
}

/// A selected name belongs to a table that the catalog order lists.
proof fn endpoint_is_selected(tables: Seq<Table>, n: Set<Seq<char>>, name: Seq<char>)
    requires
        n.contains(name),
        n.subset_of(table_names(tables)),
        tables.len() <= usize::MAX,
    ensures
        first_table_named(tables, name) matches Some(i) && catalog_order(tables, n).contains(
            i as usize,
        ),
{
    assert(table_names(tables).contains(name));
    first_table_named_meaning(tables, name);
    lemma_is_table_name(tables, name);
    let i = first_table_named(tables, name).unwrap();
    lemma_catalog_order_contains(tables, n, i);
}

/// Selects the tables to draw, the ghost stubs for tables just outside the
/// selection, and the relations to keep.
pub fn select(catalog: &Catalog, spec: &SelectionSpec) -> (r: Result<Selection, AppError>)
    ensures
        match (r, spec_select(*catalog, *spec)) {
            (Ok(sel), Ok(v)) => sel.tables@ == v.0 && views(sel.ghosts@) == v.1 && sel.relations@
                == v.2,
            (Err(e), Err(f)) => failure(e) == f,
            _ => false,
        },
{
    let mut names: Vec<String> = Vec::new();
    assert(views(names@).to_set() =~= Set::empty());
    let ghost base: Set<Seq<char>> = Set::empty();
    if spec.is_unfiltered() {
        let mut i: usize = 0;
        while i < catalog.tables.len()
            invariant
                i <= catalog.tables@.len(),
                views(names@).no_duplicates(),
                views(names@).to_set() == Set::new(
                    |x: Seq<char>| exists|j: int| 0 <= j < i && #[trigger] catalog.tables@[j].name@ == x,
                ),
            decreases catalog.tables@.len() - i,
        {
            insert_name(&mut names, catalog.tables[i].name.clone());
            assert(views(names@).to_set() =~= Set::new(
                |x: Seq<char>| exists|j: int| 0 <= j < i + 1 && #[trigger] catalog.tables@[j].name@ == x,
            ));
            i = i + 1;
        }
        assert(views(names@).to_set() =~= table_names(catalog.tables@));
        proof {
            base = table_names(catalog.tables@);
        }
    }
    assert(views(names@).to_set() == base);
    let ghost tables = catalog.tables@;
    let ghost rels = catalog.relations@;
    add_listed(catalog, &spec.tables, &mut names)?;
    let ghost listed = views(names@).to_set();
    assert(listed == base.union(views(spec.tables@).to_set()));
    let ghost m: Set<Seq<char>> = Set::empty();
    match &spec.tables_match {
        Some(pattern) => {
            add_matching(catalog, pattern, &mut names)?;
            proof {
                m = matched_names(tables, pattern@);
            }
        },
        None => {
            assert(views(names@).to_set() =~= listed.union(Set::empty()));
        },
    }
    assert(views(names@).to_set() == listed.union(m));
    let ghost fo: Set<Seq<char>> = Set::empty();
    match &spec.focus {
        Some(focus) => {
            if !is_table(catalog, focus) {
                let mut msg = String::new();
                push_str(&mut msg, "--focus references ");
                let quoted = debug_text(focus.as_str());
                push_str(&mut msg, quoted.as_str());
                push_str(&mut msg, ", which is not in this catalog");
                return Err(AppError::Selection(msg));
            }
            let mut seeds: Vec<String> = Vec::new();
            seeds.push(focus.clone());
            proof {
                lemma_views_push(Seq::<String>::empty(), *focus);
                assert(Seq::<String>::empty().push(*focus) == seeds@);
                assert(views(Seq::<String>::empty()).to_set() =~= Set::empty());
                assert(views(seeds@).to_set() =~= set![focus@]);
                assert(views(seeds@).len() == 1);
            }
            let reached = expand(catalog, seeds, spec.depth);
            add_all(&mut names, &reached);
            proof {
                fo = within(rels, set![focus@], spec.depth as nat);
            }
        },
        None => {
            assert(views(names@).to_set() =~= listed.union(m).union(Set::empty()));
        },
    }
    assert(views(names@).to_set() == listed.union(m).union(fo));
    let ghost bf: Set<Seq<char>> = Set::empty();
    match &spec.field {
        Some(field) => {
            let more = select_by_field(catalog, field.as_str(), spec.depth)?;
            add_all(&mut names, &more);
            proof {
                bf = views(more@).to_set();
            }
        },
        None => {
            assert(views(names@).to_set() =~= listed.union(m).union(fo).union(Set::empty()));
        },
    }
    assert(views(names@).to_set() == listed.union(m).union(fo).union(bf));
    let mut names = retain_existing(catalog, &names);
    if spec.external_refs == ExternalRefs::Include {
        let extra = outside_tables(catalog, &names);
        add_all(&mut names, &extra);
    }
    let ghost n = views(names@).to_set();
    assert(spec_candidates(*catalog, *spec) == Ok::<Set<Seq<char>>, (ExitCode, Seq<char>)>(n));
    proof {
        views(names@).unique_seq_to_set();
    }
    if names.len() == 0 {
        return Err(AppError::Selection(String::from_str(
            "the selection is empty; loosen --tables/--tables-match/--focus or increase --depth",
        )));
    }
    if names.len() > spec.max_tables {
        let mut msg = String::new();
        push_str(&mut msg, "the selection contains ");
        push_decimal(&mut msg, names.len() as u64);
        push_str(&mut msg, " tables, above the --max-tables cap of ");
        push_decimal(&mut msg, spec.max_tables as u64);
        push_str(
            &mut msg,
            "; narrow it with --focus, --tables, or --tables-match, or raise --max-tables",
        );
        return Err(AppError::Selection(msg));
    }
    assert(n.subset_of(table_names(tables))) by {
        if spec.external_refs == ExternalRefs::Include {
            assert forall|x: Seq<char>| n.contains(x) implies table_names(tables).contains(x) by {
            }
        }
    }
    let order = catalog_indices(catalog, &names);
    let routed = route(catalog, &names, &order, spec.external_refs);
    Ok(Selection { tables: order, ghosts: routed.0, relations: routed.1 })
}


/// Whether endpoint `e` designates the table or ghost called `name`.
pub open spec fn endpoint_names(
    tables: Seq<Table>,
    order: Seq<usize>,
    ghosts: Seq<Seq<char>>,
    e: Endpoint,
    name: Seq<char>,
) -> bool {
    match e {
        Endpoint::Table(p) => p < order.len() && order[p as int] < tables.len()
            && tables[order[p as int] as int].name@ == name,
        Endpoint::Stub(p) => p < ghosts.len() && ghosts[p as int] == name,
    }
}

/// The catalog order lists, in increasing order, exactly the tables whose
/// name is selected.
pub proof fn catalog_order_is_exact(tables: Seq<Table>, n: Set<Seq<char>>)
    requires
        tables.len() <= usize::MAX,
    ensures
        forall|k: int| 0 <= k < catalog_order(tables, n).len() ==> {
            let i = #[trigger] catalog_order(tables, n)[k];
            i < tables.len() && n.contains(tables[i as int].name@)
        },
        forall|k: int, l: int| 0 <= k < l < catalog_order(tables, n).len() ==>
            catalog_order(tables, n)[k] < catalog_order(tables, n)[l],
        forall|i: int| 0 <= i < tables.len() && n.contains(#[trigger] tables[i].name@) ==>
            catalog_order(tables, n).contains(i as usize),
    decreases tables.len(),
{
    if tables.len() > 0 {
        let rest = tables.drop_last();
        catalog_order_is_exact(rest, n);
        let o = catalog_order(tables, n);
        let o0 = catalog_order(rest, n);
        let last = (tables.len() - 1) as usize;
        assert(o == o0 || o == o0.push(last));
        assert forall|k: int| 0 <= k < o.len() implies {
            let i = #[trigger] o[k];
            i < tables.len() && n.contains(tables[i as int].name@)
        } by {
            if k < o0.len() {
                assert(o[k] == o0[k]);
                assert(rest[o0[k] as int] == tables[o0[k] as int]);
            }
        }
        assert forall|k: int, l: int| 0 <= k < l < o.len() implies o[k] < o[l] by {
            if l < o0.len() {
                assert(o[k] == o0[k] && o[l] == o0[l]);
            } else {
                assert(o[k] == o0[k]);
            }
        }
        assert forall|i: int| 0 <= i < tables.len() && n.contains(#[trigger] tables[i].name@) implies o.contains(i as usize) by {
            lemma_catalog_order_contains(tables, n, i);
        }
    }
}

/// Every relation the selection keeps has an end inside the selection (both
/// ends in `Hide` mode), and each of its endpoints designates the table or
/// ghost of the right name. Ghosts are distinct and never selected tables.
pub proof fn routed_relations_are_consistent(c: Catalog, n: Set<Seq<char>>, mode: ExternalRefs, k: nat)
    requires
        n.subset_of(table_names(c.tables@)),
        k <= c.relations@.len(),
        c.tables@.len() <= usize::MAX,
        c.relations@.len() < usize::MAX / 2,
    ensures
        ({
            let order = catalog_order(c.tables@, n);
            let (g, rs) = spec_route(c, n, order, mode, k);
            &&& g.len() <= 2 * k
            &&& g.no_duplicates()
            &&& forall|i: int| 0 <= i < g.len() ==> !n.contains(#[trigger] g[i])
            &&& forall|j: int|
                0 <= j < rs.len() ==> {
                    let sr = #[trigger] rs[j];
                    let r = c.relations@[sr.relation as int];
                    &&& sr.relation < k
                    &&& n.contains(r.from_table@) || n.contains(r.to_table@)
                    &&& mode == ExternalRefs::Hide ==> n.contains(r.from_table@) && n.contains(
                        r.to_table@,
                    )
                    &&& endpoint_names(c.tables@, order, g, sr.from, r.from_table@)
                    &&& endpoint_names(c.tables@, order, g, sr.to, r.to_table@)
                }
            &&& forall|j: int, l: int| 0 <= j < l < rs.len() ==> rs[j].relation < rs[l].relation
        }),
    decreases k,
{
    if k > 0 {
        routed_relations_are_consistent(c, n, mode, (k - 1) as nat);
        let order = catalog_order(c.tables@, n);
        let (g0, rs0) = spec_route(c, n, order, mode, (k - 1) as nat);
        let r = c.relations@[k - 1];
        let from_in = n.contains(r.from_table@);
        let to_in = n.contains(r.to_table@);
        if !(!from_in && !to_in) && !(from_in != to_in && mode == ExternalRefs::Hide) {
            let (g1, from) = spec_endpoint(c.tables@, order, g0, r.from_table@, from_in);
            let (g2, to) = spec_endpoint(c.tables@, order, g1, r.to_table@, to_in);
            lemma_endpoint(c.tables@, n, order, g0, r.from_table@, from_in);
            lemma_endpoint(c.tables@, n, order, g1, r.to_table@, to_in);
            let (g, rs) = spec_route(c, n, order, mode, k);
            assert(g == g2 && rs == rs0.push(SelectedRelation { relation: (k - 1) as usize, from, to }));
            assert forall|j: int| 0 <= j < rs.len() implies {
                let sr = #[trigger] rs[j];
                let r = c.relations@[sr.relation as int];
                &&& sr.relation < k
                &&& n.contains(r.from_table@) || n.contains(r.to_table@)
                &&& mode == ExternalRefs::Hide ==> n.contains(r.from_table@) && n.contains(
                    r.to_table@,
                )
                &&& endpoint_names(c.tables@, order, g, sr.from, r.from_table@)
                &&& endpoint_names(c.tables@, order, g, sr.to, r.to_table@)
            } by {
                if j < rs0.len() {
                    assert(rs[j] == rs0[j]);
                    let sr = rs0[j];
                    let rr = c.relations@[sr.relation as int];
                    lemma_endpoint_grows(c.tables@, order, g0, g, sr.from, rr.from_table@);
                    lemma_endpoint_grows(c.tables@, order, g0, g, sr.to, rr.to_table@);
                } else {
                    lemma_endpoint_grows(c.tables@, order, g1, g, from, r.from_table@);
                }
            }
        }
    }
}

proof fn lemma_endpoint(
    tables: Seq<Table>,
    n: Set<Seq<char>>,
    order: Seq<usize>,
    g: Seq<Seq<char>>,
    name: Seq<char>,
    inside: bool,
)
    requires
        n.subset_of(table_names(tables)),
        tables.len() <= usize::MAX,
        order == catalog_order(tables, n),
        inside == n.contains(name),
        g.no_duplicates(),
        forall|i: int| 0 <= i < g.len() ==> !n.contains(#[trigger] g[i]),
        g.len() < usize::MAX,
    ensures
        ({
            let (g1, e) = spec_endpoint(tables, order, g, name, inside);
            &&& g1.len() <= g.len() + 1
            &&& g1.no_duplicates()
            &&& forall|i: int| 0 <= i < g1.len() ==> !n.contains(#[trigger] g1[i])
            &&& endpoint_names(tables, order, g1, e, name)
            &&& g1.len() >= g.len()
            &&& forall|i: int| 0 <= i < g.len() ==> g1[i] == g[i]
        }),
{
    if inside {
        endpoint_is_selected(tables, n, name);
        let i = first_table_named(tables, name).unwrap();
        first_table_named_meaning(tables, name);
        position_in_meaning(order, i as usize);
        catalog_order_is_exact(tables, n);
        catalog_order_len(tables, n);
    } else {
        position_in_meaning(g, name);
        let (g1, e) = spec_endpoint(tables, order, g, name, inside);
        if position_in(g, name) is None {
            assert(g1 == g.push(name));
            assert forall|a: int, b: int| 0 <= a < b < g1.len() implies g1[a] != g1[b] by {
                if b == g.len() {
                    assert(g1[a] == g[a]);
                }
            }
        }
    }
}

proof fn catalog_order_len(tables: Seq<Table>, n: Set<Seq<char>>)
    ensures
        catalog_order(tables, n).len() <= tables.len(),
    decreases tables.len(),
{
    if tables.len() > 0 {
        catalog_order_len(tables.drop_last(), n);
    }
}

proof fn lemma_endpoint_grows(
    tables: Seq<Table>,
    order: Seq<usize>,
    g: Seq<Seq<char>>,
    g1: Seq<Seq<char>>,
    e: Endpoint,
    name: Seq<char>,
)
    requires
        endpoint_names(tables, order, g, e, name),
        g1.len() >= g.len(),
        forall|i: int| 0 <= i < g.len() ==> g1[i] == g[i],
    ensures
        endpoint_names(tables, order, g1, e, name),
{
}


/// `--focus T --depth d` on its own selects exactly the tables within `d`
/// relation hops of `T`, following relations in either direction; with
/// `--depth 0` that is `T` alone.
pub proof fn focus_selects_its_neighbourhood(c: Catalog, s: SelectionSpec)
    requires
        s.tables@.len() == 0,
        s.tables_match is None,
        s.field is None,
        s.focus matches Some(f) && is_table_name(c.tables@, f@),
        s.external_refs != ExternalRefs::Include,
    ensures
        spec_candidates(c, s) == Ok::<Set<Seq<char>>, (ExitCode, Seq<char>)>(
            within(c.relations@, set![s.focus.unwrap()@], s.depth as nat).intersect(
                table_names(c.tables@),
            ),
        ),
        s.depth == 0 ==> spec_candidates(c, s) == Ok::<Set<Seq<char>>, (ExitCode, Seq<char>)>(
            set![s.focus.unwrap()@],
        ),
{
    let f = s.focus.unwrap();
    assert(views(s.tables@).to_set() =~= Set::empty());
    let w = within(c.relations@, set![f@], s.depth as nat);
    assert(Set::<Seq<char>>::empty().union(Set::empty()).union(Set::empty()).union(w).union(
        Set::empty(),
    ).intersect(table_names(c.tables@)) =~= w.intersect(table_names(c.tables@)));
    if s.depth == 0 {
        assert(table_names(c.tables@).contains(f@));
        assert(set![f@].intersect(table_names(c.tables@)) =~= set![f@]);
    }
}

/// `--field T.F` with a depth of at least one follows every relation whose
/// source or destination endpoint is `T.F`, whichever way the relation runs:
/// when the selection succeeds, a catalog table at the other end of such a
/// relation is among the selected tables, and so is `T` itself.
pub proof fn field_selection_follows_relations_both_ways(
    c: Catalog,
    s: SelectionSpec,
    table: Seq<char>,
    field: Seq<char>,
    k: int,
    i: int,
)
    requires
        c.tables@.len() <= usize::MAX,
        s.field matches Some(f) && f@ == table + "."@ + field,
        !table.contains('.'),
        s.depth >= 1,
        0 <= k < c.relations@.len(),
        0 <= i < c.tables@.len(),
        spec_select(c, s) is Ok,
    ensures
        ({
            let r = c.relations@[k];
            let other = c.tables@[i].name@;
            (other == table || (r.from_table@ == table && r.from_field@ == field && r.to_table@ == other)
                || (r.to_table@ == table && r.to_field@ == field && r.from_table@ == other))
                ==> spec_select(c, s)->Ok_0.0.contains(i as usize)
        }),
{
    let r = c.relations@[k];
    let other = c.tables@[i].name@;
    let f = s.field.unwrap()@;
    if other == table || (r.from_table@ == table && r.from_field@ == field && r.to_table@ == other)
        || (r.to_table@ == table && r.to_field@ == field && r.from_table@ == other) {
        reveal_strlit(".");
        assert(f[table.len() as int] == '.');
        position_in_meaning(f, '.');
        let d = position_in(f, '.').unwrap();
        if d < table.len() {
            assert(table[d] == f[d]);
            assert(table.contains('.'));
        }
        assert(d == table.len());
        assert(f.take(d) =~= table);
        assert(f.skip(d + 1) =~= field);
        let n = spec_candidates(c, s)->Ok_0;
        let bf = spec_field_names(c, f, s.depth as nat)->Ok_0;
        assert(spec_field_names(c, f, s.depth as nat) is Ok);
        let hop = field_hop(c.relations@, table, field);
        if other != table {
            assert(hop.contains(other));
        }
        assert(bf.contains(other));
        assert(table_names(c.tables@).contains(other));
        assert(n.contains(other));
        catalog_order_is_exact(c.tables@, n);
    }
}

/// Without any filter, every table of the catalog is selected.
pub proof fn no_filter_selects_every_table(c: Catalog, s: SelectionSpec)
    requires
        spec_unfiltered(s),
        s.external_refs != ExternalRefs::Include,
    ensures
        spec_candidates(c, s) == Ok::<Set<Seq<char>>, (ExitCode, Seq<char>)>(table_names(c.tables@)),
{
    assert(views(s.tables@).to_set() =~= Set::empty());
    let t = table_names(c.tables@);
    assert(t.union(Set::empty()).union(Set::empty()).union(Set::empty()).union(Set::empty()).intersect(t) =~= t);
}

/// The hop count only ever widens a neighbourhood.
pub proof fn deeper_reaches_further(rels: Seq<Relation>, seeds: Set<Seq<char>>, a: nat, b: nat)
    requires
        a <= b,
    ensures
        within(rels, seeds, a).subset_of(within(rels, seeds, b)),
    decreases b - a,
{
    if a < b {
        deeper_reaches_further(rels, seeds, a, (b - 1) as nat);
    }
}


/// Names of the tables in the selection, in selection order, for diagnostics
/// and tests.
pub fn selected_names(catalog: &Catalog, selection: &Selection) -> (r: Vec<String>)
    requires
        forall|k: int| 0 <= k < selection.tables@.len() ==> #[trigger] selection.tables@[k] < catalog.tables@.len(),
    ensures
        views(r@) == selection.tables@.map_values(|i: usize| catalog.tables@[i as int].name@),
{
    let mut out: Vec<String> = Vec::new();
    let mut k: usize = 0;
    while k < selection.tables.len()
        invariant
            k <= selection.tables@.len(),
            forall|j: int| 0 <= j < selection.tables@.len() ==> #[trigger] selection.tables@[j] < catalog.tables@.len(),
            views(out@) == selection.tables@.take(k as int).map_values(|i: usize| catalog.tables@[i as int].name@),
        decreases selection.tables@.len() - k,
    {
        let i = selection.tables[k];
        proof {
            lemma_views_push(out@, catalog.tables@[i as int].name);
        }
        out.push(catalog.tables[i].name.clone());
        assert(selection.tables@.take(k as int + 1).map_values(|i: usize| catalog.tables@[i as int].name@)
            =~= selection.tables@.take(k as int).map_values(|i: usize| catalog.tables@[i as int].name@).push(catalog.tables@[i as int].name@));
        k = k + 1;
    }
    assert(selection.tables@.take(selection.tables@.len() as int) == selection.tables@);
    out
}

} // verus!
