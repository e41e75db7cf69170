//! Plain-text diagram exports: Mermaid `erDiagram` and Graphviz `digraph`.
//!
//! These reuse the same catalog + selection as the drawn formats but skip
//! layout and rasterization entirely — the target tool does its own layout, so
//! stored editor coordinates are irrelevant here.

use vstd::prelude::*;

use crate::model::{spec_display_code, visible_indices, Catalog, Field, Relation, Table};
use crate::parse::opt_view;
use crate::select::{
    catalog_order, catalog_order_is_exact, routed_relations_are_consistent,
    spec_candidates, spec_route, spec_select, table_names, Endpoint, SelectedRelation, Selection,
    SelectionSpec,
};
use crate::text::{
    chars_of, concat, contains_name, decimal, lemma_concat_step, lemma_take_all, lemma_views_push, push_char,
    push_decimal, push_str, views,
};
use crate::types::spec_type_label;

verus! {

/// `char::is_ascii_digit`.
pub open spec fn is_ascii_digit(c: char) -> bool {
    '0' <= c && c <= '9'
}

/// `char::is_ascii_alphanumeric`.
pub open spec fn is_ascii_alnum(c: char) -> bool {
    is_ascii_digit(c) || ('A' <= c && c <= 'Z') || ('a' <= c && c <= 'z')
}

/// A character allowed in an identifier, or `_` in its place.
pub open spec fn safe_char(c: char) -> char {
    if is_ascii_alnum(c) {
        c
    } else {
        '_'
    }
}

/// `name` reduced to `[A-Za-z0-9_]`, never empty and never leading with a
/// digit (a `T` is put in front of one).
pub open spec fn spec_sanitize(name: Seq<char>) -> Seq<char> {
    let m = name.map_values(|c: char| safe_char(c));
    let m = if m.len() == 0 {
        seq!['_']
    } else {
        m
    };
    if is_ascii_digit(m[0]) {
        seq!['T'] + m
    } else {
        m
    }
}

/// Whether `s` is a safe identifier: only `[A-Za-z0-9_]`, not empty, not
/// leading with a digit.
pub open spec fn is_identifier(s: Seq<char>) -> bool {
    &&& s.len() > 0
    &&& !is_ascii_digit(s[0])
    &&& forall|i: int| 0 <= i < s.len() ==> #[trigger] is_ascii_alnum(s[i]) || s[i] == '_'
}

/// Reduce a name to `[A-Za-z0-9_]`, never empty and never leading with a digit.
pub fn sanitize(name: &str) -> (r: String)
    ensures
        r@ == spec_sanitize(name@),
{
    let chars = chars_of(name);
    let mut mapped: Vec<char> = Vec::new();
    let mut i: usize = 0;
    while i < chars.len()
        invariant
            i <= chars@.len(),
            chars@ == name@,
            mapped@ == chars@.take(i as int).map_values(|c: char| safe_char(c)),
        decreases chars@.len() - i,
    {
        let c = chars[i];
        let s = if ('0' <= c && c <= '9') || ('A' <= c && c <= 'Z') || ('a' <= c && c <= 'z') {
            c
        } else {
            '_'
        };
        mapped.push(s);
        assert(chars@.take(i as int + 1).map_values(|c: char| safe_char(c)) =~= chars@.take(
            i as int,
        ).map_values(|c: char| safe_char(c)).push(safe_char(chars@[i as int])));
        i = i + 1;
    }
    proof {
        lemma_take_all(chars@);
    }
    if mapped.len() == 0 {
        mapped.push('_');
    }
    let mut out = String::new();
    if '0' <= mapped[0] && mapped[0] <= '9' {
        push_char(&mut out, 'T');
    }
    crate::text::push_chars(&mut out, mapped.as_slice());
    out
}

/// Every sanitized name is a safe identifier.
pub proof fn sanitize_yields_identifiers(name: Seq<char>)
    ensures
        is_identifier(spec_sanitize(name)),
{
    let m0 = name.map_values(|c: char| safe_char(c));
    let m = if m0.len() == 0 {
        seq!['_']
    } else {
        m0
    };
    assert forall|i: int| 0 <= i < m.len() implies #[trigger] is_ascii_alnum(m[i]) || m[i] == '_' by {
        if m0.len() > 0 {
            assert(m[i] == safe_char(name[i]));
        }
    }
    let s = spec_sanitize(name);
    if is_ascii_digit(m[0]) {
        assert(s == seq!['T'] + m);
        assert forall|i: int| 0 <= i < s.len() implies #[trigger] is_ascii_alnum(s[i]) || s[i] == '_' by {
            if i > 0 {
                assert(s[i] == m[i - 1]);
            }
        }
    }
}

/// A relation label character: quotes become apostrophes, characters that
/// could end a string or an enclosing markup context become `_`, control
/// characters become spaces.
pub open spec fn label_char(c: char) -> char {
    if c == '"' {
        '\''
    } else if c == '<' || c == '>' || c == '\\' || c == '&' {
        '_'
    } else if (c as u32) < 0x20 {
        ' '
    } else {
        c
    }
}

/// A relation label made safe, cut to its first 80 characters.
pub open spec fn spec_label_text(value: Seq<char>) -> Seq<char> {
    let m = value.map_values(|c: char| label_char(c));
    if m.len() <= 80 {
        m
    } else {
        m.take(80)
    }
}

/// Relation labels are free text, so keep them readable but strip everything
/// that could terminate a Mermaid string or an enclosing HTML context.
pub fn label_text(value: &str) -> (r: String)
    ensures
        r@ == spec_label_text(value@),
{
    let chars = chars_of(value);
    let mut out = String::new();
    let mut i: usize = 0;
    while i < chars.len() && i < 80
        invariant
            i <= chars@.len(),
            i <= 80,
            chars@ == value@,
            out@ == chars@.take(i as int).map_values(|c: char| label_char(c)),
        decreases chars@.len() - i,
    {
        let c = chars[i];
        let m = if c == '"' {
            '\''
        } else if c == '<' || c == '>' || c == '\\' || c == '&' {
            '_'
        } else if (c as u32) < 0x20 {
            ' '
        } else {
            c
        };
        push_char(&mut out, m);
        assert(chars@.take(i as int + 1).map_values(|c: char| label_char(c)) =~= chars@.take(
            i as int,
        ).map_values(|c: char| label_char(c)).push(label_char(chars@[i as int])));
        i = i + 1;
    }
    let ghost m = value@.map_values(|c: char| label_char(c));
    assert(out@ =~= (if m.len() <= 80 {
        m
    } else {
        m.take(80)
    }));
    out
}

/// A label is never longer than 80 characters and holds no double quote,
/// angle bracket, backslash, ampersand or control character.
pub proof fn label_text_is_inert(value: Seq<char>)
    ensures
        spec_label_text(value).len() <= 80,
        forall|i: int| 0 <= i < spec_label_text(value).len() ==> {
            let c = #[trigger] spec_label_text(value)[i];
            c != '"' && c != '<' && c != '>' && c != '\\' && c != '&' && (c as u32) >= 0x20
        },
{
}

/// What one character becomes inside a Graphviz record label.
pub open spec fn dot_escape_char(c: char) -> Seq<char> {
    if c == '"' || c == '\\' || c == '{' || c == '}' || c == '|' || c == '<' || c == '>' || c
        == ' ' {
        seq!['\\', c]
    } else if c == '\n' || c == '\r' || c == '\t' {
        seq![' ']
    } else {
        seq![c]
    }
}

/// A string escaped for a Graphviz double-quoted record label.
pub open spec fn spec_dot_escape(value: Seq<char>) -> Seq<char>
    decreases value.len(),
{
    if value.len() == 0 {
        seq![]
    } else {
        spec_dot_escape(value.drop_last()) + dot_escape_char(value.last())
    }
}

/// Escape a string for use inside a Graphviz double-quoted record label.
pub fn dot_escape(value: &str) -> (r: String)
    ensures
        r@ == spec_dot_escape(value@),
{
    let chars = chars_of(value);
    let mut out = String::new();
    let mut i: usize = 0;
    while i < chars.len()
        invariant
            i <= chars@.len(),
            chars@ == value@,
            out@ == spec_dot_escape(chars@.take(i as int)),
        decreases chars@.len() - i,
    {
        let c = chars[i];
        assert(chars@.take(i as int + 1).drop_last() == chars@.take(i as int));
        if c == '"' || c == '\\' || c == '{' || c == '}' || c == '|' || c == '<' || c == '>' || c
            == ' ' {
            push_char(&mut out, '\\');
            push_char(&mut out, c);
        } else if c == '\n' || c == '\r' || c == '\t' {
            push_char(&mut out, ' ');
        } else {
            push_char(&mut out, c);
        }
        i = i + 1;
    }
    proof {
        lemma_take_all(chars@);
    }
    out
}

/// The key marker of a field: `PK` for the primary key (by flag or by the
/// table's primary-key name), `UK` for another unique field.
pub open spec fn spec_field_key(t: Table, f: Field) -> Option<Seq<char>> {
    if f.is_primary_key || opt_view(t.primary_key) == Some(f.name@) {
        Some("PK"@)
    } else if f.unique {
        Some("UK"@)
    } else {
        None
    }
}

fn field_key(table: &Table, field: &Field) -> (r: Option<&'static str>)
    ensures
        match spec_field_key(*table, *field) {
            Some(k) => r matches Some(s) && s@ == k,
            None => r is None,
        },
{
    let named_pk = match &table.primary_key {
        Some(pk) => pk.eq(&field.name),
        None => false,
    };
    if field.is_primary_key || named_pk {
        Some("PK")
    } else if field.unique {
        Some("UK")
    } else {
        None
    }
}

/// `base_N`: a base told apart by a number.
pub open spec fn suffixed(b: Seq<char>, n: nat) -> Seq<char> {
    b + "_"@ + decimal(n)
}

/// The first number from `n` on whose `base_N` is not among `used`, looking
/// no further than one past the count of `used` (by which one is free).
pub open spec fn free_suffix(used: Seq<Seq<char>>, b: Seq<char>, n: nat) -> nat
    decreases used.len() + 1 - n,
{
    if n >= used.len() + 1 || !used.contains(suffixed(b, n)) {
        n
    } else {
        free_suffix(used, b, n + 1)
    }
}

/// The identifier the next entry with sanitized name `b` gets after the
/// identifiers `used`: the name itself while nobody has it, else `b_N` with
/// the smallest `N >= 2` nobody has.
pub open spec fn fresh_id(used: Seq<Seq<char>>, b: Seq<char>) -> Seq<char> {
    if used.contains(b) {
        suffixed(b, free_suffix(used, b, 2))
    } else {
        b
    }
}

/// The identifiers of the sanitized names `bases`, handed out in order.
pub open spec fn assign_ids(bases: Seq<Seq<char>>) -> Seq<Seq<char>>
    decreases bases.len(),
{
    if bases.len() == 0 {
        seq![]
    } else {
        let prev = assign_ids(bases.drop_last());
        prev.push(fresh_id(prev, bases.last()))
    }
}

/// Digits of different values mod 10 differ.
proof fn lemma_digit_char_injective(a: int, b: int)
    requires
        crate::text::digit_char(a) == crate::text::digit_char(b),
    ensures
        a % 10 == b % 10,
{
    let x = a % 10;
    let y = b % 10;
    assert(0 <= x < 10 && 0 <= y < 10);
    if x != y {
        assert(crate::text::digit_char(a) != crate::text::digit_char(b));
    }
}

/// Different numbers have different decimal notations.
proof fn lemma_decimal_injective(m: nat, n: nat)
    requires
        decimal(m) == decimal(n),
    ensures
        m == n,
    decreases m,
{
    assert(decimal((m / 10) as nat).len() >= 1);
    assert(decimal((n / 10) as nat).len() >= 1);
    if m >= 10 && n >= 10 {
        assert(decimal(m).drop_last() == decimal((m / 10) as nat));
        assert(decimal(n).drop_last() == decimal((n / 10) as nat));
        lemma_decimal_injective((m / 10) as nat, (n / 10) as nat);
        assert(decimal(m) == decimal((m / 10) as nat).push(crate::text::digit_char(m as int)));
        assert(decimal(n) == decimal((n / 10) as nat).push(crate::text::digit_char(n as int)));
        assert(decimal(m).last() == decimal(n).last());
        assert(decimal(m).last() == crate::text::digit_char(m as int));
        assert(decimal(n).last() == crate::text::digit_char(n as int));
        lemma_digit_char_injective(m as int, n as int);
    } else if m < 10 && n < 10 {
        assert(decimal(m) == seq![crate::text::digit_char(m as int)]);
        assert(decimal(n) == seq![crate::text::digit_char(n as int)]);
        assert(decimal(m)[0] == decimal(n)[0]);
        assert(decimal(m)[0] == crate::text::digit_char(m as int));
        assert(decimal(n)[0] == crate::text::digit_char(n as int));
        lemma_digit_char_injective(m as int, n as int);
    } else {
        assert(decimal(m).len() != decimal(n).len());
    }
}

/// Different numbers tell a base apart differently, and never give the base
/// itself back.
proof fn lemma_suffixed_distinct(b: Seq<char>, m: nat, n: nat)
    ensures
        suffixed(b, m) == suffixed(b, n) ==> m == n,
        suffixed(b, m) != b,
{
    reveal_strlit("_");
    assert(suffixed(b, m).len() > b.len());
    if suffixed(b, m) == suffixed(b, n) {
        assert(suffixed(b, m).skip(b.len() as int + 1) =~= decimal(m));
        assert(suffixed(b, n).skip(b.len() as int + 1) =~= decimal(n));
        lemma_decimal_injective(m, n);
    }
}

/// A list holding a base cannot also hold all of `base_2` to `base_{L+1}`,
/// `L` being its length: that would be `L + 1` different entries.
proof fn lemma_room_for_a_suffix(used: Seq<Seq<char>>, b: Seq<char>)
    requires
        used.contains(b),
    ensures
        exists|m: nat| 2 <= m <= used.len() + 1 && !used.contains(#[trigger] suffixed(b, m)),
{
    if forall|m: nat| 2 <= m <= used.len() + 1 ==> used.contains(#[trigger] suffixed(b, m)) {
        lemma_all_suffixes_cannot_be_taken(used, b);
        used.lemma_cardinality_of_set();
    }
}

proof fn lemma_all_suffixes_cannot_be_taken(used: Seq<Seq<char>>, b: Seq<char>)
    requires
        used.contains(b),
        forall|m: nat| 2 <= m <= used.len() + 1 ==> used.contains(#[trigger] suffixed(b, m)),
    ensures
        used.to_set().len() >= used.len() + 1,
{
    let l = used.len();
    let cands = Seq::new(l, |i: int| suffixed(b, (i + 2) as nat)).push(b);
    assert forall|i: int, j: int| 0 <= i < j < cands.len() implies cands[i] != cands[j] by {
        lemma_suffixed_distinct(b, (i + 2) as nat, (j + 2) as nat);
    }
    assert(cands.no_duplicates());
    cands.unique_seq_to_set();
    assert forall|x: Seq<char>| cands.to_set().contains(x) implies used.to_set().contains(x) by {
        let i = choose|i: int| 0 <= i < cands.len() && cands[i] == x;
        if i < l {
            assert(used.contains(suffixed(b, (i + 2) as nat)));
        }
    }
    vstd::seq_lib::seq_to_set_is_finite(used);
    vstd::set_lib::lemma_len_subset(cands.to_set(), used.to_set());
}

/// The number [`free_suffix`] finds is at least where the search starts, and
/// its `base_N` is not among `used`.
proof fn lemma_free_suffix(used: Seq<Seq<char>>, b: Seq<char>, n: nat)
    requires
        used.contains(b),
        2 <= n <= used.len() + 1,
        forall|m: nat| 2 <= m < n ==> used.contains(#[trigger] suffixed(b, m)),
    ensures
        n <= free_suffix(used, b, n),
        !used.contains(suffixed(b, free_suffix(used, b, n))),
    decreases used.len() + 1 - n,
{
    if n >= used.len() + 1 {
        if used.contains(suffixed(b, n)) {
            assert forall|m: nat| 2 <= m <= used.len() + 1 implies used.contains(#[trigger] suffixed(b, m)) by {
                if m == n {
                }
            }
            lemma_room_for_a_suffix(used, b);
        }
    } else if used.contains(suffixed(b, n)) {
        lemma_free_suffix(used, b, n + 1);
    }
}

/// The identifiers of `bases` are one per base, pairwise different, and each
/// is its base or the base with `_N` (`N >= 2`) appended.
proof fn lemma_assign_ids(bases: Seq<Seq<char>>)
    ensures
        assign_ids(bases).len() == bases.len(),
        assign_ids(bases).no_duplicates(),
        forall|k: int|
            0 <= k < bases.len() ==> #[trigger] assign_ids(bases)[k] == bases[k] || exists|n: nat|
                n >= 2 && assign_ids(bases)[k] == #[trigger] suffixed(bases[k], n),
    decreases bases.len(),
{
    if bases.len() > 0 {
        let rest = bases.drop_last();
        let prev = assign_ids(rest);
        let b = bases.last();
        lemma_assign_ids(rest);
        let id = fresh_id(prev, b);
        if prev.contains(b) {
            lemma_free_suffix(prev, b, 2);
            assert(!prev.contains(id));
        }
        let ids = assign_ids(bases);
        assert(ids == prev.push(id));
        assert forall|i: int, j: int| 0 <= i < j < ids.len() implies ids[i] != ids[j] by {
            if j == ids.len() - 1 {
                assert(prev.contains(ids[i]));
            }
        }
        assert forall|k: int| 0 <= k < bases.len() implies #[trigger] ids[k] == bases[k] || exists|n: nat|
            n >= 2 && ids[k] == #[trigger] suffixed(bases[k], n) by {
            if k < rest.len() {
                assert(ids[k] == prev[k]);
                assert(bases[k] == rest[k]);
            } else if prev.contains(b) {
                let f = free_suffix(prev, b, 2);
                assert(ids[k] == suffixed(bases[k], f));
            }
        }
    }
}

/// The raw names a selection draws: its tables, then its ghosts.
pub open spec fn raw_names(c: Catalog, s: Selection) -> Seq<Seq<char>> {
    s.tables@.map_values(|i: usize| c.tables@[i as int].name@) + views(s.ghosts@)
}

/// The identifiers of the drawn names, in the order of [`raw_names`].
pub open spec fn spec_ids(c: Catalog, s: Selection) -> Seq<Seq<char>> {
    assign_ids(raw_names(c, s).map_values(|n: Seq<char>| spec_sanitize(n)))
}

/// Whether a selection refers only to tables, ghosts and relations that
/// exist.
pub open spec fn selection_fits(c: Catalog, s: Selection) -> bool {
    &&& forall|k: int| 0 <= k < s.tables@.len() ==> #[trigger] s.tables@[k] < c.tables@.len()
    &&& forall|k: int|
        0 <= k < s.relations@.len() ==> {
            let sr = #[trigger] s.relations@[k];
            &&& sr.relation < c.relations@.len()
            &&& endpoint_fits(s, sr.from)
            &&& endpoint_fits(s, sr.to)
        }
}

/// Whether an endpoint designates a selected table or a ghost.
pub open spec fn endpoint_fits(s: Selection, e: Endpoint) -> bool {
    match e {
        Endpoint::Table(i) => i < s.tables@.len(),
        Endpoint::Stub(i) => i < s.ghosts@.len(),
    }
}

fn endpoint_fits_exec(s: &Selection, e: Endpoint) -> (r: bool)
    ensures
        r == endpoint_fits(*s, e),
{
    match e {
        Endpoint::Table(i) => i < s.tables.len(),
        Endpoint::Stub(i) => i < s.ghosts.len(),
    }
}

/// Whether `selection` refers only to tables, ghosts and relations that
/// exist in `catalog` — which every selection made by
/// [`crate::select::select`] does.
pub fn fits(catalog: &Catalog, selection: &Selection) -> (r: bool)
    ensures
        r == selection_fits(*catalog, *selection),
{
    let mut k: usize = 0;
    while k < selection.tables.len()
        invariant
            k <= selection.tables@.len(),
            forall|j: int| 0 <= j < k ==> #[trigger] selection.tables@[j] < catalog.tables@.len(),
        decreases selection.tables@.len() - k,
    {
        if selection.tables[k] >= catalog.tables.len() {
            return false;
        }
        k = k + 1;
    }
    let mut j: usize = 0;
    while j < selection.relations.len()
        invariant
            j <= selection.relations@.len(),
            forall|m: int| 0 <= m < selection.tables@.len() ==> #[trigger] selection.tables@[m] < catalog.tables@.len(),
            forall|m: int|
                0 <= m < j ==> {
                    let sr = #[trigger] selection.relations@[m];
                    &&& sr.relation < catalog.relations@.len()
                    &&& endpoint_fits(*selection, sr.from)
                    &&& endpoint_fits(*selection, sr.to)
                },
        decreases selection.relations@.len() - j,
    {
        let sr = selection.relations[j];
        if sr.relation >= catalog.relations.len() || !endpoint_fits_exec(selection, sr.from)
            || !endpoint_fits_exec(selection, sr.to) {
            return false;
        }
        j = j + 1;
    }
    true
}

/// Identifiers in both Mermaid and Graphviz record labels are far more
/// restrictive than 4D object names, which may contain spaces, quotes and
/// non-ASCII characters. Every selected table gets a safe, unique id once
/// and keeps the name itself around for the human-readable label.
pub struct Names {
    /// Safe id per selected table, in `Selection::tables` order.
    pub tables: Vec<String>,
    /// Safe id per ghost, in `Selection::ghosts` order.
    pub ghosts: Vec<String>,
}

/// The identifier of endpoint `e`.
pub open spec fn endpoint_id(tables: Seq<Seq<char>>, ghosts: Seq<Seq<char>>, e: Endpoint) -> Seq<char> {
    match e {
        Endpoint::Table(i) => tables[i as int],
        Endpoint::Stub(i) => ghosts[i as int],
    }
}

impl Names {
    /// The identifier of an endpoint.
    pub fn of(&self, endpoint: Endpoint) -> (r: &str)
        requires
            match endpoint {
                Endpoint::Table(i) => i < self.tables@.len(),
                Endpoint::Stub(i) => i < self.ghosts@.len(),
            },
        ensures
            r@ == endpoint_id(views(self.tables@), views(self.ghosts@), endpoint),
    {
        match endpoint {
            Endpoint::Table(i) => self.tables[i].as_str(),
            Endpoint::Stub(i) => self.ghosts[i].as_str(),
        }
    }
}

/// `base_N` as a string.
fn suffix_text(b: &String, n: usize) -> (r: String)
    ensures
        r@ == suffixed(b@, n as nat),
{
    let mut id = b.clone();
    proof {
        reveal_strlit("_");
    }
    push_char(&mut id, '_');
    push_decimal(&mut id, n as u64);
    id
}

/// The identifier the next entry with sanitized name `b` gets after `used`.
fn next_id(used: &Vec<String>, b: &String) -> (r: String)
    requires
        used@.len() < usize::MAX,
    ensures
        r@ == fresh_id(views(used@), b@),
{
    let ghost u = views(used@);
    if !contains_name(used, b) {
        return b.clone();
    }
    let mut n: usize = 2;
    let mut cand = suffix_text(b, n);
    while contains_name(used, &cand)
        invariant
            u == views(used@),
            u.len() == used@.len(),
            used@.len() < usize::MAX,
            u.contains(b@),
            2 <= n <= u.len() + 1,
            cand@ == suffixed(b@, n as nat),
            forall|m: nat| 2 <= m < n ==> u.contains(#[trigger] suffixed(b@, m)),
            free_suffix(u, b@, 2) == free_suffix(u, b@, n as nat),
        decreases u.len() + 1 - n,
    {
        proof {
            if n >= u.len() + 1 {
                assert forall|m: nat| 2 <= m <= u.len() + 1 implies u.contains(#[trigger] suffixed(b@, m)) by {
                    if m == n {
                    }
                }
                lemma_room_for_a_suffix(u, b@);
            }
        }
        n = n + 1;
        cand = suffix_text(b, n);
    }
    cand
}

/// Sanitizing is lossy, so two distinct tables can collapse onto the same
/// id; they are told apart deterministically rather than silently merged.
fn names(catalog: &Catalog, selection: &Selection) -> (r: Names)
    requires
        selection_fits(*catalog, *selection),
    ensures
        views(r.tables@) + views(r.ghosts@) == spec_ids(*catalog, *selection),
        r.tables@.len() == selection.tables@.len(),
        r.ghosts@.len() == selection.ghosts@.len(),
{
    let ghost raws = raw_names(*catalog, *selection);
    let ghost bases_spec = raws.map_values(|n: Seq<char>| spec_sanitize(n));
    let nt = selection.tables.len();
    let mut bases: Vec<String> = Vec::new();
    let mut k: usize = 0;
    while k < nt
        invariant
            nt == selection.tables@.len(),
            k <= nt,
            selection_fits(*catalog, *selection),
            raws == raw_names(*catalog, *selection),
            bases_spec == raws.map_values(|n: Seq<char>| spec_sanitize(n)),
            views(bases@) == bases_spec.take(k as int),
        decreases nt - k,
    {
        let b = sanitize(catalog.tables[selection.tables[k]].name.as_str());
        proof {
            lemma_views_push(bases@, b);
            assert(raws[k as int] == catalog.tables@[selection.tables@[k as int] as int].name@);
            assert(bases_spec.take(k as int + 1) == bases_spec.take(k as int).push(bases_spec[k as int]));
        }
        bases.push(b);
        k = k + 1;
    }
    let mut g: usize = 0;
    while g < selection.ghosts.len()
        invariant
            nt == selection.tables@.len(),
            g <= selection.ghosts@.len(),
            raws == raw_names(*catalog, *selection),
            raws.len() == nt + selection.ghosts@.len(),
            bases_spec == raws.map_values(|n: Seq<char>| spec_sanitize(n)),
            views(bases@) == bases_spec.take(nt + g),
        decreases selection.ghosts@.len() - g,
    {
        let b = sanitize(selection.ghosts[g].as_str());
        proof {
            lemma_views_push(bases@, b);
            assert(raws[nt + g] == selection.ghosts@[g as int]@);
            assert(bases_spec.take(nt + g + 1) == bases_spec.take(nt + g).push(bases_spec[nt + g]));
        }
        bases.push(b);
        g = g + 1;
    }
    proof {
        lemma_take_all(bases_spec);
    }
    let mut all: Vec<String> = Vec::new();
    let mut i: usize = 0;
    while i < bases.len()
        invariant
            views(bases@) == bases_spec,
            i <= bases@.len(),
            views(all@) == assign_ids(bases_spec.take(i as int)),
            all@.len() == i,
        decreases bases@.len() - i,
    {
        let id = next_id(&all, &bases[i]);
        proof {
            assert(bases_spec.take(i as int + 1).drop_last() == bases_spec.take(i as int));
            assert(bases_spec[i as int] == bases@[i as int]@);
            lemma_views_push(all@, id);
        }
        all.push(id);
        i = i + 1;
    }
    proof {
        lemma_take_all(bases_spec);
        lemma_assign_ids(bases_spec);
    }
    let ghost ids = spec_ids(*catalog, *selection);
    assert(ids == views(all@));
    let mut tables: Vec<String> = Vec::new();
    let mut ghosts: Vec<String> = Vec::new();
    let mut i: usize = 0;
    while i < all.len()
        invariant
            nt == selection.tables@.len(),
            nt <= all@.len(),
            ids == views(all@),
            i <= all@.len(),
            i <= nt ==> views(tables@) == ids.take(i as int) && ghosts@.len() == 0,
            i > nt ==> views(tables@) == ids.take(nt as int) && views(ghosts@) == ids.subrange(
                nt as int,
                i as int,
            ),
        decreases all@.len() - i,
    {
        let id = all[i].clone();
        assert(ids[i as int] == all@[i as int]@);
        if i < nt {
            proof {
                lemma_views_push(tables@, id);
                assert(ids.take(i as int + 1) == ids.take(i as int).push(ids[i as int]));
            }
            tables.push(id);
        } else {
            proof {
                lemma_views_push(ghosts@, id);
                assert(ids.subrange(nt as int, i as int + 1) == ids.subrange(nt as int, i as int).push(ids[i as int]));
            }
            ghosts.push(id);
        }
        i = i + 1;
    }
    assert(views(tables@) + views(ghosts@) =~= ids);
    Names { tables, ghosts }
}

/// The label of a field's type.
pub open spec fn field_type_label(f: Field) -> Seq<char> {
    spec_type_label(spec_display_code(f))
}

/// ` PK` / ` UK`, or nothing.
pub open spec fn key_suffix(k: Option<Seq<char>>) -> Seq<char> {
    match k {
        Some(k) => " "@ + k,
        None => seq![],
    }
}

/// The Mermaid attribute line of field `i` of `t`.
pub open spec fn mermaid_field(t: Table, i: usize) -> Seq<char> {
    let f = t.fields@[i as int];
    "        "@ + spec_sanitize(field_type_label(f)) + " "@ + spec_sanitize(f.name@) + key_suffix(
        spec_field_key(t, f),
    ) + "\n"@
}

/// The Mermaid entity block of table `t` under identifier `id`.
pub open spec fn mermaid_entity(t: Table, id: Seq<char>, hide: bool) -> Seq<char> {
    "    "@ + id + " {\n"@ + concat(
        visible_indices(t.fields@, hide).map_values(|i: usize| mermaid_field(t, i)),
    ) + "    }\n"@
}

/// The label of a relation line: its N-to-1 name, else its 1-to-N name, else
/// `from_field_to_field`.
pub open spec fn relation_label(r: Relation) -> Seq<char> {
    match r.name_nto1 {
        Some(a) => a@,
        None => match r.name_1ton {
            Some(b) => b@,
            None => r.from_field@ + "_"@ + r.to_field@,
        },
    }
}

/// The identifier of an endpoint, given the identifiers of a selection.
pub open spec fn id_of(s: Selection, ids: Seq<Seq<char>>, e: Endpoint) -> Seq<char> {
    let nt = s.tables@.len() as int;
    endpoint_id(ids.take(nt), ids.skip(nt), e)
}

/// The Mermaid relationship line of a kept relation: the "1" side first.
pub open spec fn mermaid_link(c: Catalog, s: Selection, ids: Seq<Seq<char>>, sr: SelectedRelation) -> Seq<char> {
    let r = c.relations@[sr.relation as int];
    "    "@ + id_of(s, ids, sr.to) + " ||--o{ "@ + id_of(s, ids, sr.from) + " : \""@
        + spec_label_text(relation_label(r)) + "\"\n"@
}

/// A Mermaid relationship line is labelled with the relation's N-to-1 name
/// whenever the relation has one, else with its 1-to-N name, else with
/// `from_field_to_field`; the label is made safe with [`label_text`].
pub proof fn relationship_lines_prefer_the_n_to_1_name(c: Catalog, s: Selection, ids: Seq<Seq<char>>, sr: SelectedRelation)
    ensures
        ({
            let r = c.relations@[sr.relation as int];
            let name = if r.name_nto1 is Some {
                r.name_nto1.unwrap()@
            } else if r.name_1ton is Some {
                r.name_1ton.unwrap()@
            } else {
                r.from_field@ + "_"@ + r.to_field@
            };
            mermaid_link(c, s, ids, sr) == "    "@ + id_of(s, ids, sr.to) + " ||--o{ "@ + id_of(s, ids, sr.from)
                + " : \""@ + spec_label_text(name) + "\"\n"@
        }),
{
}

/// The Mermaid entity block of a ghost.
pub open spec fn mermaid_ghost(id: Seq<char>) -> Seq<char> {
    "    "@ + id + " {\n    }\n"@
}

/// The Mermaid `erDiagram` source of a selection.
pub open spec fn spec_mermaid(c: Catalog, s: Selection, hide: bool) -> Seq<char> {
    let ids = spec_ids(c, s);
    let nt = s.tables@.len() as int;
    "erDiagram\n"@ + concat(
        Seq::new(s.tables@.len(), |p: int| mermaid_entity(c.tables@[s.tables@[p] as int], ids[p], hide)),
    ) + concat(Seq::new(s.ghosts@.len(), |g: int| mermaid_ghost(ids[nt + g]))) + concat(
        s.relations@.map_values(|sr: SelectedRelation| mermaid_link(c, s, ids, sr)),
    )
}

fn mermaid_field_line(t: &Table, i: usize) -> (r: String)
    requires
        i < t.fields@.len(),
    ensures
        r@ == mermaid_field(*t, i),
{
    let f = &t.fields[i];
    let mut out = String::new();
    push_str(&mut out, "        ");
    let label = f.type_label();
    let ty = sanitize(label.as_str());
    push_str(&mut out, ty.as_str());
    push_str(&mut out, " ");
    let nm = sanitize(f.name.as_str());
    push_str(&mut out, nm.as_str());
    match field_key(t, f) {
        Some(k) => {
            push_str(&mut out, " ");
            push_str(&mut out, k);
        },
        None => {},
    }
    push_str(&mut out, "\n");
    out
}

fn mermaid_entity_block(t: &Table, id: &str, hide: bool) -> (r: String)
    ensures
        r@ == mermaid_entity(*t, id@, hide),
{
    let mut out = String::new();
    push_str(&mut out, "    ");
    push_str(&mut out, id);
    push_str(&mut out, " {\n");
    let ghost head = out@;
    let nf = t.fields.len();
    let visible = t.visible_fields(hide);
    let ghost parts = visible@.map_values(|i: usize| mermaid_field(*t, i));
    proof {
        assert(nf == t.fields@.len());
        crate::model::visible_indices_are_well_formed(t.fields@, hide);
    }
    let mut k: usize = 0;
    while k < visible.len()
        invariant
            k <= visible@.len(),
            visible@ == visible_indices(t.fields@, hide),
            parts == visible@.map_values(|i: usize| mermaid_field(*t, i)),
            forall|j: int| 0 <= j < visible@.len() ==> #[trigger] visible@[j] < t.fields@.len(),
            out@ == head + concat(parts.take(k as int)),
        decreases visible@.len() - k,
    {
        let line = mermaid_field_line(t, visible[k]);
        proof {
            lemma_concat_step(parts, k as int);
        }
        push_str(&mut out, line.as_str());
        k = k + 1;
    }
    proof {
        lemma_take_all(parts);
    }
    push_str(&mut out, "    }\n");
    out
}

/// `(a + b).take(a.len())` is `a`, and `.skip(a.len())` is `b`.
proof fn lemma_split<T>(a: Seq<T>, b: Seq<T>)
    ensures
        (a + b).take(a.len() as int) == a,
        (a + b).skip(a.len() as int) == b,
{
    assert((a + b).take(a.len() as int) =~= a);
    assert((a + b).skip(a.len() as int) =~= b);
}

fn relation_label_text(r: &Relation) -> (s: String)
    ensures
        s@ == relation_label(*r),
{
    match &r.name_nto1 {
        Some(a) => a.clone(),
        None => match &r.name_1ton {
            Some(b) => b.clone(),
            None => {
                let mut out = r.from_field.clone();
                push_str(&mut out, "_");
                push_str(&mut out, r.to_field.as_str());
                out
            },
        },
    }
}

/// The Mermaid entity blocks of the selected tables.
pub open spec fn mermaid_entities(c: Catalog, s: Selection, hide: bool) -> Seq<char> {
    let ids = spec_ids(c, s);
    concat(
        Seq::new(s.tables@.len(), |p: int| mermaid_entity(c.tables@[s.tables@[p] as int], ids[p], hide)),
    )
}

/// The Mermaid entity blocks of the ghosts.
pub open spec fn mermaid_ghosts(c: Catalog, s: Selection) -> Seq<char> {
    let ids = spec_ids(c, s);
    let nt = s.tables@.len() as int;
    concat(Seq::new(s.ghosts@.len(), |g: int| mermaid_ghost(ids[nt + g])))
}

/// The Mermaid relationship lines.
pub open spec fn mermaid_links(c: Catalog, s: Selection) -> Seq<char> {
    let ids = spec_ids(c, s);
    concat(s.relations@.map_values(|sr: SelectedRelation| mermaid_link(c, s, ids, sr)))
}

/// The identifiers `names` holds are those of the selection.
pub open spec fn names_match(c: Catalog, s: Selection, names: Names) -> bool {
    &&& views(names.tables@) + views(names.ghosts@) == spec_ids(c, s)
    &&& names.tables@.len() == s.tables@.len()
    &&& names.ghosts@.len() == s.ghosts@.len()
}

fn push_mermaid_entities(out: &mut String, catalog: &Catalog, selection: &Selection, names: &Names, hide: bool)
    requires
        selection_fits(*catalog, *selection),
        names_match(*catalog, *selection, *names),
    ensures
        final(out)@ == old(out)@ + mermaid_entities(*catalog, *selection, hide),
{
    let ghost ids = spec_ids(*catalog, *selection);
    let ghost p0 = out@;
    let ghost tparts = Seq::new(
        selection.tables@.len(),
        |p: int| mermaid_entity(catalog.tables@[selection.tables@[p] as int], ids[p], hide),
    );
    let nt = selection.tables.len();
    let mut p: usize = 0;
    while p < nt
        invariant
            nt == selection.tables@.len(),
            p <= nt,
            selection_fits(*catalog, *selection),
            names_match(*catalog, *selection, *names),
            ids == spec_ids(*catalog, *selection),
            tparts == Seq::new(
                selection.tables@.len(),
                |p: int| mermaid_entity(catalog.tables@[selection.tables@[p] as int], ids[p], hide),
            ),
            out@ == p0 + concat(tparts.take(p as int)),
        decreases nt - p,
    {
        let t = &catalog.tables[selection.tables[p]];
        assert(ids[p as int] == names.tables@[p as int]@);
        let block = mermaid_entity_block(t, names.tables[p].as_str(), hide);
        proof {
            lemma_concat_step(tparts, p as int);
        }
        push_str(out, block.as_str());
        p = p + 1;
    }
    proof {
        lemma_take_all(tparts);
    }
}

fn push_mermaid_ghosts(out: &mut String, catalog: &Catalog, selection: &Selection, names: &Names)
    requires
        names_match(*catalog, *selection, *names),
    ensures
        final(out)@ == old(out)@ + mermaid_ghosts(*catalog, *selection),
{
    let ghost ids = spec_ids(*catalog, *selection);
    let ghost p0 = out@;
    let nt = selection.tables.len();
    let ng = selection.ghosts.len();
    let ghost gparts = Seq::new(selection.ghosts@.len(), |g: int| mermaid_ghost(ids[nt + g]));
    let mut g: usize = 0;
    while g < ng
        invariant
            nt == selection.tables@.len(),
            ng == selection.ghosts@.len(),
            g <= ng,
            names_match(*catalog, *selection, *names),
            ids == spec_ids(*catalog, *selection),
            gparts == Seq::new(selection.ghosts@.len(), |g: int| mermaid_ghost(ids[nt + g])),
            out@ == p0 + concat(gparts.take(g as int)),
        decreases ng - g,
    {
        assert(ids[nt + g] == names.ghosts@[g as int]@);
        let mut line = String::new();
        push_str(&mut line, "    ");
        push_str(&mut line, names.ghosts[g].as_str());
        push_str(&mut line, " {\n    }\n");
        proof {
            lemma_concat_step(gparts, g as int);
        }
        push_str(out, line.as_str());
        g = g + 1;
    }
    proof {
        lemma_take_all(gparts);
    }
}

fn push_mermaid_links(out: &mut String, catalog: &Catalog, selection: &Selection, names: &Names)
    requires
        selection_fits(*catalog, *selection),
        names_match(*catalog, *selection, *names),
    ensures
        final(out)@ == old(out)@ + mermaid_links(*catalog, *selection),
{
    let ghost ids = spec_ids(*catalog, *selection);
    let ghost p0 = out@;
    let nt = selection.tables.len();
    proof {
        lemma_split(views(names.tables@), views(names.ghosts@));
    }
    let ghost rparts = selection.relations@.map_values(
        |sr: SelectedRelation| mermaid_link(*catalog, *selection, ids, sr),
    );
    let mut k: usize = 0;
    while k < selection.relations.len()
        invariant
            nt == selection.tables@.len(),
            k <= selection.relations@.len(),
            selection_fits(*catalog, *selection),
            names_match(*catalog, *selection, *names),
            ids == spec_ids(*catalog, *selection),
            views(names.tables@) == ids.take(nt as int),
            views(names.ghosts@) == ids.skip(nt as int),
            rparts == selection.relations@.map_values(
                |sr: SelectedRelation| mermaid_link(*catalog, *selection, ids, sr),
            ),
            out@ == p0 + concat(rparts.take(k as int)),
        decreases selection.relations@.len() - k,
    {
        let sr = selection.relations[k];
        let rel = &catalog.relations[sr.relation];
        let mut line = String::new();
        push_str(&mut line, "    ");
        push_str(&mut line, names.of(sr.to));
        push_str(&mut line, " ||--o{ ");
        push_str(&mut line, names.of(sr.from));
        push_str(&mut line, " : \"");
        let raw = relation_label_text(rel);
        let shown = label_text(raw.as_str());
        push_str(&mut line, shown.as_str());
        push_str(&mut line, "\"\n");
        proof {
            lemma_concat_step(rparts, k as int);
        }
        push_str(out, line.as_str());
        k = k + 1;
    }
    proof {
        lemma_take_all(rparts);
    }
}

/// Mermaid `erDiagram` source: one entity per selected table (its visible
/// fields as attributes), an empty entity per ghost so no relationship line
/// dangles, and one relationship line per kept relation.
pub fn mermaid(catalog: &Catalog, selection: &Selection, hide_system_fields: bool) -> (r: String)
    requires
        selection_fits(*catalog, *selection),
    ensures
        r@ == spec_mermaid(*catalog, *selection, hide_system_fields),
{
    let names = names(catalog, selection);
    let mut out = String::from_str("erDiagram\n");
    push_mermaid_entities(&mut out, catalog, selection, &names, hide_system_fields);
    push_mermaid_ghosts(&mut out, catalog, selection, &names);
    push_mermaid_links(&mut out, catalog, selection, &names);
    out
}

/// The record port of field `i`.
pub open spec fn port_name(i: usize) -> Seq<char> {
    "f"@ + decimal(i as nat)
}

/// ` [PK]` / ` [UK]`, or nothing.
pub open spec fn key_tag(k: Option<Seq<char>>) -> Seq<char> {
    match k {
        Some(k) => " ["@ + k + "]"@,
        None => seq![],
    }
}

/// The record part of field `i` of `t`.
pub open spec fn record_field(t: Table, i: usize) -> Seq<char> {
    let f = t.fields@[i as int];
    "|<"@ + port_name(i) + "> "@ + spec_dot_escape(f.name@) + " : "@ + spec_dot_escape(
        field_type_label(f),
    ) + spec_dot_escape(key_tag(spec_field_key(t, f)))
}

/// The record label of table `t`: its name, then one port per visible field.
pub open spec fn record_label(t: Table, hide: bool) -> Seq<char> {
    "{"@ + spec_dot_escape(t.name@) + concat(
        visible_indices(t.fields@, hide).map_values(|i: usize| record_field(t, i)),
    ) + "}"@
}

/// The Graphviz node of table `t` under identifier `id`.
pub open spec fn graphviz_node(t: Table, id: Seq<char>, hide: bool) -> Seq<char> {
    "  "@ + id + " [label=\""@ + record_label(t, hide) + "\"];\n"@
}

/// The Graphviz node of a ghost.
pub open spec fn graphviz_ghost(id: Seq<char>) -> Seq<char> {
    "  "@ + id + " [label=\"{"@ + id
        + "|(not in selection)}\", style=dashed, fontcolor=\"#6b7280\", color=\"#9ca3af\"];\n"@
}

/// The last of the fields `list` of `fields` called `name`: its port wins.
pub open spec fn last_named(fields: Seq<Field>, list: Seq<usize>, name: Seq<char>) -> Option<usize>
    decreases list.len(),
{
    if list.len() == 0 {
        None
    } else if fields[list.last() as int].name@ == name {
        Some(list.last())
    } else {
        last_named(fields, list.drop_last(), name)
    }
}

/// Where an edge attaches: the port of the named field when the table shows
/// it, else the node; a ghost's node.
pub open spec fn anchor(c: Catalog, s: Selection, ids: Seq<Seq<char>>, e: Endpoint, field: Seq<char>, hide: bool) -> Seq<char> {
    let nt = s.tables@.len() as int;
    match e {
        Endpoint::Table(i) => {
            let t = c.tables@[s.tables@[i as int] as int];
            match last_named(t.fields@, visible_indices(t.fields@, hide), field) {
                Some(p) => ids[i as int] + ":"@ + port_name(p),
                None => ids[i as int],
            }
        },
        Endpoint::Stub(i) => ids[nt + i],
    }
}

/// The label of a Graphviz edge: the N-to-1 name, else the 1-to-N name, else
/// nothing.
pub open spec fn edge_name(r: Relation) -> Seq<char> {
    match r.name_nto1 {
        Some(a) => a@,
        None => match r.name_1ton {
            Some(b) => b@,
            None => seq![],
        },
    }
}

/// The Graphviz edge of a kept relation, drawn from the "1" side.
pub open spec fn graphviz_edge(c: Catalog, s: Selection, ids: Seq<Seq<char>>, hide: bool, sr: SelectedRelation) -> Seq<char> {
    let r = c.relations@[sr.relation as int];
    "  "@ + anchor(c, s, ids, sr.to, r.to_field@, hide) + " -> "@ + anchor(
        c,
        s,
        ids,
        sr.from,
        r.from_field@,
        hide,
    ) + " [label=\""@ + spec_dot_escape(spec_label_text(edge_name(r)))
        + "\", arrowhead=none, arrowtail=crow, dir=back];\n"@
}

/// A Graphviz edge is labelled with the relation's N-to-1 name whenever the
/// relation has one, else with its 1-to-N name, else with nothing; the label
/// is made safe with [`label_text`] and then escaped for DOT.
pub proof fn edge_labels_prefer_the_n_to_1_name(c: Catalog, s: Selection, ids: Seq<Seq<char>>, hide: bool, sr: SelectedRelation)
    ensures
        ({
            let r = c.relations@[sr.relation as int];
            let name = if r.name_nto1 is Some {
                r.name_nto1.unwrap()@
            } else if r.name_1ton is Some {
                r.name_1ton.unwrap()@
            } else {
                Seq::<char>::empty()
            };
            graphviz_edge(c, s, ids, hide, sr) == "  "@ + anchor(c, s, ids, sr.to, r.to_field@, hide) + " -> "@
                + anchor(c, s, ids, sr.from, r.from_field@, hide) + " [label=\""@ + spec_dot_escape(spec_label_text(name))
                + "\", arrowhead=none, arrowtail=crow, dir=back];\n"@
        }),
{
}

/// The fixed opening of the Graphviz source.
pub open spec fn graphviz_header() -> Seq<char> {
    "digraph catalog {\n"@ + "  rankdir=LR;\n"@ + "  graph [splines=ortho, nodesep=0.4, ranksep=0.9];\n"@
        + "  node [shape=record, fontname=\"Helvetica\", fontsize=10];\n"@
        + "  edge [fontname=\"Helvetica\", fontsize=9];\n"@
}

/// The Graphviz nodes of the selected tables.
pub open spec fn graphviz_nodes(c: Catalog, s: Selection, hide: bool) -> Seq<char> {
    let ids = spec_ids(c, s);
    concat(
        Seq::new(s.tables@.len(), |p: int| graphviz_node(c.tables@[s.tables@[p] as int], ids[p], hide)),
    )
}

/// The Graphviz nodes of the ghosts.
pub open spec fn graphviz_ghosts(c: Catalog, s: Selection) -> Seq<char> {
    let ids = spec_ids(c, s);
    let nt = s.tables@.len() as int;
    concat(Seq::new(s.ghosts@.len(), |g: int| graphviz_ghost(ids[nt + g])))
}

/// The Graphviz edges.
pub open spec fn graphviz_edges(c: Catalog, s: Selection, hide: bool) -> Seq<char> {
    let ids = spec_ids(c, s);
    concat(s.relations@.map_values(|sr: SelectedRelation| graphviz_edge(c, s, ids, hide, sr)))
}

/// The Graphviz `digraph` source of a selection.
pub open spec fn spec_graphviz(c: Catalog, s: Selection, hide: bool) -> Seq<char> {
    graphviz_header() + graphviz_nodes(c, s, hide) + graphviz_ghosts(c, s) + graphviz_edges(c, s, hide)
        + "}\n"@
}

fn record_field_text(t: &Table, i: usize) -> (r: String)
    requires
        i < t.fields@.len(),
    ensures
        r@ == record_field(*t, i),
{
    let f = &t.fields[i];
    let mut out = String::new();
    push_str(&mut out, "|<f");
    push_decimal(&mut out, i as u64);
    push_str(&mut out, "> ");
    let nm = dot_escape(f.name.as_str());
    push_str(&mut out, nm.as_str());
    push_str(&mut out, " : ");
    let label = f.type_label();
    let ty = dot_escape(label.as_str());
    push_str(&mut out, ty.as_str());
    let mut tag = String::new();
    match field_key(t, f) {
        Some(k) => {
            push_str(&mut tag, " [");
            push_str(&mut tag, k);
            push_str(&mut tag, "]");
        },
        None => {},
    }
    let escaped = dot_escape(tag.as_str());
    push_str(&mut out, escaped.as_str());
    proof {
        reveal_strlit("|<f");
        reveal_strlit("|<");
        reveal_strlit("f");
    }
    out
}

fn graphviz_node_text(t: &Table, id: &str, hide: bool) -> (r: String)
    ensures
        r@ == graphviz_node(*t, id@, hide),
{
    let mut label = String::new();
    push_str(&mut label, "{");
    let name = dot_escape(t.name.as_str());
    push_str(&mut label, name.as_str());
    let ghost head = label@;
    let nf = t.fields.len();
    let visible = t.visible_fields(hide);
    let ghost parts = visible@.map_values(|i: usize| record_field(*t, i));
    proof {
        assert(nf == t.fields@.len());
        crate::model::visible_indices_are_well_formed(t.fields@, hide);
    }
    let mut k: usize = 0;
    while k < visible.len()
        invariant
            k <= visible@.len(),
            visible@ == visible_indices(t.fields@, hide),
            parts == visible@.map_values(|i: usize| record_field(*t, i)),
            forall|j: int| 0 <= j < visible@.len() ==> #[trigger] visible@[j] < t.fields@.len(),
            label@ == head + concat(parts.take(k as int)),
        decreases visible@.len() - k,
    {
        let part = record_field_text(t, visible[k]);
        proof {
            lemma_concat_step(parts, k as int);
        }
        push_str(&mut label, part.as_str());
        k = k + 1;
    }
    proof {
        lemma_take_all(parts);
    }
    push_str(&mut label, "}");
    let mut out = String::new();
    push_str(&mut out, "  ");
    push_str(&mut out, id);
    push_str(&mut out, " [label=\"");
    push_str(&mut out, label.as_str());
    push_str(&mut out, "\"];\n");
    out
}

fn push_graphviz_nodes(out: &mut String, catalog: &Catalog, selection: &Selection, names: &Names, hide: bool)
    requires
        selection_fits(*catalog, *selection),
        names_match(*catalog, *selection, *names),
    ensures
        final(out)@ == old(out)@ + graphviz_nodes(*catalog, *selection, hide),
{
    let ghost ids = spec_ids(*catalog, *selection);
    let ghost p0 = out@;
    let ghost parts = Seq::new(
        selection.tables@.len(),
        |p: int| graphviz_node(catalog.tables@[selection.tables@[p] as int], ids[p], hide),
    );
    let nt = selection.tables.len();
    let mut p: usize = 0;
    while p < nt
        invariant
            nt == selection.tables@.len(),
            p <= nt,
            selection_fits(*catalog, *selection),
            names_match(*catalog, *selection, *names),
            ids == spec_ids(*catalog, *selection),
            parts == Seq::new(
                selection.tables@.len(),
                |p: int| graphviz_node(catalog.tables@[selection.tables@[p] as int], ids[p], hide),
            ),
            out@ == p0 + concat(parts.take(p as int)),
        decreases nt - p,
    {
        let t = &catalog.tables[selection.tables[p]];
        assert(ids[p as int] == names.tables@[p as int]@);
        let node = graphviz_node_text(t, names.tables[p].as_str(), hide);
        proof {
            lemma_concat_step(parts, p as int);
        }
        push_str(out, node.as_str());
        p = p + 1;
    }
    proof {
        lemma_take_all(parts);
    }
}

fn push_graphviz_ghosts(out: &mut String, catalog: &Catalog, selection: &Selection, names: &Names)
    requires
        names_match(*catalog, *selection, *names),
    ensures
        final(out)@ == old(out)@ + graphviz_ghosts(*catalog, *selection),
{
    let ghost ids = spec_ids(*catalog, *selection);
    let ghost p0 = out@;
    let nt = selection.tables.len();
    let ng = selection.ghosts.len();
    let ghost parts = Seq::new(selection.ghosts@.len(), |g: int| graphviz_ghost(ids[nt + g]));
    let mut g: usize = 0;
    while g < ng
        invariant
            nt == selection.tables@.len(),
            ng == selection.ghosts@.len(),
            g <= ng,
            names_match(*catalog, *selection, *names),
            ids == spec_ids(*catalog, *selection),
            parts == Seq::new(selection.ghosts@.len(), |g: int| graphviz_ghost(ids[nt + g])),
            out@ == p0 + concat(parts.take(g as int)),
        decreases ng - g,
    {
        assert(ids[nt + g] == names.ghosts@[g as int]@);
        let id = names.ghosts[g].as_str();
        let mut line = String::new();
        push_str(&mut line, "  ");
        push_str(&mut line, id);
        push_str(&mut line, " [label=\"{");
        push_str(&mut line, id);
        push_str(
            &mut line,
            "|(not in selection)}\", style=dashed, fontcolor=\"#6b7280\", color=\"#9ca3af\"];\n",
        );
        proof {
            lemma_concat_step(parts, g as int);
        }
        push_str(out, line.as_str());
        g = g + 1;
    }
    proof {
        lemma_take_all(parts);
    }
}

fn last_named_exec(fields: &Vec<Field>, list: &Vec<usize>, name: &String) -> (r: Option<usize>)
    requires
        forall|j: int| 0 <= j < list@.len() ==> #[trigger] list@[j] < fields@.len(),
    ensures
        r == last_named(fields@, list@, name@),
{
    let mut k: usize = list.len();
    proof {
        lemma_take_all(list@);
    }
    while k > 0
        invariant
            k <= list@.len(),
            forall|j: int| 0 <= j < list@.len() ==> #[trigger] list@[j] < fields@.len(),
            last_named(fields@, list@, name@) == last_named(fields@, list@.take(k as int), name@),
        decreases k,
    {
        let i = list[k - 1];
        assert(list@.take(k as int).drop_last() == list@.take(k as int - 1));
        if fields[i].name.eq(name) {
            return Some(i);
        }
        k = k - 1;
    }
    None
}

fn anchor_text(catalog: &Catalog, selection: &Selection, names: &Names, e: Endpoint, field: &String, hide: bool) -> (r: String)
    requires
        selection_fits(*catalog, *selection),
        names_match(*catalog, *selection, *names),
        endpoint_fits(*selection, e),
    ensures
        r@ == anchor(*catalog, *selection, spec_ids(*catalog, *selection), e, field@, hide),
{
    let ghost ids = spec_ids(*catalog, *selection);
    match e {
        Endpoint::Table(i) => {
            assert(ids[i as int] == names.tables@[i as int]@);
            let t = &catalog.tables[selection.tables[i]];
            let nf = t.fields.len();
            let visible = t.visible_fields(hide);
            proof {
                assert(nf == t.fields@.len());
                crate::model::visible_indices_are_well_formed(t.fields@, hide);
            }
            let mut out = names.tables[i].clone();
            match last_named_exec(&t.fields, &visible, field) {
                Some(p) => {
                    push_str(&mut out, ":f");
                    push_decimal(&mut out, p as u64);
                    proof {
                        reveal_strlit(":f");
                        reveal_strlit(":");
                        reveal_strlit("f");
                    }
                },
                None => {},
            }
            out
        },
        Endpoint::Stub(i) => {
            let nt = selection.tables.len();
            assert(ids[nt + i] == names.ghosts@[i as int]@);
            names.ghosts[i].clone()
        },
    }
}

fn edge_name_text(r: &Relation) -> (s: String)
    ensures
        s@ == edge_name(*r),
{
    match &r.name_nto1 {
        Some(a) => a.clone(),
        None => match &r.name_1ton {
            Some(b) => b.clone(),
            None => String::new(),
        },
    }
}

fn push_graphviz_edges(out: &mut String, catalog: &Catalog, selection: &Selection, names: &Names, hide: bool)
    requires
        selection_fits(*catalog, *selection),
        names_match(*catalog, *selection, *names),
    ensures
        final(out)@ == old(out)@ + graphviz_edges(*catalog, *selection, hide),
{
    let ghost ids = spec_ids(*catalog, *selection);
    let ghost p0 = out@;
    let ghost parts = selection.relations@.map_values(
        |sr: SelectedRelation| graphviz_edge(*catalog, *selection, ids, hide, sr),
    );
    let mut k: usize = 0;
    while k < selection.relations.len()
        invariant
            k <= selection.relations@.len(),
            selection_fits(*catalog, *selection),
            names_match(*catalog, *selection, *names),
            ids == spec_ids(*catalog, *selection),
            parts == selection.relations@.map_values(
                |sr: SelectedRelation| graphviz_edge(*catalog, *selection, ids, hide, sr),
            ),
            out@ == p0 + concat(parts.take(k as int)),
        decreases selection.relations@.len() - k,
    {
        let sr = selection.relations[k];
        let rel = &catalog.relations[sr.relation];
        let to = anchor_text(catalog, selection, names, sr.to, &rel.to_field, hide);
        let from = anchor_text(catalog, selection, names, sr.from, &rel.from_field, hide);
        let raw = edge_name_text(rel);
        let shown = label_text(raw.as_str());
        let escaped = dot_escape(shown.as_str());
        let mut line = String::new();
        push_str(&mut line, "  ");
        push_str(&mut line, to.as_str());
        push_str(&mut line, " -> ");
        push_str(&mut line, from.as_str());
        push_str(&mut line, " [label=\"");
        push_str(&mut line, escaped.as_str());
        push_str(&mut line, "\", arrowhead=none, arrowtail=crow, dir=back];\n");
        proof {
            lemma_concat_step(parts, k as int);
        }
        push_str(out, line.as_str());
        k = k + 1;
    }
    proof {
        lemma_take_all(parts);
    }
}

/// Graphviz `digraph` source with record-shaped nodes. Ports let edges
/// attach to the field that actually carries the relation rather than to
/// the middle of the node.
pub fn graphviz(catalog: &Catalog, selection: &Selection, hide_system_fields: bool) -> (r: String)
    requires
        selection_fits(*catalog, *selection),
    ensures
        r@ == spec_graphviz(*catalog, *selection, hide_system_fields),
{
    let names = names(catalog, selection);
    let mut out = String::from_str("digraph catalog {\n");
    push_str(&mut out, "  rankdir=LR;\n");
    push_str(&mut out, "  graph [splines=ortho, nodesep=0.4, ranksep=0.9];\n");
    push_str(&mut out, "  node [shape=record, fontname=\"Helvetica\", fontsize=10];\n");
    push_str(&mut out, "  edge [fontname=\"Helvetica\", fontsize=9];\n");
    push_graphviz_nodes(&mut out, catalog, selection, &names, hide_system_fields);
    push_graphviz_ghosts(&mut out, catalog, selection, &names);
    push_graphviz_edges(&mut out, catalog, selection, &names, hide_system_fields);
    push_str(&mut out, "}\n");
    out
}

/// Every successful selection of [`crate::select::select`] fits its catalog:
/// its tables are tables of the catalog, its relations relations of the
/// catalog, and every endpoint designates one of its tables or ghosts — so
/// [`mermaid`] and [`graphviz`] accept it.
pub proof fn selections_fit_their_catalog(c: Catalog, s: SelectionSpec, sel: Selection)
    requires
        c.tables@.len() <= usize::MAX,
        c.relations@.len() < usize::MAX / 2,
        spec_select(c, s) matches Ok(v) && sel.tables@ == v.0 && views(sel.ghosts@) == v.1
            && sel.relations@ == v.2,
    ensures
        selection_fits(c, sel),
{
    let n = spec_candidates(c, s)->Ok_0;
    assert(n.subset_of(table_names(c.tables@))) by {
        assert forall|x: Seq<char>| n.contains(x) implies table_names(c.tables@).contains(x) by {
        }
    }
    let order = catalog_order(c.tables@, n);
    catalog_order_is_exact(c.tables@, n);
    routed_relations_are_consistent(c, n, s.external_refs, c.relations@.len());
    let (g, rs) = spec_route(c, n, order, s.external_refs, c.relations@.len());
    assert(views(sel.ghosts@).len() == sel.ghosts@.len());
    assert forall|k: int| 0 <= k < sel.relations@.len() implies {
        let sr = #[trigger] sel.relations@[k];
        &&& sr.relation < c.relations@.len()
        &&& endpoint_fits(sel, sr.from)
        &&& endpoint_fits(sel, sr.to)
    } by {
        assert(sel.relations@[k] == rs[k]);
    }
}

/// Decimal notation uses digits only.
proof fn lemma_decimal_digits(n: nat)
    ensures
        forall|i: int| 0 <= i < decimal(n).len() ==> #[trigger] is_ascii_digit(decimal(n)[i]),
    decreases n,
{
    if n >= 10 {
        lemma_decimal_digits(n / 10);
        let d = decimal(n / 10);
        assert forall|i: int| 0 <= i < decimal(n).len() implies #[trigger] is_ascii_digit(decimal(n)[i]) by {
            if i < d.len() {
                assert(decimal(n)[i] == d[i]);
            }
        }
    }
}

/// Every identifier given to a drawn table or ghost is a safe identifier:
/// only `[A-Za-z0-9_]`, never empty, never leading with a digit.
pub proof fn drawn_ids_are_identifiers(c: Catalog, s: Selection)
    ensures
        forall|k: int| 0 <= k < spec_ids(c, s).len() ==> is_identifier(#[trigger] spec_ids(c, s)[k]),
{
    let bases = raw_names(c, s).map_values(|n: Seq<char>| spec_sanitize(n));
    lemma_assign_ids(bases);
    assert forall|k: int| 0 <= k < spec_ids(c, s).len() implies is_identifier(#[trigger] spec_ids(c, s)[k]) by {
        let b = bases[k];
        sanitize_yields_identifiers(raw_names(c, s)[k]);
        let id = spec_ids(c, s)[k];
        if id != b {
            let n = choose|n: nat| n >= 2 && id == #[trigger] suffixed(b, n);
            lemma_decimal_digits(n);
            reveal_strlit("_");
            assert forall|i: int| 0 <= i < id.len() implies #[trigger] is_ascii_alnum(id[i]) || id[i] == '_' by {
                if i >= b.len() + 1 {
                    assert(id[i] == decimal(n)[i - b.len() - 1]);
                } else if i < b.len() {
                    assert(id[i] == b[i]);
                }
            }
            assert(id[0] == b[0]);
        }
    }
}

/// Every drawn table and ghost gets an identifier of its own: no two are
/// equal, so no two entities are merged. Each is the entity's sanitized name,
/// or, when that is already taken, the name with `_N` (`N >= 2`) appended.
pub proof fn drawn_ids_are_distinct(c: Catalog, s: Selection)
    ensures
        spec_ids(c, s).len() == raw_names(c, s).len(),
        spec_ids(c, s).no_duplicates(),
        forall|k: int|
            0 <= k < spec_ids(c, s).len() ==> #[trigger] spec_ids(c, s)[k] == spec_sanitize(raw_names(c, s)[k])
                || exists|n: nat| n >= 2 && spec_ids(c, s)[k] == #[trigger] suffixed(spec_sanitize(raw_names(c, s)[k]), n),
{
    let bases = raw_names(c, s).map_values(|n: Seq<char>| spec_sanitize(n));
    lemma_assign_ids(bases);
    assert forall|k: int| 0 <= k < spec_ids(c, s).len() implies #[trigger] spec_ids(c, s)[k] == spec_sanitize(raw_names(c, s)[k])
        || exists|n: nat| n >= 2 && spec_ids(c, s)[k] == #[trigger] suffixed(spec_sanitize(raw_names(c, s)[k]), n) by {
        assert(bases[k] == spec_sanitize(raw_names(c, s)[k]));
    }
}

} // verus!
