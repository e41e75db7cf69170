//! Internal catalog model. This is the single shared representation that every
//! later stage consumes; parsing happens exactly once.

use vstd::prelude::*;

use crate::text::{chars_of, chars_eq, hex2, push_char, push_hex2};
use crate::types::{self, spec_canonical_code, spec_type_color, spec_type_glyph, spec_type_label, Glyph};

verus! {

/// An editor colour, one byte per channel.
#[derive(Debug, Clone, Copy, PartialEq, Eq, Structural)]
pub struct Color {
    pub r: u8,
    pub g: u8,
    pub b: u8,
    pub a: u8,
}

/// `#rrggbb` in lowercase hexadecimal; alpha is not written.
pub open spec fn spec_hex(c: Color) -> Seq<char> {
    seq!['#'] + hex2(c.r) + hex2(c.g) + hex2(c.b)
}

impl Color {
    /// The colour as `#rrggbb`.
    pub fn to_hex(self) -> (r: String)
        ensures
            r@ == spec_hex(self),
    {
        let mut out = String::new();
        push_char(&mut out, '#');
        push_hex2(&mut out, self.r);
        push_hex2(&mut out, self.g);
        push_hex2(&mut out, self.b);
        out
    }
}

/// The editor position block of a table, as written in the XML. The numbers
/// are kept as text here: whether `left` and `top` are finite numbers is a
/// floating-point question, answered where the catalog is loaded, which
/// clears the block of a table whose position is unusable.
#[derive(Debug, Clone)]
pub struct CoordinateText {
    pub left: String,
    pub top: String,
    /// 4D's own editor measurements. Kept for reference only — card size is
    /// always recomputed from this tool's own text metrics.
    pub width: Option<String>,
    pub height: Option<String>,
}

/// One field of a table.
#[derive(Debug, Clone)]
pub struct Field {
    pub name: String,
    pub uuid: String,
    pub id: Option<i64>,
    pub type_code: i64,
    pub unique: bool,
    pub autosequence: bool,
    pub never_null: bool,
    pub limiting_length: Option<i64>,
    pub mandatory: bool,
    pub modifiable: bool,
    /// `field_extra/@visible="false"` marks 4D-internal fields.
    pub hidden: bool,
    pub tip: Option<String>,
    pub color: Option<Color>,
    pub indexed: bool,
    pub is_primary_key: bool,
}

/// The code as 4D presents a field.
pub open spec fn spec_display_code(f: Field) -> i64 {
    spec_canonical_code(f.type_code, f.limiting_length)
}

impl Field {
    /// The code as 4D presents it, which for string fields depends on whether
    /// a length limit is set.
    fn display_code(&self) -> (r: i64)
        ensures
            r == spec_display_code(*self),
    {
        types::canonical_code(self.type_code, self.limiting_length)
    }

    /// The type label shown for this field.
    pub fn type_label(&self) -> (r: String)
        ensures
            r@ == spec_type_label(spec_display_code(*self)),
    {
        types::type_label(self.display_code())
    }

    /// The accent colour of this field's type.
    pub fn type_color(&self) -> (r: &'static str)
        ensures
            r@ == spec_type_color(spec_display_code(*self)),
    {
        types::type_color(self.display_code())
    }

    /// The glyph family of this field's type.
    pub fn type_glyph(&self) -> (r: Glyph)
        ensures
            r == spec_type_glyph(spec_display_code(*self)),
    {
        types::type_glyph(self.display_code())
    }
}

/// One table of the catalog.
#[derive(Debug, Clone)]
pub struct Table {
    pub name: String,
    pub uuid: String,
    pub id: Option<i64>,
    pub fields: Vec<Field>,
    pub primary_key: Option<String>,
    pub color: Option<Color>,
    pub coordinates: Option<CoordinateText>,
}

/// Indices of the fields shown when system fields are hidden (`hide`) or not,
/// in field order.
pub open spec fn visible_indices(fields: Seq<Field>, hide: bool) -> Seq<usize>
    decreases fields.len(),
{
    if fields.len() == 0 {
        seq![]
    } else {
        let rest = visible_indices(fields.drop_last(), hide);
        if hide && fields.last().hidden {
            rest
        } else {
            rest.push((fields.len() - 1) as usize)
        }
    }
}

impl Table {
    /// Indices of the fields to show, in order: all of them, or only the
    /// non-hidden ones when `hide_system` is set.
    pub fn visible_fields(&self, hide_system: bool) -> (r: Vec<usize>)
        ensures
            r@ == visible_indices(self.fields@, hide_system),
    {
        let mut out: Vec<usize> = Vec::new();
        let mut i: usize = 0;
        while i < self.fields.len()
            invariant
                i <= self.fields@.len(),
                out@ == visible_indices(self.fields@.take(i as int), hide_system),
            decreases self.fields@.len() - i,
        {
            assert(self.fields@.take(i as int + 1).drop_last() == self.fields@.take(i as int));
            if !(hide_system && self.fields[i].hidden) {
                out.push(i);
            }
            i = i + 1;
        }
        assert(self.fields@.take(self.fields@.len() as int) == self.fields@);
        out
    }
}

/// Every index listed by [`visible_indices`] is a field index, the list is
/// strictly increasing, and a listed field is hidden only when nothing is
/// being hidden.
pub proof fn visible_indices_are_well_formed(fields: Seq<Field>, hide: bool)
    requires
        fields.len() <= usize::MAX,
    ensures
        forall|k: int| 0 <= k < visible_indices(fields, hide).len() ==> {
            let i = #[trigger] visible_indices(fields, hide)[k];
            &&& i < fields.len()
            &&& !(hide && fields[i as int].hidden)
        },
        forall|k: int, l: int| 0 <= k < l < visible_indices(fields, hide).len() ==>
            visible_indices(fields, hide)[k] < visible_indices(fields, hide)[l],
    decreases fields.len(),
{
    if fields.len() > 0 {
        let rest = fields.drop_last();
        visible_indices_are_well_formed(rest, hide);
        let v = visible_indices(fields, hide);
        let v0 = visible_indices(rest, hide);
        let last = (fields.len() - 1) as usize;
        assert(last as int == fields.len() - 1);
        assert(v == v0 || (v == v0.push(last) && !(hide && fields.last().hidden)));
        assert forall|k: int| 0 <= k < v.len() implies {
            let i = #[trigger] v[k];
            &&& i < fields.len()
            &&& !(hide && fields[i as int].hidden)
        } by {
            if k < v0.len() {
                assert(v[k] == v0[k]);
                assert(v0[k] < rest.len());
                assert(rest[v0[k] as int] == fields[v0[k] as int]);
            } else {
                assert(v[k] == last);
            }
        }
        assert forall|k: int, l: int| 0 <= k < l < v.len() implies v[k] < v[l] by {
            if l < v0.len() {
                assert(v[k] == v0[k] && v[l] == v0[l]);
            } else {
                assert(v[l] == last);
                assert(v[k] == v0[k]);
                assert(v0[k] < rest.len());
            }
        }
    }
}

/// Hiding system fields never shows more fields than showing them: every
/// field shown with `hide` set is also shown without it, and there are no
/// more of them.
pub proof fn hiding_system_fields_only_removes(fields: Seq<Field>)
    ensures
        visible_indices(fields, true).len() <= visible_indices(fields, false).len(),
        forall|k: int| 0 <= k < visible_indices(fields, true).len() ==>
            visible_indices(fields, false).contains(#[trigger] visible_indices(fields, true)[k]),
        visible_indices(fields, false).len() == fields.len(),
    decreases fields.len(),
{
    if fields.len() > 0 {
        hiding_system_fields_only_removes(fields.drop_last());
        let t = visible_indices(fields, true);
        let f = visible_indices(fields, false);
        let t0 = visible_indices(fields.drop_last(), true);
        let f0 = visible_indices(fields.drop_last(), false);
        assert forall|k: int| 0 <= k < t.len() implies f.contains(#[trigger] t[k]) by {
            if k < t0.len() {
                assert(f0.contains(t0[k]));
                let j = choose|j: int| 0 <= j < f0.len() && f0[j] == t0[k];
                assert(f[j] == t[k]);
            } else {
                assert(f[f.len() - 1] == t[k]);
            }
        }
    }
}

/// One relation between a source ("N") field and a destination ("1") field.
#[derive(Debug, Clone)]
pub struct Relation {
    pub uuid: String,
    /// Label shown when navigating from the "many" side to the "one" side.
    pub name_nto1: Option<String>,
    /// Label shown when navigating from the "one" side to the "many" side.
    pub name_1ton: Option<String>,
    /// The "N" side.
    pub from_table: String,
    pub from_field: String,
    /// The "1" side.
    pub to_table: String,
    pub to_field: String,
    pub auto_load_nto1: bool,
    pub auto_load_1ton: bool,
    pub foreign_key: bool,
    pub integrity: Option<String>,
    pub color: Option<Color>,
    pub prefers_left: bool,
}

/// One top-level index.
#[derive(Debug, Clone)]
pub struct Index {
    pub uuid: String,
    pub kind: Option<String>,
    pub unique_keys: bool,
    pub type_code: Option<i64>,
    pub tables: Vec<String>,
}

/// The whole parsed catalog. `indexes` holds one entry per distinct index
/// uuid, in increasing uuid order (a later `<index>` with the same uuid
/// replaces the earlier one).
#[derive(Debug, Clone)]
pub struct Catalog {
    pub base_name: String,
    pub tables: Vec<Table>,
    pub relations: Vec<Relation>,
    pub indexes: Vec<Index>,
    pub warnings: Vec<String>,
}

/// Index of the first table called `name`.
pub open spec fn first_table_named(tables: Seq<Table>, name: Seq<char>) -> Option<int>
    decreases tables.len(),
{
    if tables.len() == 0 {
        None
    } else {
        match first_table_named(tables.drop_last(), name) {
            Some(i) => Some(i),
            None => if tables.last().name@ == name {
                Some(tables.len() - 1)
            } else {
                None
            },
        }
    }
}

/// What [`first_table_named`] means.
pub proof fn first_table_named_meaning(tables: Seq<Table>, name: Seq<char>)
    ensures
        match first_table_named(tables, name) {
            Some(i) => 0 <= i < tables.len() && tables[i].name@ == name && forall|j: int|
                0 <= j < i ==> tables[j].name@ != name,
            None => forall|j: int| 0 <= j < tables.len() ==> tables[j].name@ != name,
        },
    decreases tables.len(),
{
    if tables.len() > 0 {
        let rest = tables.drop_last();
        first_table_named_meaning(rest, name);
        match first_table_named(rest, name) {
            Some(i) => {
                assert(tables[i] == rest[i]);
                assert forall|j: int| 0 <= j < i implies tables[j].name@ != name by {
                    assert(tables[j] == rest[j]);
                }
            },
            None => {
                assert forall|j: int| 0 <= j < tables.len() - 1 implies tables[j].name@ != name by {
                    assert(tables[j] == rest[j]);
                }
            },
        }
    }
}

/// Number of relations whose destination ("1") side is `table`.
pub open spec fn count_in(relations: Seq<Relation>, table: Seq<char>) -> nat
    decreases relations.len(),
{
    if relations.len() == 0 {
        0
    } else {
        count_in(relations.drop_last(), table) + if relations.last().to_table@ == table {
            1nat
        } else {
            0nat
        }
    }
}

/// Number of relations whose source ("N") side is `table`.
pub open spec fn count_out(relations: Seq<Relation>, table: Seq<char>) -> nat
    decreases relations.len(),
{
    if relations.len() == 0 {
        0
    } else {
        count_out(relations.drop_last(), table) + if relations.last().from_table@ == table {
            1nat
        } else {
            0nat
        }
    }
}

/// A relation count never exceeds the number of relations.
pub proof fn counts_are_bounded(relations: Seq<Relation>, table: Seq<char>)
    ensures
        count_in(relations, table) <= relations.len(),
        count_out(relations, table) <= relations.len(),
    decreases relations.len(),
{
    if relations.len() > 0 {
        counts_are_bounded(relations.drop_last(), table);
    }
}

impl Catalog {
    /// Index of the first table called `name`.
    pub fn table_index(&self, name: &str) -> (r: Option<usize>)
        ensures
            match r {
                Some(i) => first_table_named(self.tables@, name@) == Some(i as int),
                None => first_table_named(self.tables@, name@) is None,
            },
    {
        let wanted = chars_of(name);
        let mut i: usize = 0;
        while i < self.tables.len()
            invariant
                i <= self.tables@.len(),
                wanted@ == name@,
                first_table_named(self.tables@.take(i as int), name@) is None,
            decreases self.tables@.len() - i,
        {
            assert(self.tables@.take(i as int + 1).drop_last() == self.tables@.take(i as int));
            let candidate = chars_of(self.tables[i].name.as_str());
            if chars_eq(candidate.as_slice(), wanted.as_slice()) {
                proof {
                    lemma_first_prefix(self.tables@, name@, i as int + 1);
                }
                return Some(i);
            }
            i = i + 1;
        }
        assert(self.tables@.take(self.tables@.len() as int) == self.tables@);
        None
    }

    /// The first table called `name`.
    pub fn table(&self, name: &str) -> (r: Option<&Table>)
        ensures
            match first_table_named(self.tables@, name@) {
                Some(i) => r == Some(&self.tables@[i]),
                None => r is None,
            },
    {
        proof {
            first_table_named_meaning(self.tables@, name@);
        }
        match self.table_index(name) {
            Some(i) => Some(&self.tables[i]),
            None => None,
        }
    }

    /// Number of relations where `table` is the destination ("1") side.
    pub fn relations_in(&self, table: &str) -> (r: usize)
        ensures
            r == count_in(self.relations@, table@),
    {
        let wanted = chars_of(table);
        let mut count: usize = 0;
        let mut i: usize = 0;
        while i < self.relations.len()
            invariant
                i <= self.relations@.len(),
                wanted@ == table@,
                count == count_in(self.relations@.take(i as int), table@),
            decreases self.relations@.len() - i,
        {
            assert(self.relations@.take(i as int + 1).drop_last() == self.relations@.take(i as int));
            proof {
                counts_are_bounded(self.relations@.take(i as int), table@);
            }
            let candidate = chars_of(self.relations[i].to_table.as_str());
            if chars_eq(candidate.as_slice(), wanted.as_slice()) {
                count = count + 1;
            }
            i = i + 1;
        }
        assert(self.relations@.take(self.relations@.len() as int) == self.relations@);
        count
    }

    /// Number of relations where `table` is the source ("N") side.
    pub fn relations_out(&self, table: &str) -> (r: usize)
        ensures
            r == count_out(self.relations@, table@),
    {
        let wanted = chars_of(table);
        let mut count: usize = 0;
        let mut i: usize = 0;
        while i < self.relations.len()
            invariant
                i <= self.relations@.len(),
                wanted@ == table@,
                count == count_out(self.relations@.take(i as int), table@),
            decreases self.relations@.len() - i,
        {
            assert(self.relations@.take(i as int + 1).drop_last() == self.relations@.take(i as int));
            proof {
                counts_are_bounded(self.relations@.take(i as int), table@);
            }
            let candidate = chars_of(self.relations[i].from_table.as_str());
            if chars_eq(candidate.as_slice(), wanted.as_slice()) {
                count = count + 1;
            }
            i = i + 1;
        }
        assert(self.relations@.take(self.relations@.len() as int) == self.relations@);
        count
    }
}

/// When no table before position `k - 1` is called `name` and the one at
/// `k - 1` is, the first table with that name is at `k - 1`.
proof fn lemma_first_prefix(tables: Seq<Table>, name: Seq<char>, k: int)
    requires
        0 < k <= tables.len(),
        first_table_named(tables.take(k - 1), name) is None,
        tables[k - 1].name@ == name,
    ensures
        first_table_named(tables, name) == Some(k - 1),
    decreases tables.len(),
{
    if k < tables.len() {
        assert(tables.drop_last().take(k - 1) == tables.take(k - 1));
        lemma_first_prefix(tables.drop_last(), name, k);
    } else {
        assert(tables.take(k - 1) == tables.drop_last());
    }
}

} // verus!
