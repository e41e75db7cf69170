//! `inspect` — the parsed catalog as a JSON-shaped value, with no rendering.
//!
//! This is the cheap path an agent should use to decide *what* is worth
//! rendering. Field names are stable and arrays are sorted by name so output
//! diffs cleanly between runs.

use vstd::prelude::*;

use crate::export::field_type_label;
use crate::model::{count_in, count_out, counts_are_bounded, Catalog, Field, Relation, Table};
use crate::order::{
    by_count_then_name, by_keys, is_permutation, is_strict_weak, key_views, keys_lt,
    keys_order_is_strict_weak, single_key_order, sorted_by_count, sorted_positions,
    stable_order, stable_order_sorts, text_lt, text_order_is_total,
};
use crate::parse::opt_view;
use crate::text::{lemma_take_all, lemma_views_push, views};

verus! {

/// One field as `inspect` reports it.
#[derive(Debug, Clone)]
pub struct FieldJson {
    pub name: String,
    pub type_code: i64,
    pub type_label: String,
    pub unique: bool,
    pub mandatory: bool,
    pub hidden: bool,
    pub indexed: bool,
    pub limiting_length: Option<i64>,
    pub tip: Option<String>,
}

/// One table as `inspect` reports it.
#[derive(Debug, Clone)]
pub struct TableJson {
    pub name: String,
    pub field_count: usize,
    pub has_layout: bool,
    pub primary_key: Option<String>,
    pub relations_in: usize,
    pub relations_out: usize,
    pub fields: Vec<FieldJson>,
}

/// One relation as `inspect` reports it.
#[derive(Debug, Clone)]
#[allow(non_snake_case)]
pub struct RelationJson {
    pub name_Nto1: Option<String>,
    pub name_1toN: Option<String>,
    pub from_table: String,
    pub from_field: String,
    pub to_table: String,
    pub to_field: String,
}

/// The quick structural findings of `inspect`.
#[derive(Debug, Clone)]
pub struct AnalysisJson {
    pub tables_without_primary_key: Vec<String>,
    pub isolated_tables: Vec<String>,
    pub most_connected_tables: Vec<ConnectedJson>,
}

/// A table and how many relations touch it.
#[derive(Debug, Clone)]
pub struct ConnectedJson {
    pub name: String,
    pub relation_count: usize,
}

/// The whole `inspect` document.
#[derive(Debug, Clone)]
pub struct CatalogJson {
    pub base_name: String,
    pub table_count: usize,
    pub relation_count: usize,
    pub index_count: usize,
    pub tables: Vec<TableJson>,
    pub relations: Vec<RelationJson>,
    pub analysis: AnalysisJson,
    pub warnings: Vec<String>,
}

/// One-component sort keys.
pub open spec fn name_keys(names: Seq<Seq<char>>) -> Seq<Seq<Seq<char>>> {
    names.map_values(|n: Seq<char>| seq![n])
}

/// The positions of `names` in stable name order.
pub open spec fn name_order(names: Seq<Seq<char>>) -> Seq<int> {
    stable_order(by_keys(name_keys(names)), names.len())
}

/// `names` sorted.
pub open spec fn sorted_names(names: Seq<Seq<char>>) -> Seq<Seq<char>> {
    name_order(names).map_values(|i: int| names[i])
}

/// The names of the fields of `t`, in field order.
pub open spec fn field_names(t: Table) -> Seq<Seq<char>> {
    t.fields@.map_values(|f: Field| f.name@)
}

/// The names of `tables`, in catalog order.
pub open spec fn table_names_in_order(tables: Seq<Table>) -> Seq<Seq<char>> {
    tables.map_values(|t: Table| t.name@)
}

/// What `inspect` reports of a field: `mandatory` also when the field may
/// never be null.
pub open spec fn field_json_matches(j: FieldJson, f: Field) -> bool {
    &&& j.name@ == f.name@
    &&& j.type_code == f.type_code
    &&& j.type_label@ == field_type_label(f)
    &&& j.unique == f.unique
    &&& j.mandatory == (f.mandatory || f.never_null)
    &&& j.hidden == f.hidden
    &&& j.indexed == f.indexed
    &&& j.limiting_length == f.limiting_length
    &&& opt_view(j.tip) == opt_view(f.tip)
}

/// What `inspect` reports of table `t` of `c`: its fields sorted by name.
pub open spec fn table_json_matches(j: TableJson, c: Catalog, t: Table) -> bool {
    let order = name_order(field_names(t));
    &&& j.name@ == t.name@
    &&& j.field_count == t.fields@.len()
    &&& j.has_layout == (t.coordinates is Some)
    &&& opt_view(j.primary_key) == opt_view(t.primary_key)
    &&& j.relations_in == count_in(c.relations@, t.name@)
    &&& j.relations_out == count_out(c.relations@, t.name@)
    &&& j.fields@.len() == t.fields@.len()
    &&& forall|k: int| 0 <= k < j.fields@.len() ==> field_json_matches(#[trigger] j.fields@[k], t.fields@[order[k]])
}

/// The sort key of a relation: source table and field, destination table
/// and field.
pub open spec fn relation_key(r: Relation) -> Seq<Seq<char>> {
    seq![r.from_table@, r.from_field@, r.to_table@, r.to_field@]
}

/// The positions of `rels` in stable key order.
pub open spec fn relation_order(rels: Seq<Relation>) -> Seq<int> {
    stable_order(by_keys(rels.map_values(|r: Relation| relation_key(r))), rels.len())
}

/// What `inspect` reports of a relation.
pub open spec fn relation_json_matches(j: RelationJson, r: Relation) -> bool {
    &&& opt_view(j.name_Nto1) == opt_view(r.name_nto1)
    &&& opt_view(j.name_1toN) == opt_view(r.name_1ton)
    &&& j.from_table@ == r.from_table@
    &&& j.from_field@ == r.from_field@
    &&& j.to_table@ == r.to_table@
    &&& j.to_field@ == r.to_field@
}

/// The names of the tables without a primary key, in catalog order.
pub open spec fn names_without_pk(tables: Seq<Table>) -> Seq<Seq<char>>
    decreases tables.len(),
{
    if tables.len() == 0 {
        seq![]
    } else {
        let rest = names_without_pk(tables.drop_last());
        if tables.last().primary_key is None {
            rest.push(tables.last().name@)
        } else {
            rest
        }
    }
}

/// How many relations touch table `name` at either end.
pub open spec fn relation_total(rels: Seq<Relation>, name: Seq<char>) -> nat {
    count_in(rels, name) + count_out(rels, name)
}

/// The names of the tables of `tables` no relation touches, in catalog
/// order.
pub open spec fn isolated_names(rels: Seq<Relation>, tables: Seq<Table>) -> Seq<Seq<char>>
    decreases tables.len(),
{
    if tables.len() == 0 {
        seq![]
    } else {
        let rest = isolated_names(rels, tables.drop_last());
        if relation_total(rels, tables.last().name@) == 0 {
            rest.push(tables.last().name@)
        } else {
            rest
        }
    }
}

/// The tables some relation touches, in catalog order.
pub open spec fn connected_tables(rels: Seq<Relation>, tables: Seq<Table>) -> Seq<Table>
    decreases tables.len(),
{
    if tables.len() == 0 {
        seq![]
    } else {
        let rest = connected_tables(rels, tables.drop_last());
        if relation_total(rels, tables.last().name@) > 0 {
            rest.push(tables.last())
        } else {
            rest
        }
    }
}

/// The relation totals of `tables`.
pub open spec fn totals(rels: Seq<Relation>, tables: Seq<Table>) -> Seq<usize> {
    tables.map_values(|t: Table| relation_total(rels, t.name@) as usize)
}

/// Everything `inspect` reports of catalog `c`.
pub open spec fn catalog_json_matches(j: CatalogJson, c: Catalog) -> bool {
    let torder = name_order(table_names_in_order(c.tables@));
    let rorder = relation_order(c.relations@);
    let conn = connected_tables(c.relations@, c.tables@);
    let corder = stable_order(
        by_count_then_name(totals(c.relations@, conn), table_names_in_order(conn)),
        conn.len(),
    );
    &&& j.base_name@ == c.base_name@
    &&& j.table_count == c.tables@.len()
    &&& j.relation_count == c.relations@.len()
    &&& j.index_count == c.indexes@.len()
    &&& j.tables@.len() == c.tables@.len()
    &&& forall|k: int| 0 <= k < j.tables@.len() ==> table_json_matches(#[trigger] j.tables@[k], c, c.tables@[torder[k]])
    &&& j.relations@.len() == c.relations@.len()
    &&& forall|k: int| 0 <= k < j.relations@.len() ==> relation_json_matches(#[trigger] j.relations@[k], c.relations@[rorder[k]])
    &&& views(j.analysis.tables_without_primary_key@) == sorted_names(names_without_pk(c.tables@))
    &&& views(j.analysis.isolated_tables@) == sorted_names(isolated_names(c.relations@, c.tables@))
    &&& j.analysis.most_connected_tables@.len() == if conn.len() < 10 {
        conn.len()
    } else {
        10
    }
    &&& forall|k: int| 0 <= k < j.analysis.most_connected_tables@.len() ==> {
        let e = #[trigger] j.analysis.most_connected_tables@[k];
        &&& e.name@ == conn[corder[k]].name@
        &&& e.relation_count == relation_total(c.relations@, conn[corder[k]].name@)
    }
    &&& views(j.warnings@) == views(c.warnings@)
}

fn clone_opt(o: &Option<String>) -> (r: Option<String>)
    ensures
        opt_view(r) == opt_view(*o),
{
    match o {
        Some(s) => Some(s.clone()),
        None => None,
    }
}

/// One-component key vectors for `names`.
pub(crate) fn single_keys(names: &Vec<String>) -> (r: Vec<Vec<String>>)
    ensures
        key_views(r@) == name_keys(views(names@)),
{
    let mut out: Vec<Vec<String>> = Vec::new();
    let mut i: usize = 0;
    while i < names.len()
        invariant
            i <= names@.len(),
            key_views(out@) == name_keys(views(names@)).take(i as int),
        decreases names@.len() - i,
    {
        let mut key: Vec<String> = Vec::new();
        key.push(names[i].clone());
        assert(views(key@) =~= seq![names@[i as int]@]);
        assert(key_views(out@.push(key)) =~= key_views(out@).push(views(key@)));
        assert(name_keys(views(names@)).take(i as int + 1) =~= name_keys(views(names@)).take(
            i as int,
        ).push(seq![views(names@)[i as int]]));
        out.push(key);
        i = i + 1;
    }
    proof {
        lemma_take_all(name_keys(views(names@)));
    }
    out
}

/// `names` in sorted order.
fn sorted_strings(names: &Vec<String>) -> (r: Vec<String>)
    ensures
        views(r@) == sorted_names(views(names@)),
{
    let keys = single_keys(names);
    let order = sorted_positions(&keys);
    let ghost o = name_order(views(names@));
    assert(keys@.len() == names@.len()) by {
        assert(key_views(keys@).len() == keys@.len());
    }
    let mut out: Vec<String> = Vec::new();
    let mut k: usize = 0;
    while k < order.len()
        invariant
            k <= order@.len(),
            order@.len() == names@.len(),
            o == name_order(views(names@)),
            order@.map_values(|i: usize| i as int) == o,
            forall|q: int| 0 <= q < order@.len() ==> #[trigger] order@[q] < names@.len(),
            views(out@) == sorted_names(views(names@)).take(k as int),
        decreases order@.len() - k,
    {
        assert(o[k as int] == order@[k as int] as int);
        let s = names[order[k]].clone();
        proof {
            lemma_views_push(out@, s);
        }
        out.push(s);
        assert(sorted_names(views(names@)).take(k as int + 1) =~= sorted_names(views(names@)).take(
            k as int,
        ).push(views(names@)[order@[k as int] as int]));
        k = k + 1;
    }
    proof {
        lemma_take_all(sorted_names(views(names@)));
    }
    out
}

fn field_json(f: &Field) -> (r: FieldJson)
    ensures
        field_json_matches(r, *f),
{
    FieldJson {
        name: f.name.clone(),
        type_code: f.type_code,
        type_label: f.type_label(),
        unique: f.unique,
        mandatory: f.mandatory || f.never_null,
        hidden: f.hidden,
        indexed: f.indexed,
        limiting_length: f.limiting_length,
        tip: clone_opt(&f.tip),
    }
}

fn table_json(catalog: &Catalog, t: &Table) -> (r: TableJson)
    ensures
        table_json_matches(r, *catalog, *t),
{
    let mut names: Vec<String> = Vec::new();
    let mut i: usize = 0;
    while i < t.fields.len()
        invariant
            i <= t.fields@.len(),
            views(names@) == field_names(*t).take(i as int),
        decreases t.fields@.len() - i,
    {
        let n = t.fields[i].name.clone();
        proof {
            lemma_views_push(names@, n);
        }
        names.push(n);
        assert(field_names(*t).take(i as int + 1) =~= field_names(*t).take(i as int).push(t.fields@[i as int].name@));
        i = i + 1;
    }
    proof {
        lemma_take_all(field_names(*t));
    }
    let keys = single_keys(&names);
    let order = sorted_positions(&keys);
    assert(keys@.len() == names@.len()) by {
        assert(key_views(keys@).len() == keys@.len());
    }
    let ghost o = name_order(field_names(*t));
    let mut fields: Vec<FieldJson> = Vec::new();
    let mut k: usize = 0;
    while k < order.len()
        invariant
            k <= order@.len(),
            order@.len() == t.fields@.len(),
            o == name_order(field_names(*t)),
            order@.map_values(|i: usize| i as int) == o,
            forall|q: int| 0 <= q < order@.len() ==> #[trigger] order@[q] < t.fields@.len(),
            fields@.len() == k,
            forall|q: int| 0 <= q < k ==> field_json_matches(#[trigger] fields@[q], t.fields@[o[q]]),
        decreases order@.len() - k,
    {
        assert(o[k as int] == order@[k as int] as int);
        let fj = field_json(&t.fields[order[k]]);
        fields.push(fj);
        k = k + 1;
    }
    TableJson {
        name: t.name.clone(),
        field_count: t.fields.len(),
        has_layout: t.coordinates.is_some(),
        primary_key: clone_opt(&t.primary_key),
        relations_in: catalog.relations_in(t.name.as_str()),
        relations_out: catalog.relations_out(t.name.as_str()),
        fields,
    }
}

fn relation_json(r: &Relation) -> (j: RelationJson)
    ensures
        relation_json_matches(j, *r),
{
    RelationJson {
        name_Nto1: clone_opt(&r.name_nto1),
        name_1toN: clone_opt(&r.name_1ton),
        from_table: r.from_table.clone(),
        from_field: r.from_field.clone(),
        to_table: r.to_table.clone(),
        to_field: r.to_field.clone(),
    }
}

fn tables_part(catalog: &Catalog) -> (r: Vec<TableJson>)
    ensures
        r@.len() == catalog.tables@.len(),
        forall|k: int| 0 <= k < r@.len() ==> table_json_matches(
            #[trigger] r@[k],
            *catalog,
            catalog.tables@[name_order(table_names_in_order(catalog.tables@))[k]],
        ),
{
    let ghost tn = table_names_in_order(catalog.tables@);
    let mut names: Vec<String> = Vec::new();
    let mut i: usize = 0;
    while i < catalog.tables.len()
        invariant
            i <= catalog.tables@.len(),
            tn == table_names_in_order(catalog.tables@),
            views(names@) == tn.take(i as int),
        decreases catalog.tables@.len() - i,
    {
        let n = catalog.tables[i].name.clone();
        proof {
            lemma_views_push(names@, n);
        }
        names.push(n);
        assert(tn.take(i as int + 1) =~= tn.take(i as int).push(catalog.tables@[i as int].name@));
        i = i + 1;
    }
    proof {
        lemma_take_all(tn);
    }
    let keys = single_keys(&names);
    let order = sorted_positions(&keys);
    assert(keys@.len() == names@.len()) by {
        assert(key_views(keys@).len() == keys@.len());
    }
    let ghost o = name_order(tn);
    let mut out: Vec<TableJson> = Vec::new();
    let mut k: usize = 0;
    while k < order.len()
        invariant
            k <= order@.len(),
            order@.len() == catalog.tables@.len(),
            o == name_order(table_names_in_order(catalog.tables@)),
            order@.map_values(|i: usize| i as int) == o,
            forall|q: int| 0 <= q < order@.len() ==> #[trigger] order@[q] < catalog.tables@.len(),
            out@.len() == k,
            forall|q: int| 0 <= q < k ==> table_json_matches(#[trigger] out@[q], *catalog, catalog.tables@[o[q]]),
        decreases order@.len() - k,
    {
        assert(o[k as int] == order@[k as int] as int);
        let tj = table_json(catalog, &catalog.tables[order[k]]);
        out.push(tj);
        k = k + 1;
    }
    out
}

fn relations_part(catalog: &Catalog) -> (r: Vec<RelationJson>)
    ensures
        r@.len() == catalog.relations@.len(),
        forall|k: int| 0 <= k < r@.len() ==> relation_json_matches(
            #[trigger] r@[k],
            catalog.relations@[relation_order(catalog.relations@)[k]],
        ),
{
    let ghost rk = catalog.relations@.map_values(|r: Relation| relation_key(r));
    let mut keys: Vec<Vec<String>> = Vec::new();
    let mut i: usize = 0;
    while i < catalog.relations.len()
        invariant
            i <= catalog.relations@.len(),
            rk == catalog.relations@.map_values(|r: Relation| relation_key(r)),
            key_views(keys@) == rk.take(i as int),
        decreases catalog.relations@.len() - i,
    {
        let r = &catalog.relations[i];
        let mut key: Vec<String> = Vec::new();
        key.push(r.from_table.clone());
        key.push(r.from_field.clone());
        key.push(r.to_table.clone());
        key.push(r.to_field.clone());
        assert(views(key@) =~= relation_key(*r));
        assert(key_views(keys@.push(key)) =~= key_views(keys@).push(views(key@)));
        assert(rk.take(i as int + 1) =~= rk.take(i as int).push(rk[i as int]));
        keys.push(key);
        i = i + 1;
    }
    proof {
        lemma_take_all(rk);
        assert(key_views(keys@).len() == keys@.len());
    }
    let order = sorted_positions(&keys);
    let ghost o = relation_order(catalog.relations@);
    let mut out: Vec<RelationJson> = Vec::new();
    let mut k: usize = 0;
    while k < order.len()
        invariant
            k <= order@.len(),
            order@.len() == catalog.relations@.len(),
            o == relation_order(catalog.relations@),
            order@.map_values(|i: usize| i as int) == o,
            forall|q: int| 0 <= q < order@.len() ==> #[trigger] order@[q] < catalog.relations@.len(),
            out@.len() == k,
            forall|q: int| 0 <= q < k ==> relation_json_matches(#[trigger] out@[q], catalog.relations@[o[q]]),
        decreases order@.len() - k,
    {
        assert(o[k as int] == order@[k as int] as int);
        let rj = relation_json(&catalog.relations[order[k]]);
        out.push(rj);
        k = k + 1;
    }
    out
}

/// The relation total of `name`, computed.
fn total_of(catalog: &Catalog, name: &String) -> (r: usize)
    requires
        catalog.relations@.len() <= usize::MAX / 2,
    ensures
        r == relation_total(catalog.relations@, name@),
{
    proof {
        counts_are_bounded(catalog.relations@, name@);
    }
    catalog.relations_in(name.as_str()) + catalog.relations_out(name.as_str())
}

fn without_pk_part(catalog: &Catalog) -> (r: Vec<String>)
    ensures
        views(r@) == sorted_names(names_without_pk(catalog.tables@)),
{
    let mut names: Vec<String> = Vec::new();
    let mut i: usize = 0;
    while i < catalog.tables.len()
        invariant
            i <= catalog.tables@.len(),
            views(names@) == names_without_pk(catalog.tables@.take(i as int)),
        decreases catalog.tables@.len() - i,
    {
        assert(catalog.tables@.take(i as int + 1).drop_last() == catalog.tables@.take(i as int));
        if catalog.tables[i].primary_key.is_none() {
            let n = catalog.tables[i].name.clone();
            proof {
                lemma_views_push(names@, n);
            }
            names.push(n);
        }
        i = i + 1;
    }
    proof {
        lemma_take_all(catalog.tables@);
    }
    sorted_strings(&names)
}

fn isolated_part(catalog: &Catalog) -> (r: Vec<String>)
    requires
        catalog.relations@.len() <= usize::MAX / 2,
    ensures
        views(r@) == sorted_names(isolated_names(catalog.relations@, catalog.tables@)),
{
    let mut names: Vec<String> = Vec::new();
    let mut i: usize = 0;
    while i < catalog.tables.len()
        invariant
            i <= catalog.tables@.len(),
            catalog.relations@.len() <= usize::MAX / 2,
            views(names@) == isolated_names(catalog.relations@, catalog.tables@.take(i as int)),
        decreases catalog.tables@.len() - i,
    {
        assert(catalog.tables@.take(i as int + 1).drop_last() == catalog.tables@.take(i as int));
        if total_of(catalog, &catalog.tables[i].name) == 0 {
            let n = catalog.tables[i].name.clone();
            proof {
                lemma_views_push(names@, n);
            }
            names.push(n);
        }
        i = i + 1;
    }
    proof {
        lemma_take_all(catalog.tables@);
    }
    sorted_strings(&names)
}

fn connected_part(catalog: &Catalog) -> (r: Vec<ConnectedJson>)
    requires
        catalog.relations@.len() <= usize::MAX / 2,
    ensures
        ({
            let conn = connected_tables(catalog.relations@, catalog.tables@);
            let corder = stable_order(
                by_count_then_name(totals(catalog.relations@, conn), table_names_in_order(conn)),
                conn.len(),
            );
            &&& r@.len() == if conn.len() < 10 {
                conn.len()
            } else {
                10
            }
            &&& forall|k: int| 0 <= k < r@.len() ==> {
                let e = #[trigger] r@[k];
                &&& e.name@ == conn[corder[k]].name@
                &&& e.relation_count == relation_total(catalog.relations@, conn[corder[k]].name@)
            }
        }),
{
    let ghost rels = catalog.relations@;
    let mut names: Vec<String> = Vec::new();
    let mut counts: Vec<usize> = Vec::new();
    let mut i: usize = 0;
    while i < catalog.tables.len()
        invariant
            i <= catalog.tables@.len(),
            rels == catalog.relations@,
            catalog.relations@.len() <= usize::MAX / 2,
            views(names@) == table_names_in_order(connected_tables(rels, catalog.tables@.take(i as int))),
            counts@ == totals(rels, connected_tables(rels, catalog.tables@.take(i as int))),
        decreases catalog.tables@.len() - i,
    {
        let ghost before = connected_tables(rels, catalog.tables@.take(i as int));
        assert(catalog.tables@.take(i as int + 1).drop_last() == catalog.tables@.take(i as int));
        assert(catalog.tables@.take(i as int + 1).last() == catalog.tables@[i as int]);
        let total = total_of(catalog, &catalog.tables[i].name);
        if total > 0 {
            let n = catalog.tables[i].name.clone();
            proof {
                lemma_views_push(names@, n);
                assert(table_names_in_order(before.push(catalog.tables@[i as int])) =~= table_names_in_order(before).push(n@));
                assert(totals(rels, before.push(catalog.tables@[i as int])) =~= totals(rels, before).push(total));
            }
            names.push(n);
            counts.push(total);
        }
        i = i + 1;
    }
    proof {
        lemma_take_all(catalog.tables@);
    }
    let ghost conn = connected_tables(rels, catalog.tables@);
    assert(counts@.len() == names@.len()) by {
        assert(views(names@).len() == names@.len());
    }
    let order = sorted_by_count(&counts, &names);
    let ghost o = stable_order(by_count_then_name(counts@, views(names@)), counts@.len());
    let limit = if order.len() < 10 {
        order.len()
    } else {
        10
    };
    let mut out: Vec<ConnectedJson> = Vec::new();
    let mut k: usize = 0;
    while k < limit
        invariant
            k <= limit,
            rels.len() <= usize::MAX / 2,
            limit <= order@.len(),
            order@.len() == counts@.len(),
            counts@.len() == names@.len(),
            conn == connected_tables(rels, catalog.tables@),
            views(names@) == table_names_in_order(conn),
            counts@ == totals(rels, conn),
            o == stable_order(by_count_then_name(counts@, views(names@)), counts@.len()),
            order@.map_values(|i: usize| i as int) == o,
            forall|q: int| 0 <= q < order@.len() ==> #[trigger] order@[q] < counts@.len(),
            out@.len() == k,
            forall|q: int| 0 <= q < k ==> {
                let e = #[trigger] out@[q];
                &&& e.name@ == conn[o[q]].name@
                &&& e.relation_count == relation_total(rels, conn[o[q]].name@)
            },
        decreases limit - k,
    {
        let j = order[k];
        assert(o[k as int] == j as int);
        assert(views(names@)[j as int] == names@[j as int]@);
        assert(table_names_in_order(conn)[j as int] == conn[j as int].name@);
        proof {
            counts_are_bounded(rels, conn[j as int].name@);
        }
        assert(totals(rels, conn)[j as int] == relation_total(rels, conn[j as int].name@) as usize);
        assert(counts@[j as int] == relation_total(rels, conn[j as int].name@));
        out.push(ConnectedJson { name: names[j].clone(), relation_count: counts[j] });
        k = k + 1;
    }
    assert(views(names@).len() == conn.len());
    out
}

/// The catalog as `inspect` reports it: tables (fields included) sorted by
/// name, relations sorted by source then destination, the tables without a
/// primary key and the isolated tables sorted by name, and the ten most
/// connected tables, most relations first and ties by name.
pub fn to_json(catalog: &Catalog) -> (r: CatalogJson)
    requires
        catalog.relations@.len() <= usize::MAX / 2,
    ensures
        catalog_json_matches(r, *catalog),
{
    let tables = tables_part(catalog);
    let relations = relations_part(catalog);
    let without_pk = without_pk_part(catalog);
    let isolated = isolated_part(catalog);
    let connected = connected_part(catalog);
    let mut warnings: Vec<String> = Vec::new();
    let mut i: usize = 0;
    while i < catalog.warnings.len()
        invariant
            i <= catalog.warnings@.len(),
            views(warnings@) == views(catalog.warnings@).take(i as int),
        decreases catalog.warnings@.len() - i,
    {
        let w = catalog.warnings[i].clone();
        proof {
            lemma_views_push(warnings@, w);
        }
        warnings.push(w);
        assert(views(catalog.warnings@).take(i as int + 1) =~= views(catalog.warnings@).take(i as int).push(catalog.warnings@[i as int]@));
        i = i + 1;
    }
    proof {
        lemma_take_all(views(catalog.warnings@));
    }
    CatalogJson {
        base_name: catalog.base_name.clone(),
        table_count: catalog.tables.len(),
        relation_count: catalog.relations.len(),
        index_count: catalog.indexes.len(),
        tables,
        relations,
        analysis: AnalysisJson {
            tables_without_primary_key: without_pk,
            isolated_tables: isolated,
            most_connected_tables: connected,
        },
        warnings,
    }
}

/// The stable name order lists each position once and never puts a name
/// after one that sorts after it.
pub proof fn name_order_sorts(names: Seq<Seq<char>>)
    ensures
        is_permutation(name_order(names), names.len()),
        forall|p: int, q: int| 0 <= p < q < names.len() ==> !text_lt(
            names[#[trigger] name_order(names)[q]],
            names[#[trigger] name_order(names)[p]],
        ),
{
    let keys = name_keys(names);
    assert forall|i: int| 0 <= i < keys.len() implies (#[trigger] keys[i]).len() == 1 by {
        assert(keys[i] == seq![names[i]]);
    }
    keys_order_is_strict_weak(keys, 1);
    stable_order_sorts(by_keys(keys), names.len());
    let o = name_order(names);
    assert forall|p: int, q: int| 0 <= p < q < names.len() implies !text_lt(
        names[#[trigger] o[q]],
        names[#[trigger] o[p]],
    ) by {
        assert(!by_keys(keys)(o[q], o[p]));
        assert(keys[o[q]] == seq![names[o[q]]]);
        assert(keys[o[p]] == seq![names[o[p]]]);
        single_key_order(names[o[q]], names[o[p]]);
    }
}

/// Relations are ordered by their key tuples, which all have four parts.
proof fn relation_order_sorts(rels: Seq<Relation>)
    ensures
        is_permutation(relation_order(rels), rels.len()),
        forall|p: int, q: int| 0 <= p < q < rels.len() ==> !keys_lt(
            relation_key(rels[#[trigger] relation_order(rels)[q]]),
            relation_key(rels[#[trigger] relation_order(rels)[p]]),
        ),
{
    let keys = rels.map_values(|r: Relation| relation_key(r));
    assert forall|i: int| 0 <= i < keys.len() implies (#[trigger] keys[i]).len() == 4 by {
        assert(keys[i] == relation_key(rels[i]));
    }
    keys_order_is_strict_weak(keys, 4);
    stable_order_sorts(by_keys(keys), rels.len());
    let o = relation_order(rels);
    assert forall|p: int, q: int| 0 <= p < q < rels.len() implies !keys_lt(
        relation_key(rels[#[trigger] o[q]]),
        relation_key(rels[#[trigger] o[p]]),
    ) by {
        assert(!by_keys(keys)(o[q], o[p]));
        assert(keys[o[q]] == relation_key(rels[o[q]]));
        assert(keys[o[p]] == relation_key(rels[o[p]]));
    }
}

/// Count first (descending), then name, is a strict weak order.
proof fn count_order_is_strict_weak(counts: Seq<usize>, names: Seq<Seq<char>>)
    requires
        counts.len() == names.len(),
    ensures
        is_strict_weak(by_count_then_name(counts, names), counts.len()),
{
    let lt = by_count_then_name(counts, names);
    let n = counts.len();
    assert forall|a: int| 0 <= a < n implies !#[trigger] lt(a, a) by {
        text_order_is_total(names[a], names[a], names[a]);
    }
    assert forall|a: int, b: int, c: int|
        #![trigger lt(a, b), lt(b, c)]
        0 <= a < n && 0 <= b < n && 0 <= c < n && lt(a, b) && lt(b, c) implies lt(a, c) by {
        text_order_is_total(names[a], names[b], names[c]);
    }
    assert forall|a: int, b: int, c: int|
        #![trigger lt(a, b), lt(b, c), lt(a, c)]
        0 <= a < n && 0 <= b < n && 0 <= c < n && !lt(a, b) && !lt(b, c) implies !lt(a, c) by {
        text_order_is_total(names[a], names[b], names[c]);
        text_order_is_total(names[c], names[b], names[a]);
        text_order_is_total(names[b], names[a], names[c]);
        text_order_is_total(names[a], names[c], names[b]);
    }
}

/// The key of a reported relation.
pub open spec fn json_relation_key(r: RelationJson) -> Seq<Seq<char>> {
    seq![r.from_table@, r.from_field@, r.to_table@, r.to_field@]
}

/// Every array `inspect` reports is sorted, so the output diffs cleanly
/// between runs: tables and the fields of each table by name; relations by
/// source table and field, then destination table and field; the tables
/// without a primary key and the isolated tables by name; and the most
/// connected tables by relation count, most first, ties by name. Tables,
/// fields and relations each come from a different catalog entry.
pub proof fn inspect_arrays_are_sorted(j: CatalogJson, c: Catalog)
    requires
        catalog_json_matches(j, c),
    ensures
        forall|p: int, q: int| 0 <= p < q < j.tables@.len() ==> !text_lt(
            (#[trigger] j.tables@[q]).name@,
            (#[trigger] j.tables@[p]).name@,
        ),
        forall|k: int, p: int, q: int|
            0 <= k < j.tables@.len() && 0 <= p < q < j.tables@[k].fields@.len() ==> !text_lt(
                (#[trigger] j.tables@[k].fields@[q]).name@,
                (#[trigger] j.tables@[k].fields@[p]).name@,
            ),
        forall|p: int, q: int| 0 <= p < q < j.relations@.len() ==> !keys_lt(
            json_relation_key(#[trigger] j.relations@[q]),
            json_relation_key(#[trigger] j.relations@[p]),
        ),
        forall|p: int, q: int| 0 <= p < q < j.analysis.tables_without_primary_key@.len() ==> !text_lt(
            (#[trigger] j.analysis.tables_without_primary_key@[q])@,
            (#[trigger] j.analysis.tables_without_primary_key@[p])@,
        ),
        forall|p: int, q: int| 0 <= p < q < j.analysis.isolated_tables@.len() ==> !text_lt(
            (#[trigger] j.analysis.isolated_tables@[q])@,
            (#[trigger] j.analysis.isolated_tables@[p])@,
        ),
        forall|p: int, q: int| 0 <= p < q < j.analysis.most_connected_tables@.len() ==> {
            let a = #[trigger] j.analysis.most_connected_tables@[p];
            let b = #[trigger] j.analysis.most_connected_tables@[q];
            a.relation_count >= b.relation_count && (a.relation_count == b.relation_count ==> !text_lt(
                b.name@,
                a.name@,
            ))
        },
        is_permutation(name_order(table_names_in_order(c.tables@)), c.tables@.len()),
        is_permutation(relation_order(c.relations@), c.relations@.len()),
{
    let tn = table_names_in_order(c.tables@);
    let torder = name_order(tn);
    name_order_sorts(tn);
    assert forall|p: int, q: int| 0 <= p < q < j.tables@.len() implies !text_lt(
        (#[trigger] j.tables@[q]).name@,
        (#[trigger] j.tables@[p]).name@,
    ) by {
        assert(tn[torder[q]] == c.tables@[torder[q]].name@);
        assert(tn[torder[p]] == c.tables@[torder[p]].name@);
    }
    assert forall|k: int, p: int, q: int|
        0 <= k < j.tables@.len() && 0 <= p < q < j.tables@[k].fields@.len() implies !text_lt(
            (#[trigger] j.tables@[k].fields@[q]).name@,
            (#[trigger] j.tables@[k].fields@[p]).name@,
        ) by {
        let t = c.tables@[torder[k]];
        let fnames = field_names(t);
        let forder = name_order(fnames);
        name_order_sorts(fnames);
        assert(table_json_matches(j.tables@[k], c, t));
        assert(field_json_matches(j.tables@[k].fields@[q], t.fields@[forder[q]]));
        assert(field_json_matches(j.tables@[k].fields@[p], t.fields@[forder[p]]));
        assert(fnames[forder[q]] == t.fields@[forder[q]].name@);
        assert(fnames[forder[p]] == t.fields@[forder[p]].name@);
    }
    let rorder = relation_order(c.relations@);
    relation_order_sorts(c.relations@);
    assert forall|p: int, q: int| 0 <= p < q < j.relations@.len() implies !keys_lt(
        json_relation_key(#[trigger] j.relations@[q]),
        json_relation_key(#[trigger] j.relations@[p]),
    ) by {
        assert(relation_json_matches(j.relations@[q], c.relations@[rorder[q]]));
        assert(relation_json_matches(j.relations@[p], c.relations@[rorder[p]]));
        assert(json_relation_key(j.relations@[q]) == relation_key(c.relations@[rorder[q]]));
        assert(json_relation_key(j.relations@[p]) == relation_key(c.relations@[rorder[p]]));
    }
    let wp = names_without_pk(c.tables@);
    name_order_sorts(wp);
    assert(views(j.analysis.tables_without_primary_key@).len() == j.analysis.tables_without_primary_key@.len());
    assert(sorted_names(wp).len() == wp.len());
    assert forall|p: int, q: int| 0 <= p < q < j.analysis.tables_without_primary_key@.len() implies !text_lt(
        (#[trigger] j.analysis.tables_without_primary_key@[q])@,
        (#[trigger] j.analysis.tables_without_primary_key@[p])@,
    ) by {
        assert(views(j.analysis.tables_without_primary_key@)[q] == j.analysis.tables_without_primary_key@[q]@);
        assert(views(j.analysis.tables_without_primary_key@)[p] == j.analysis.tables_without_primary_key@[p]@);
        assert(sorted_names(wp)[q] == wp[name_order(wp)[q]]);
        assert(sorted_names(wp)[p] == wp[name_order(wp)[p]]);
    }
    let iso = isolated_names(c.relations@, c.tables@);
    name_order_sorts(iso);
    assert(views(j.analysis.isolated_tables@).len() == j.analysis.isolated_tables@.len());
    assert(sorted_names(iso).len() == iso.len());
    assert forall|p: int, q: int| 0 <= p < q < j.analysis.isolated_tables@.len() implies !text_lt(
        (#[trigger] j.analysis.isolated_tables@[q])@,
        (#[trigger] j.analysis.isolated_tables@[p])@,
    ) by {
        assert(views(j.analysis.isolated_tables@)[q] == j.analysis.isolated_tables@[q]@);
        assert(views(j.analysis.isolated_tables@)[p] == j.analysis.isolated_tables@[p]@);
        assert(sorted_names(iso)[q] == iso[name_order(iso)[q]]);
        assert(sorted_names(iso)[p] == iso[name_order(iso)[p]]);
    }
    let conn = connected_tables(c.relations@, c.tables@);
    let counts = totals(c.relations@, conn);
    let cnames = table_names_in_order(conn);
    count_order_is_strict_weak(counts, cnames);
    let lt = by_count_then_name(counts, cnames);
    stable_order_sorts(lt, conn.len());
    let corder = stable_order(lt, conn.len());
    assert forall|p: int, q: int| 0 <= p < q < j.analysis.most_connected_tables@.len() implies {
        let a = #[trigger] j.analysis.most_connected_tables@[p];
        let b = #[trigger] j.analysis.most_connected_tables@[q];
        a.relation_count >= b.relation_count && (a.relation_count == b.relation_count ==> !text_lt(
            b.name@,
            a.name@,
        ))
    } by {
        let a = j.analysis.most_connected_tables@[p];
        let b = j.analysis.most_connected_tables@[q];
        assert(!lt(corder[q], corder[p]));
        assert(cnames[corder[q]] == conn[corder[q]].name@);
        assert(cnames[corder[p]] == conn[corder[p]].name@);
        counts_are_bounded(c.relations@, conn[corder[q]].name@);
        counts_are_bounded(c.relations@, conn[corder[p]].name@);
        assert(counts[corder[q]] == relation_total(c.relations@, conn[corder[q]].name@) as usize);
        assert(counts[corder[p]] == relation_total(c.relations@, conn[corder[p]].name@) as usize);
    }
}

} // verus!
