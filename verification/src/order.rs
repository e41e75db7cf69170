//! Text order and stable sorting.
//!
//! Rust orders `str` by its UTF-8 bytes, which is the order of the code
//! points character by character; [`text_lt`] states that order. Sorting is
//! stable: [`stable_order`] inserts each position after every earlier one
//! that does not sort after it, exactly as a stable insertion sort does.

use vstd::prelude::*;

use crate::text::{chars_of, views};

verus! {

/// Whether `a` sorts before `b`, comparing from position `i` on, given that
/// the first `i` characters agree.
pub open spec fn text_lt_from(a: Seq<char>, b: Seq<char>, i: int) -> bool
    decreases a.len() - i,
{
    if i >= a.len() {
        i < b.len()
    } else if i >= b.len() {
        false
    } else if a[i] != b[i] {
        a[i] < b[i]
    } else {
        text_lt_from(a, b, i + 1)
    }
}

/// Whether `a` sorts strictly before `b` (`str` order).
pub open spec fn text_lt(a: Seq<char>, b: Seq<char>) -> bool {
    text_lt_from(a, b, 0)
}

/// Whether `a` sorts strictly before `b`.
pub fn text_less(a: &str, b: &str) -> (r: bool)
    ensures
        r == text_lt(a@, b@),
{
    let x = chars_of(a);
    let y = chars_of(b);
    let mut i: usize = 0;
    while i < x.len() && i < y.len()
        invariant
            x@ == a@,
            y@ == b@,
            i <= x@.len(),
            i <= y@.len(),
            text_lt(a@, b@) == text_lt_from(a@, b@, i as int),
        decreases x@.len() - i,
    {
        if x[i] != y[i] {
            return x[i] < y[i];
        }
        i = i + 1;
    }
    i < y.len()
}

/// Whether the key tuple `a` sorts strictly before `b`, comparing from
/// component `j` on (tuples of the same length, compared lexicographically).
pub open spec fn keys_lt_from(a: Seq<Seq<char>>, b: Seq<Seq<char>>, j: int) -> bool
    decreases a.len() - j,
{
    if j >= a.len() || j >= b.len() {
        false
    } else if a[j] != b[j] {
        text_lt(a[j], b[j])
    } else {
        keys_lt_from(a, b, j + 1)
    }
}

/// Whether the key tuple `a` sorts strictly before `b`.
pub open spec fn keys_lt(a: Seq<Seq<char>>, b: Seq<Seq<char>>) -> bool {
    keys_lt_from(a, b, 0)
}

/// Whether the key tuple `a` sorts strictly before `b`.
pub fn keys_less(a: &Vec<String>, b: &Vec<String>) -> (r: bool)
    ensures
        r == keys_lt(views(a@), views(b@)),
{
    let ghost va = views(a@);
    let ghost vb = views(b@);
    let mut j: usize = 0;
    while j < a.len() && j < b.len()
        invariant
            va == views(a@),
            vb == views(b@),
            j <= a@.len(),
            j <= b@.len(),
            keys_lt(va, vb) == keys_lt_from(va, vb, j as int),
        decreases a@.len() - j,
    {
        assert(va[j as int] == a@[j as int]@ && vb[j as int] == b@[j as int]@);
        if !a[j].eq(&b[j]) {
            return text_less(a[j].as_str(), b[j].as_str());
        }
        j = j + 1;
    }
    false
}

/// Where a stable insertion puts position `x` into the sorted `order`: before
/// the first entry that `x` sorts before, else at the end.
pub open spec fn first_greater(order: Seq<int>, lt: spec_fn(int, int) -> bool, x: int) -> int
    decreases order.len(),
{
    if order.len() == 0 {
        0
    } else {
        let p = first_greater(order.drop_last(), lt, x);
        if p < order.len() - 1 {
            p
        } else if lt(x, order.last()) {
            order.len() - 1
        } else {
            order.len() as int
        }
    }
}

/// The positions `0..n` in stably sorted order under `lt`: each position is
/// inserted after every earlier one that it does not sort before.
pub open spec fn stable_order(lt: spec_fn(int, int) -> bool, n: nat) -> Seq<int>
    decreases n,
{
    if n == 0 {
        seq![]
    } else {
        let o = stable_order(lt, (n - 1) as nat);
        o.insert(first_greater(o, lt, n - 1), n - 1)
    }
}

/// The insertion point lies within the order, and is what a scan from the
/// front finds.
pub proof fn lemma_first_greater(order: Seq<int>, lt: spec_fn(int, int) -> bool, x: int)
    ensures
        0 <= first_greater(order, lt, x) <= order.len(),
        forall|q: int| 0 <= q < first_greater(order, lt, x) ==> !lt(x, #[trigger] order[q]),
        first_greater(order, lt, x) < order.len() ==> lt(x, order[first_greater(order, lt, x)]),
    decreases order.len(),
{
    if order.len() > 0 {
        lemma_first_greater(order.drop_last(), lt, x);
        let p = first_greater(order.drop_last(), lt, x);
        assert forall|q: int| 0 <= q < first_greater(order, lt, x) implies !lt(x, #[trigger] order[q]) by {
            if q < order.len() - 1 {
                assert(order[q] == order.drop_last()[q]);
            }
        }
        if p < order.len() - 1 {
            assert(order[p] == order.drop_last()[p]);
        }
    }
}

/// Keys, one per position, compared by [`keys_lt`].
pub open spec fn by_keys(keys: Seq<Seq<Seq<char>>>) -> spec_fn(int, int) -> bool {
    |i: int, j: int| keys_lt(keys[i], keys[j])
}

/// The key tuples of a list of key vectors.
pub open spec fn key_views(keys: Seq<Vec<String>>) -> Seq<Seq<Seq<char>>> {
    keys.map_values(|k: Vec<String>| views(k@))
}

/// Scans `order` from the front for the first entry that `keys[x]` sorts
/// before.
fn insertion_point(order: &Vec<usize>, keys: &Vec<Vec<String>>, x: usize) -> (p: usize)
    requires
        x < keys@.len(),
        forall|q: int| 0 <= q < order@.len() ==> #[trigger] order@[q] < keys@.len(),
    ensures
        p as int == first_greater(
            order@.map_values(|i: usize| i as int),
            by_keys(key_views(keys@)),
            x as int,
        ),
{
    let ghost o = order@.map_values(|i: usize| i as int);
    let ghost lt = by_keys(key_views(keys@));
    proof {
        lemma_first_greater(o, lt, x as int);
    }
    let mut q: usize = 0;
    while q < order.len()
        invariant
            q <= order@.len(),
            o == order@.map_values(|i: usize| i as int),
            lt == by_keys(key_views(keys@)),
            x < keys@.len(),
            forall|r: int| 0 <= r < order@.len() ==> #[trigger] order@[r] < keys@.len(),
            0 <= first_greater(o, lt, x as int) <= o.len(),
            forall|r: int| 0 <= r < first_greater(o, lt, x as int) ==> !lt(x as int, #[trigger] o[r]),
            first_greater(o, lt, x as int) < o.len() ==> lt(x as int, o[first_greater(o, lt, x as int)]),
            q <= first_greater(o, lt, x as int),
        decreases order@.len() - q,
    {
        let y = order[q];
        assert(o[q as int] == y as int);
        assert(key_views(keys@)[x as int] == views(keys@[x as int]@));
        assert(key_views(keys@)[y as int] == views(keys@[y as int]@));
        if keys_less(&keys[x], &keys[y]) {
            return q;
        }
        q = q + 1;
    }
    q
}

/// The positions of `keys`, stably sorted by their key tuples.
pub fn sorted_positions(keys: &Vec<Vec<String>>) -> (r: Vec<usize>)
    ensures
        r@.map_values(|i: usize| i as int) == stable_order(
            by_keys(key_views(keys@)),
            keys@.len(),
        ),
        r@.len() == keys@.len(),
        forall|q: int| 0 <= q < r@.len() ==> #[trigger] r@[q] < keys@.len(),
{
    let ghost lt = by_keys(key_views(keys@));
    let mut order: Vec<usize> = Vec::new();
    let mut n: usize = 0;
    while n < keys.len()
        invariant
            n <= keys@.len(),
            lt == by_keys(key_views(keys@)),
            order@.map_values(|i: usize| i as int) == stable_order(lt, n as nat),
            order@.len() == n,
            forall|q: int| 0 <= q < order@.len() ==> #[trigger] order@[q] < n,
        decreases keys@.len() - n,
    {
        let ghost o = order@.map_values(|i: usize| i as int);
        let ghost before = order@;
        let p = insertion_point(&order, keys, n);
        proof {
            lemma_first_greater(o, lt, n as int);
        }
        order.insert(p, n);
        assert(order@.map_values(|i: usize| i as int) =~= o.insert(p as int, n as int));
        assert forall|q: int| 0 <= q < order@.len() implies #[trigger] order@[q] < n + 1 by {
            if q < p {
                assert(order@[q] == before[q]);
            } else if q > p {
                assert(order@[q] == before[q - 1]);
            }
        }
        n = n + 1;
    }
    order
}

/// Larger counts first; equal counts by name.
pub open spec fn by_count_then_name(counts: Seq<usize>, names: Seq<Seq<char>>) -> spec_fn(int, int) -> bool {
    |i: int, j: int| counts[i] > counts[j] || (counts[i] == counts[j] && text_lt(names[i], names[j]))
}

fn count_insertion_point(order: &Vec<usize>, counts: &Vec<usize>, names: &Vec<String>, x: usize) -> (p: usize)
    requires
        x < counts@.len(),
        counts@.len() == names@.len(),
        forall|q: int| 0 <= q < order@.len() ==> #[trigger] order@[q] < counts@.len(),
    ensures
        p as int == first_greater(
            order@.map_values(|i: usize| i as int),
            by_count_then_name(counts@, views(names@)),
            x as int,
        ),
{
    let ghost o = order@.map_values(|i: usize| i as int);
    let ghost lt = by_count_then_name(counts@, views(names@));
    proof {
        lemma_first_greater(o, lt, x as int);
    }
    let mut q: usize = 0;
    while q < order.len()
        invariant
            q <= order@.len(),
            o == order@.map_values(|i: usize| i as int),
            lt == by_count_then_name(counts@, views(names@)),
            x < counts@.len(),
            counts@.len() == names@.len(),
            forall|r: int| 0 <= r < order@.len() ==> #[trigger] order@[r] < counts@.len(),
            0 <= first_greater(o, lt, x as int) <= o.len(),
            forall|r: int| 0 <= r < first_greater(o, lt, x as int) ==> !lt(x as int, #[trigger] o[r]),
            first_greater(o, lt, x as int) < o.len() ==> lt(x as int, o[first_greater(o, lt, x as int)]),
            q <= first_greater(o, lt, x as int),
        decreases order@.len() - q,
    {
        let y = order[q];
        assert(o[q as int] == y as int);
        assert(views(names@)[x as int] == names@[x as int]@);
        assert(views(names@)[y as int] == names@[y as int]@);
        let before = counts[x] > counts[y] || (counts[x] == counts[y] && text_less(
            names[x].as_str(),
            names[y].as_str(),
        ));
        if before {
            return q;
        }
        q = q + 1;
    }
    q
}

/// The positions `0..counts.len()` stably sorted by count, descending, then
/// by name.
pub fn sorted_by_count(counts: &Vec<usize>, names: &Vec<String>) -> (r: Vec<usize>)
    requires
        counts@.len() == names@.len(),
    ensures
        r@.map_values(|i: usize| i as int) == stable_order(
            by_count_then_name(counts@, views(names@)),
            counts@.len(),
        ),
        r@.len() == counts@.len(),
        forall|q: int| 0 <= q < r@.len() ==> #[trigger] r@[q] < counts@.len(),
{
    let ghost lt = by_count_then_name(counts@, views(names@));
    let mut order: Vec<usize> = Vec::new();
    let mut n: usize = 0;
    while n < counts.len()
        invariant
            n <= counts@.len(),
            counts@.len() == names@.len(),
            lt == by_count_then_name(counts@, views(names@)),
            order@.map_values(|i: usize| i as int) == stable_order(lt, n as nat),
            order@.len() == n,
            forall|q: int| 0 <= q < order@.len() ==> #[trigger] order@[q] < n,
        decreases counts@.len() - n,
    {
        let ghost o = order@.map_values(|i: usize| i as int);
        let ghost before = order@;
        let p = count_insertion_point(&order, counts, names, n);
        proof {
            lemma_first_greater(o, lt, n as int);
        }
        order.insert(p, n);
        assert(order@.map_values(|i: usize| i as int) =~= o.insert(p as int, n as int));
        assert forall|q: int| 0 <= q < order@.len() implies #[trigger] order@[q] < n + 1 by {
            if q < p {
                assert(order@[q] == before[q]);
            } else if q > p {
                assert(order@[q] == before[q - 1]);
            }
        }
        n = n + 1;
    }
    order
}

/// The text order is irreflexive from any agreed prefix on.
pub proof fn lemma_text_lt_irreflexive(a: Seq<char>, i: int)
    requires
        0 <= i,
    ensures
        !text_lt_from(a, a, i),
    decreases a.len() - i,
{
    if i < a.len() {
        lemma_text_lt_irreflexive(a, i + 1);
    }
}

/// The text order is transitive.
pub proof fn lemma_text_lt_transitive(a: Seq<char>, b: Seq<char>, c: Seq<char>, i: int)
    requires
        0 <= i,
        text_lt_from(a, b, i),
        text_lt_from(b, c, i),
    ensures
        text_lt_from(a, c, i),
    decreases a.len() - i,
{
    if i < a.len() && i < b.len() && i < c.len() && a[i] == b[i] && b[i] == c[i] {
        lemma_text_lt_transitive(a, b, c, i + 1);
    }
}

/// Two different texts are ordered one way or the other, never both.
pub proof fn lemma_text_lt_total(a: Seq<char>, b: Seq<char>, i: int)
    requires
        0 <= i <= a.len(),
        i <= b.len(),
        a.take(i) == b.take(i),
        a != b,
    ensures
        text_lt_from(a, b, i) || text_lt_from(b, a, i),
        !(text_lt_from(a, b, i) && text_lt_from(b, a, i)),
    decreases a.len() - i,
{
    if i < a.len() && i < b.len() && a[i] == b[i] {
        assert(a.take(i + 1) == a.take(i).push(a[i]));
        assert(b.take(i + 1) == b.take(i).push(b[i]));
        lemma_text_lt_total(a, b, i + 1);
    } else if i >= a.len() && i >= b.len() {
        assert(a == a.take(i));
        assert(b == b.take(i));
    }
}

/// The text order as a strict total order: irreflexive, transitive, total
/// and asymmetric.
pub proof fn text_order_is_total(a: Seq<char>, b: Seq<char>, c: Seq<char>)
    ensures
        !text_lt(a, a),
        text_lt(a, b) && text_lt(b, c) ==> text_lt(a, c),
        a != b ==> (text_lt(a, b) || text_lt(b, a)),
        !(text_lt(a, b) && text_lt(b, a)),
{
    lemma_text_lt_irreflexive(a, 0);
    if text_lt(a, b) && text_lt(b, c) {
        lemma_text_lt_transitive(a, b, c, 0);
    }
    if a != b {
        assert(a.take(0) =~= b.take(0));
        lemma_text_lt_total(a, b, 0);
    } else {
        lemma_text_lt_irreflexive(a, 0);
    }
}

/// Whether `lt` orders the positions `0..n` as a strict weak order:
/// irreflexive, transitive, and with transitive incomparability.
pub open spec fn is_strict_weak(lt: spec_fn(int, int) -> bool, n: nat) -> bool {
    &&& forall|a: int| 0 <= a < n ==> !#[trigger] lt(a, a)
    &&& forall|a: int, b: int, c: int|
        #![trigger lt(a, b), lt(b, c)]
        0 <= a < n && 0 <= b < n && 0 <= c < n && lt(a, b) && lt(b, c) ==> lt(a, c)
    &&& forall|a: int, b: int, c: int|
        #![trigger lt(a, b), lt(b, c), lt(a, c)]
        0 <= a < n && 0 <= b < n && 0 <= c < n && !lt(a, b) && !lt(b, c) ==> !lt(a, c)
}

/// Whether `o` lists each of the positions `0..n` exactly once.
pub open spec fn is_permutation(o: Seq<int>, n: nat) -> bool {
    &&& o.len() == n
    &&& forall|p: int| 0 <= p < o.len() ==> 0 <= #[trigger] o[p] < n
    &&& forall|p: int, q: int| 0 <= p < q < o.len() ==> o[p] != o[q]
}

/// A permutation of `0..n` lists every position.
pub proof fn permutation_lists_every_position(o: Seq<int>, n: nat, i: int)
    requires
        is_permutation(o, n),
        0 <= i < n,
    ensures
        o.contains(i),
{
    if !o.contains(i) {
        assert(o.no_duplicates());
        o.unique_seq_to_set();
        vstd::set_lib::lemma_int_range(0, n as int);
        let r = vstd::set_lib::set_int_range(0, n as int).remove(i);
        assert(o.to_set().subset_of(r));
        vstd::set_lib::lemma_len_subset(o.to_set(), r);
    }
}

/// Whether `o` is sorted under `lt`, equivalent positions keeping their
/// original relative order.
pub open spec fn is_stably_sorted(o: Seq<int>, lt: spec_fn(int, int) -> bool) -> bool {
    &&& forall|p: int, q: int| 0 <= p < q < o.len() ==> !lt(#[trigger] o[q], #[trigger] o[p])
    &&& forall|p: int, q: int|
        0 <= p < q < o.len() && !lt(#[trigger] o[p], #[trigger] o[q]) && !lt(o[q], o[p]) ==> o[p] < o[q]
}

/// A stable insertion sort under a strict weak order lists every position
/// exactly once, in sorted order, equivalent positions in their original
/// relative order.
pub proof fn stable_order_sorts(lt: spec_fn(int, int) -> bool, n: nat)
    requires
        is_strict_weak(lt, n),
    ensures
        is_permutation(stable_order(lt, n), n),
        is_stably_sorted(stable_order(lt, n), lt),
    decreases n,
{
    if n > 0 {
        let m = (n - 1) as nat;
        assert(is_strict_weak(lt, m));
        stable_order_sorts(lt, m);
        let o = stable_order(lt, m);
        let x = n - 1;
        let g = first_greater(o, lt, x);
        lemma_first_greater(o, lt, x);
        let o2 = o.insert(g, x);
        assert(stable_order(lt, n) == o2);
        assert(o2.len() == n);
        assert forall|i: int| 0 <= i < o2.len() implies #[trigger] o2[i] == (if i < g {
            o[i]
        } else if i == g {
            x
        } else {
            o[i - 1]
        }) by {}
        assert forall|p: int| 0 <= p < o2.len() implies 0 <= #[trigger] o2[p] < n by {
            if p != g {
                let j = if p < g { p } else { p - 1 };
                assert(o2[p] == o[j]);
            }
        }
        assert forall|p: int, q: int| 0 <= p < q < o2.len() implies o2[p] != o2[q] by {
            if p != g && q != g {
                let i = if p < g { p } else { p - 1 };
                let j = if q < g { q } else { q - 1 };
                assert(o2[p] == o[i] && o2[q] == o[j]);
            } else if p == g {
                assert(o2[q] == o[q - 1]);
            } else {
                assert(o2[p] == o[p]);
            }
        }
        assert forall|p: int, q: int| 0 <= p < q < o2.len() implies !lt(#[trigger] o2[q], #[trigger] o2[p]) by {
            if p != g && q != g {
                let i = if p < g { p } else { p - 1 };
                let j = if q < g { q } else { q - 1 };
                assert(o2[p] == o[i] && o2[q] == o[j]);
            } else if q == g {
                assert(o2[p] == o[p]);
                assert(!lt(x, o[p]));
            } else {
                let j = q - 1;
                assert(o2[q] == o[j]);
                assert(lt(x, o[g]));
                if lt(o[j], x) {
                    if g < j {
                        assert(!lt(o[j], o[g]));
                    }
                    assert(lt(o[j], o[g]));
                }
            }
        }
        assert forall|p: int, q: int|
            0 <= p < q < o2.len() && !lt(#[trigger] o2[p], #[trigger] o2[q]) && !lt(o2[q], o2[p]) implies o2[p]
            < o2[q] by {
            if p != g && q != g {
                let i = if p < g { p } else { p - 1 };
                let j = if q < g { q } else { q - 1 };
                assert(o2[p] == o[i] && o2[q] == o[j]);
            } else if q == g {
                assert(o2[p] == o[p]);
            } else {
                let j = q - 1;
                assert(o2[q] == o[j]);
                assert(lt(x, o[g]));
                if g < j {
                    assert(!lt(o[j], o[g]));
                }
            }
        }
    }
}

proof fn lemma_keys_irreflexive(a: Seq<Seq<char>>, j: int)
    requires
        0 <= j,
    ensures
        !keys_lt_from(a, a, j),
    decreases a.len() - j,
{
    if j < a.len() {
        lemma_keys_irreflexive(a, j + 1);
    }
}

proof fn lemma_keys_transitive(a: Seq<Seq<char>>, b: Seq<Seq<char>>, c: Seq<Seq<char>>, j: int)
    requires
        0 <= j,
        keys_lt_from(a, b, j),
        keys_lt_from(b, c, j),
    ensures
        keys_lt_from(a, c, j),
    decreases a.len() - j,
{
    if a[j] == b[j] && b[j] == c[j] {
        lemma_keys_transitive(a, b, c, j + 1);
    } else if a[j] == b[j] {
    } else if b[j] == c[j] {
    } else {
        text_order_is_total(a[j], b[j], c[j]);
        if a[j] == c[j] {
            text_order_is_total(a[j], b[j], a[j]);
        }
    }
}

proof fn lemma_keys_total(a: Seq<Seq<char>>, b: Seq<Seq<char>>, j: int)
    requires
        0 <= j <= a.len(),
        a.len() == b.len(),
        a.take(j) == b.take(j),
        a != b,
    ensures
        keys_lt_from(a, b, j) || keys_lt_from(b, a, j),
    decreases a.len() - j,
{
    if j < a.len() && a[j] == b[j] {
        assert(a.take(j + 1) == a.take(j).push(a[j]));
        assert(b.take(j + 1) == b.take(j).push(b[j]));
        lemma_keys_total(a, b, j + 1);
    } else if j >= a.len() {
        assert(a == a.take(j));
        assert(b == b.take(j));
    } else {
        text_order_is_total(a[j], b[j], a[j]);
    }
}

/// Key tuples of one length are strictly and totally ordered.
pub proof fn key_order_is_total(a: Seq<Seq<char>>, b: Seq<Seq<char>>, c: Seq<Seq<char>>)
    requires
        a.len() == b.len(),
        b.len() == c.len(),
    ensures
        !keys_lt(a, a),
        keys_lt(a, b) && keys_lt(b, c) ==> keys_lt(a, c),
        a != b ==> (keys_lt(a, b) || keys_lt(b, a)),
        !(keys_lt(a, b) && keys_lt(b, a)),
        !keys_lt(a, b) && !keys_lt(b, c) ==> !keys_lt(a, c),
{
    lemma_keys_irreflexive(a, 0);
    lemma_keys_irreflexive(b, 0);
    if keys_lt(a, b) && keys_lt(b, c) {
        lemma_keys_transitive(a, b, c, 0);
    }
    if keys_lt(a, b) && keys_lt(b, a) {
        lemma_keys_transitive(a, b, a, 0);
    }
    if a != b {
        assert(a.take(0) =~= b.take(0));
        lemma_keys_total(a, b, 0);
    }
    if b != c {
        assert(b.take(0) =~= c.take(0));
        lemma_keys_total(b, c, 0);
    }
    if !keys_lt(a, b) && !keys_lt(b, c) && keys_lt(a, c) {
        if a == b {
        } else if b == c {
        } else {
            lemma_keys_transitive(c, b, a, 0);
            lemma_keys_transitive(a, c, a, 0);
            lemma_keys_irreflexive(a, 0);
        }
    }
}

/// Key tuples of one length give a strict weak order on their positions.
pub proof fn keys_order_is_strict_weak(keys: Seq<Seq<Seq<char>>>, len: nat)
    requires
        forall|i: int| 0 <= i < keys.len() ==> (#[trigger] keys[i]).len() == len,
    ensures
        is_strict_weak(by_keys(keys), keys.len()),
{
    let lt = by_keys(keys);
    let n = keys.len();
    assert forall|a: int| 0 <= a < n implies !#[trigger] lt(a, a) by {
        key_order_is_total(keys[a], keys[a], keys[a]);
    }
    assert forall|a: int, b: int, c: int|
        #![trigger lt(a, b), lt(b, c)]
        0 <= a < n && 0 <= b < n && 0 <= c < n && lt(a, b) && lt(b, c) implies lt(a, c) by {
        key_order_is_total(keys[a], keys[b], keys[c]);
    }
    assert forall|a: int, b: int, c: int|
        #![trigger lt(a, b), lt(b, c), lt(a, c)]
        0 <= a < n && 0 <= b < n && 0 <= c < n && !lt(a, b) && !lt(b, c) implies !lt(a, c) by {
        key_order_is_total(keys[a], keys[b], keys[c]);
    }
}

/// One-component keys order as their text does.
pub proof fn single_key_order(x: Seq<char>, y: Seq<char>)
    ensures
        keys_lt(seq![x], seq![y]) == text_lt(x, y),
{
    let a = seq![x];
    let b = seq![y];
    assert(a[0] == x && b[0] == y);
    assert(!keys_lt_from(a, b, 1));
    text_order_is_total(x, y, x);
    if x == y {
        lemma_text_lt_irreflexive(x, 0);
    }
}

} // verus!
