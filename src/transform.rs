//! Reshaping of projected JSON: one-level flattening with collision
//! tracking, and pivoting a list of flat objects into columns.
//!
//! On a key collision while flattening, the first value written is kept,
//! and each later one is dropped and recorded. Values are hoisted from the
//! fully flattened child, so nesting of any depth ends in one level.
use vstd::prelude::*;
use crate::json::{
    JValue, Json, has_key, contains_key, get_value, lookup, view_entries, view_items,
    lemma_view_entries, lemma_view_items, lemma_lookup_found,
};
use crate::order::{insert_sorted, strictly_sorted, view_texts};
use crate::schema::same_text;

verus! {

/// Writes `k` unless it is already there; the first value wins.
pub open spec fn put(acc: Seq<(Seq<char>, JValue)>, k: Seq<char>, v: JValue) -> Seq<(Seq<char>, JValue)> {
    if has_key(acc, k) {
        acc
    } else {
        acc.push((k, v))
    }
}

/// The collision that writing `k` records: `k`, if it is already there.
pub open spec fn put_collision(acc: Seq<(Seq<char>, JValue)>, k: Seq<char>) -> Seq<Seq<char>> {
    if has_key(acc, k) {
        seq![k]
    } else {
        Seq::empty()
    }
}

/// Writes the entries of `inner` in order.
pub open spec fn merge(acc: Seq<(Seq<char>, JValue)>, inner: Seq<(Seq<char>, JValue)>) -> Seq<(Seq<char>, JValue)>
    decreases inner.len(),
{
    if inner.len() == 0 {
        acc
    } else {
        put(merge(acc, inner.drop_last()), inner.last().0, inner.last().1)
    }
}

pub open spec fn merge_collisions(acc: Seq<(Seq<char>, JValue)>, inner: Seq<(Seq<char>, JValue)>) -> Seq<Seq<char>>
    decreases inner.len(),
{
    if inner.len() == 0 {
        Seq::empty()
    } else {
        merge_collisions(acc, inner.drop_last()) + put_collision(merge(acc, inner.drop_last()), inner.last().0)
    }
}

/// One-level flattening: the keys of each nested object, itself flattened
/// first, take the place of the key that held it; other values stay under
/// their key. Values that are not objects are left as they are.
pub open spec fn flatten(v: JValue) -> JValue
    decreases v,
{
    match v {
        JValue::Object(es) => JValue::Object(flat_entries(es)),
        _ => v,
    }
}

pub open spec fn flat_entries(es: Seq<(Seq<char>, JValue)>) -> Seq<(Seq<char>, JValue)>
    decreases es,
{
    if es.len() == 0 {
        Seq::empty()
    } else {
        let prev = flat_entries(es.drop_last());
        match flatten(es.last().1) {
            JValue::Object(inner) => merge(prev, inner),
            other => put(prev, es.last().0, other),
        }
    }
}

/// The keys that collide while `v` is flattened, one entry per collision,
/// in the order met.
pub open spec fn collisions(v: JValue) -> Seq<Seq<char>>
    decreases v,
{
    match v {
        JValue::Object(es) => entries_collisions(es),
        _ => Seq::empty(),
    }
}

pub open spec fn entries_collisions(es: Seq<(Seq<char>, JValue)>) -> Seq<Seq<char>>
    decreases es,
{
    if es.len() == 0 {
        Seq::empty()
    } else {
        let prev = flat_entries(es.drop_last());
        entries_collisions(es.drop_last()) + collisions(es.last().1) + match flatten(es.last().1) {
            JValue::Object(inner) => merge_collisions(prev, inner),
            _ => put_collision(prev, es.last().0),
        }
    }
}

/// Writes `k` with `v` unless `k` is there already, in which case `k` is
/// recorded as a collision.
fn put_into(flat: &mut Vec<(String, Json)>, k: &str, v: Json, failures: &mut Vec<String>)
    ensures
        view_entries(final(flat)@) == put(view_entries(old(flat)@), k@, v@),
        view_texts(final(failures)@) == view_texts(old(failures)@) + put_collision(view_entries(old(flat)@), k@),
{
    if contains_key(flat, k) {
        failures.push(String::from_str(k));
        proof {
            assert(view_texts(failures@) =~= view_texts(old(failures)@) + put_collision(view_entries(old(flat)@), k@));
        }
    } else {
        flat.push((String::from_str(k), v));
        proof {
            assert(flat@.drop_last() =~= old(flat)@);
            assert(view_texts(failures@) =~= view_texts(old(failures)@) + put_collision(view_entries(old(flat)@), k@));
        }
    }
}

/// Writes the entries of `inner` in order, as `put_into` does.
fn merge_into(flat: &mut Vec<(String, Json)>, inner: &Vec<(String, Json)>, failures: &mut Vec<String>)
    ensures
        view_entries(final(flat)@) == merge(view_entries(old(flat)@), view_entries(inner@)),
        view_texts(final(failures)@) == view_texts(old(failures)@) + merge_collisions(
            view_entries(old(flat)@),
            view_entries(inner@),
        ),
{
    let ghost acc = view_entries(flat@);
    let ghost f0 = view_texts(failures@);
    let ghost s = view_entries(inner@);
    proof {
        lemma_view_entries(inner@);
        assert(s.subrange(0, 0) =~= Seq::<(Seq<char>, JValue)>::empty());
        assert(f0 + Seq::<Seq<char>>::empty() =~= f0);
    }
    let mut i: usize = 0;
    while i < inner.len()
        invariant
            i <= inner.len(),
            s == view_entries(inner@),
            s.len() == inner@.len(),
            forall|j: int| 0 <= j < inner@.len() ==> #[trigger] s[j] == (inner@[j].0@, inner@[j].1.view()),
            view_entries(flat@) == merge(acc, s.subrange(0, i as int)),
            view_texts(failures@) == f0 + merge_collisions(acc, s.subrange(0, i as int)),
        decreases inner.len() - i,
    {
        let v = inner[i].1.deep_copy();
        put_into(flat, inner[i].0.as_str(), v, failures);
        proof {
            let post = s.subrange(0, i as int + 1);
            assert(post.drop_last() =~= s.subrange(0, i as int));
            assert(post.last() == s[i as int]);
            let a = f0;
            let b = merge_collisions(acc, s.subrange(0, i as int));
            let c = put_collision(merge(acc, s.subrange(0, i as int)), s[i as int].0);
            assert((a + b) + c =~= a + (b + c));
        }
        i = i + 1;
    }
    proof {
        assert(s.subrange(0, s.len() as int) =~= s);
    }
}

/// Flattens one value; each key collision is appended to `failures`.
pub fn flatten_json(json: &Json, failures: &mut Vec<String>) -> (r: Json)
    ensures
        r@ == flatten(json@),
        view_texts(final(failures)@) == view_texts(old(failures)@) + collisions(json@),
    decreases json@,
{
    match json {
        Json::Object(m) => {
            let ghost f0 = view_texts(failures@);
            let ghost s = view_entries(m@);
            let mut flat: Vec<(String, Json)> = Vec::new();
            proof {
                lemma_view_entries(m@);
                assert(s.subrange(0, 0) =~= Seq::<(Seq<char>, JValue)>::empty());
                assert(view_entries(flat@) =~= flat_entries(s.subrange(0, 0)));
                assert(f0 + Seq::<Seq<char>>::empty() =~= f0);
            }
            let mut i: usize = 0;
            while i < m.len()
                invariant
                    i <= m.len(),
                    json@ == JValue::Object(s),
                    s == view_entries(m@),
                    s.len() == m@.len(),
                    forall|j: int| 0 <= j < m@.len() ==> #[trigger] s[j] == (m@[j].0@, m@[j].1.view()),
                    view_entries(flat@) == flat_entries(s.subrange(0, i as int)),
                    view_texts(failures@) == f0 + entries_collisions(s.subrange(0, i as int)),
                decreases m.len() - i,
            {
                proof {
                    assert(decreases_to!(json@ => json@->Object_0));
                    assert(decreases_to!(s => s[i as int]));
                    assert(decreases_to!(s[i as int] => s[i as int].1));
                }
                let ghost pre = s.subrange(0, i as int);
                let ghost post = s.subrange(0, i as int + 1);
                let v = flatten_json(&m[i].1, failures);
                let ghost q1 = view_texts(failures@);
                match v {
                    Json::Object(mm) => {
                        merge_into(&mut flat, &mm, failures);
                    },
                    other => {
                        put_into(&mut flat, m[i].0.as_str(), other, failures);
                    },
                }
                proof {
                    assert(post.drop_last() =~= pre);
                    assert(post.last() == s[i as int]);
                    let a = f0;
                    let b = entries_collisions(pre);
                    let c = collisions(s[i as int].1);
                    let d = match flatten(s[i as int].1) {
                        JValue::Object(inner) => merge_collisions(flat_entries(pre), inner),
                        _ => put_collision(flat_entries(pre), s[i as int].0),
                    };
                    assert(q1 == (a + b) + c);
                    assert(view_texts(failures@) == q1 + d);
                    assert(((a + b) + c) + d =~= a + ((b + c) + d));
                }
                i = i + 1;
            }
            proof {
                assert(s.subrange(0, s.len() as int) =~= s);
            }
            Json::Object(flat)
        },
        _ => json.deep_copy(),
    }
}


/// Flattening applied to each item of an array, or to a bare value.
pub open spec fn flatten_rows(v: JValue) -> JValue {
    match v {
        JValue::Array(items) => JValue::Array(flatten_items(items)),
        _ => flatten(v),
    }
}

pub open spec fn flatten_items(items: Seq<JValue>) -> Seq<JValue>
    decreases items.len(),
{
    if items.len() == 0 {
        Seq::empty()
    } else {
        flatten_items(items.drop_last()).push(flatten(items.last()))
    }
}

pub open spec fn rows_collisions(v: JValue) -> Seq<Seq<char>> {
    match v {
        JValue::Array(items) => items_collisions(items),
        _ => collisions(v),
    }
}

pub open spec fn items_collisions(items: Seq<JValue>) -> Seq<Seq<char>>
    decreases items.len(),
{
    if items.len() == 0 {
        Seq::empty()
    } else {
        items_collisions(items.drop_last()) + collisions(items.last())
    }
}

/// Flattens each item of an array, or a bare value; each key collision is
/// appended to `failures`.
pub fn flatten_json_array(value: &Json, failures: &mut Vec<String>) -> (r: Json)
    ensures
        r@ == flatten_rows(value@),
        view_texts(final(failures)@) == view_texts(old(failures)@) + rows_collisions(value@),
{
    match value {
        Json::Array(a) => {
            let ghost f0 = view_texts(failures@);
            let ghost s = view_items(a@);
            proof {
                lemma_view_items(a@);
                assert(s.subrange(0, 0) =~= Seq::<JValue>::empty());
                assert(f0 + Seq::<Seq<char>>::empty() =~= f0);
            }
            let mut out: Vec<Json> = Vec::new();
            let mut i: usize = 0;
            while i < a.len()
                invariant
                    i <= a.len(),
                    s == view_items(a@),
                    s.len() == a@.len(),
                    forall|j: int| 0 <= j < a@.len() ==> #[trigger] s[j] == a@[j].view(),
                    view_items(out@) == flatten_items(s.subrange(0, i as int)),
                    view_texts(failures@) == f0 + items_collisions(s.subrange(0, i as int)),
                decreases a.len() - i,
            {
                let ghost o0 = out@;
                let f = flatten_json(&a[i], failures);
                out.push(f);
                proof {
                    let post = s.subrange(0, i as int + 1);
                    assert(post.drop_last() =~= s.subrange(0, i as int));
                    assert(out@.drop_last() =~= o0);
                    assert(view_items(out@) =~= flatten_items(post));
                    let x = f0;
                    let y = items_collisions(s.subrange(0, i as int));
                    let z = collisions(s[i as int]);
                    assert((x + y) + z =~= x + (y + z));
                }
                i = i + 1;
            }
            proof {
                assert(s.subrange(0, s.len() as int) =~= s);
            }
            Json::Array(out)
        },
        _ => flatten_json(value, failures),
    }
}

/// Whether `row` is an object with an entry for `k`.
pub open spec fn row_has_key(row: JValue, k: Seq<char>) -> bool {
    match row {
        JValue::Object(es) => has_key(es, k),
        _ => false,
    }
}

/// Every key of every object among the rows.
pub open spec fn row_keys(rows: Seq<JValue>) -> Set<Seq<char>> {
    Set::new(|k: Seq<char>| exists|r: int| 0 <= r < rows.len() && #[trigger] row_has_key(rows[r], k))
}

/// The keys of the objects before row `i`, and of row `i` before entry `j`.
pub open spec fn keys_before(rows: Seq<JValue>, i: int, j: int) -> Set<Seq<char>> {
    Set::new(|k: Seq<char>| exists|r: int, e: int| 0 <= r < rows.len() && (r < i || (r == i && e < j)) && #[trigger] entry_key(rows[r], e, k))
}

pub open spec fn entry_key(row: JValue, e: int, k: Seq<char>) -> bool {
    match row {
        JValue::Object(es) => 0 <= e < es.len() && es[e].0 == k,
        _ => false,
    }
}

/// The positions of the rows that are not objects.
pub open spec fn non_objects(rows: Seq<JValue>) -> Seq<usize>
    decreases rows.len(),
{
    if rows.len() == 0 {
        Seq::empty()
    } else if rows.last() is Object {
        non_objects(rows.drop_last())
    } else {
        non_objects(rows.drop_last()).push((rows.len() - 1) as usize)
    }
}

/// The sorted union of the keys of the object rows. The position of each
/// row that is not an object is appended to `warnings`.
pub fn list_of_dicts_columns(it: &Vec<Json>, warnings: &mut Vec<usize>) -> (r: Vec<String>)
    ensures
        strictly_sorted(view_texts(r@)),
        view_texts(r@).to_set() == row_keys(view_items(it@)),
        final(warnings)@ == old(warnings)@ + non_objects(view_items(it@)),
{
    let ghost rows = view_items(it@);
    let ghost w0 = warnings@;
    proof {
        lemma_view_items(it@);
        assert(rows.subrange(0, 0) =~= Seq::<JValue>::empty());
        assert(w0 + Seq::<usize>::empty() =~= w0);
    }
    let mut set: Vec<String> = Vec::new();
    let mut i: usize = 0;
    proof {
        assert(view_texts(set@).to_set() =~= keys_before(rows, 0, 0));
    }
    while i < it.len()
        invariant
            i <= it.len(),
            rows == view_items(it@),
            rows.len() == it@.len(),
            forall|j: int| 0 <= j < it@.len() ==> #[trigger] rows[j] == it@[j].view(),
            strictly_sorted(view_texts(set@)),
            view_texts(set@).to_set() == keys_before(rows, i as int, 0),
            warnings@ == w0 + non_objects(rows.subrange(0, i as int)),
        decreases it.len() - i,
    {
        proof {
            let post = rows.subrange(0, i as int + 1);
            assert(post.drop_last() =~= rows.subrange(0, i as int));
            assert(post.last() == rows[i as int]);
        }
        match &it[i] {
            Json::Object(m) => {
                let ghost es = view_entries(m@);
                proof {
                    lemma_view_entries(m@);
                }
                let mut j: usize = 0;
                while j < m.len()
                    invariant
                        i < it.len(),
                        rows == view_items(it@),
                        rows.len() == it@.len(),
                        rows[i as int] == JValue::Object(es),
                        es == view_entries(m@),
                        es.len() == m@.len(),
                        forall|e: int| 0 <= e < m@.len() ==> #[trigger] es[e] == (m@[e].0@, m@[e].1.view()),
                        j <= m.len(),
                        strictly_sorted(view_texts(set@)),
                        view_texts(set@).to_set() == keys_before(rows, i as int, j as int),
                    decreases m.len() - j,
                {
                    insert_sorted(&mut set, m[j].0.as_str());
                    proof {
                        let k0 = es[j as int].0;
                        assert(entry_key(rows[i as int], j as int, k0));
                        assert(view_texts(set@).to_set() =~= keys_before(rows, i as int, j as int + 1)) by {
                            assert forall|k: Seq<char>| keys_before(rows, i as int, j as int + 1).contains(k) implies keys_before(rows, i as int, j as int).insert(k0).contains(k) by {
                                let (r, e) = choose|r: int, e: int| 0 <= r < rows.len() && (r < i || (r == i && e < j + 1)) && #[trigger] entry_key(rows[r], e, k);
                                if !(r == i && e == j) {
                                    assert(keys_before(rows, i as int, j as int).contains(k));
                                }
                            }
                            assert forall|k: Seq<char>| keys_before(rows, i as int, j as int).insert(k0).contains(k) implies keys_before(rows, i as int, j as int + 1).contains(k) by {
                                if k == k0 {
                                    assert(entry_key(rows[i as int], j as int, k));
                                } else {
                                    let (r, e) = choose|r: int, e: int| 0 <= r < rows.len() && (r < i || (r == i && e < j)) && #[trigger] entry_key(rows[r], e, k);
                                    assert(entry_key(rows[r], e, k));
                                }
                            }
                        }
                    }
                    j = j + 1;
                }
                proof {
                    assert(keys_before(rows, i as int, j as int) =~= keys_before(rows, i as int + 1, 0)) by {
                        assert forall|k: Seq<char>| keys_before(rows, i as int, j as int).contains(k) implies keys_before(rows, i as int + 1, 0).contains(k) by {
                            let (r, e) = choose|r: int, e: int| 0 <= r < rows.len() && (r < i || (r == i && e < j)) && #[trigger] entry_key(rows[r], e, k);
                            assert(entry_key(rows[r], e, k));
                        }
                        assert forall|k: Seq<char>| keys_before(rows, i as int + 1, 0).contains(k) implies keys_before(rows, i as int, j as int).contains(k) by {
                            let (r, e) = choose|r: int, e: int| 0 <= r < rows.len() && (r < i + 1 || (r == i + 1 && e < 0)) && #[trigger] entry_key(rows[r], e, k);
                            assert(entry_key(rows[r], e, k));
                        }
                    }
                }
            },
            _ => {
                warnings.push(i);
                proof {
                    assert(keys_before(rows, i as int, 0) =~= keys_before(rows, i as int + 1, 0)) by {
                        assert forall|k: Seq<char>| keys_before(rows, i as int + 1, 0).contains(k) implies keys_before(rows, i as int, 0).contains(k) by {
                            let (r, e) = choose|r: int, e: int| 0 <= r < rows.len() && (r < i + 1 || (r == i + 1 && e < 0)) && #[trigger] entry_key(rows[r], e, k);
                            assert(entry_key(rows[r], e, k));
                        }
                        assert forall|k: Seq<char>| keys_before(rows, i as int, 0).contains(k) implies keys_before(rows, i as int + 1, 0).contains(k) by {
                            let (r, e) = choose|r: int, e: int| 0 <= r < rows.len() && (r < i || (r == i && e < 0)) && #[trigger] entry_key(rows[r], e, k);
                            assert(entry_key(rows[r], e, k));
                        }
                    }
                }
            },
        }
        i = i + 1;
    }
    proof {
        assert(rows.subrange(0, rows.len() as int) =~= rows);
        assert(keys_before(rows, i as int, 0) =~= row_keys(rows)) by {
            assert forall|k: Seq<char>| row_keys(rows).contains(k) implies keys_before(rows, i as int, 0).contains(k) by {
                let r = choose|r: int| 0 <= r < rows.len() && #[trigger] row_has_key(rows[r], k);
                let es = rows[r]->Object_0;
                let e = choose|e: int| 0 <= e < es.len() && #[trigger] es[e].0 == k;
                assert(entry_key(rows[r], e, k));
            }
            assert forall|k: Seq<char>| keys_before(rows, i as int, 0).contains(k) implies row_keys(rows).contains(k) by {
                let (r, e) = choose|r: int, e: int| 0 <= r < rows.len() && (r < i || (r == i && e < 0)) && #[trigger] entry_key(rows[r], e, k);
                let es = rows[r]->Object_0;
                assert(es[e].0 == k);
                assert(row_has_key(rows[r], k));
            }
        }
    }
    set
}


/// The cell of a row in the column `k`: the row's value for `k`, or null
/// when the row lacks `k` or is not an object.
pub open spec fn cell(row: JValue, k: Seq<char>) -> JValue {
    match row {
        JValue::Object(es) => match lookup(es, k) {
            Some(v) => v,
            None => JValue::Null,
        },
        _ => JValue::Null,
    }
}

pub open spec fn column_of(rows: Seq<JValue>, k: Seq<char>) -> Seq<JValue> {
    Seq::new(rows.len(), |r: int| cell(rows[r], k))
}

pub open spec fn pivot_entries(rows: Seq<JValue>, cols: Seq<Seq<char>>) -> Seq<(Seq<char>, JValue)> {
    Seq::new(cols.len(), |c: int| (cols[c], JValue::Array(column_of(rows, cols[c]))))
}

/// The rows pivoted on the columns `cols`: one entry per column, holding
/// that column's cell of every row, in row order.
pub open spec fn pivot_with(rows: Seq<JValue>, cols: Seq<Seq<char>>) -> JValue {
    JValue::Object(pivot_entries(rows, cols))
}

/// Pivots a list of flat objects into one object of columns: its keys are
/// the sorted union of the rows' keys, and each holds an array with one
/// cell per row, null where the row lacks the key. The position of each
/// row that is not an object is appended to `warnings`; such a row gives
/// null in every column.
pub fn to_dict_of_lists(it: &Vec<Json>, warnings: &mut Vec<usize>) -> (r: Json)
    ensures
        exists|cols: Seq<Seq<char>>|
            strictly_sorted(cols) && cols.to_set() == row_keys(view_items(it@)) && r@ == pivot_with(
                view_items(it@),
                cols,
            ),
        final(warnings)@ == old(warnings)@ + non_objects(view_items(it@)),
{
    let ghost rows = view_items(it@);
    proof {
        lemma_view_items(it@);
    }
    let cols = list_of_dicts_columns(it, warnings);
    let ghost names = view_texts(cols@);
    let mut m: Vec<(String, Json)> = Vec::new();
    let mut c: usize = 0;
    proof {
        assert(view_entries(m@) =~= pivot_entries(rows, names).subrange(0, 0));
    }
    while c < cols.len()
        invariant
            c <= cols.len(),
            rows == view_items(it@),
            rows.len() == it@.len(),
            forall|j: int| 0 <= j < it@.len() ==> #[trigger] rows[j] == it@[j].view(),
            names == view_texts(cols@),
            view_entries(m@) == pivot_entries(rows, names).subrange(0, c as int),
        decreases cols.len() - c,
    {
        let mut v: Vec<Json> = Vec::new();
        let mut r: usize = 0;
        let ghost k = names[c as int];
        proof {
            assert(view_items(v@) =~= column_of(rows, k).subrange(0, 0));
        }
        while r < it.len()
            invariant
                c < cols.len(),
                r <= it.len(),
                rows == view_items(it@),
                rows.len() == it@.len(),
                forall|j: int| 0 <= j < it@.len() ==> #[trigger] rows[j] == it@[j].view(),
                k == cols@[c as int]@,
                view_items(v@) == column_of(rows, k).subrange(0, r as int),
            decreases it.len() - r,
        {
            let ghost v0 = v@;
            let x = match &it[r] {
                Json::Object(mm) => match get_value(mm, cols[c].as_str()) {
                    Some(x) => x.deep_copy(),
                    None => Json::Null,
                },
                _ => Json::Null,
            };
            proof {
                assert(x@ == cell(rows[r as int], k));
            }
            v.push(x);
            proof {
                assert(v@.drop_last() =~= v0);
                assert(view_items(v@) =~= column_of(rows, k).subrange(0, r as int + 1));
            }
            r = r + 1;
        }
        let ghost m0 = m@;
        proof {
            assert(column_of(rows, k).subrange(0, rows.len() as int) =~= column_of(rows, k));
        }
        m.push((cols[c].clone(), Json::Array(v)));
        proof {
            assert(m@.drop_last() =~= m0);
            assert(m@.last().0@ == k);
            assert(m@.last().1.view() == JValue::Array(column_of(rows, k)));
            assert(view_entries(m@) == view_entries(m0).push((k, JValue::Array(column_of(rows, k)))));
            assert(pivot_entries(rows, names)[c as int] == (k, JValue::Array(column_of(rows, k))));
            assert(view_entries(m@) =~= pivot_entries(rows, names).subrange(0, c as int + 1));
        }
        c = c + 1;
    }
    proof {
        assert(pivot_entries(rows, names).subrange(0, names.len() as int) =~= pivot_entries(rows, names));
    }
    Json::Object(m)
}

/// Pivoting loses no value: for every key that a row holds, the pivot has a
/// column of that key whose cell for that row is the row's value, so the
/// rows can be read back out of the columns, with nulls where a row lacked
/// a key.
pub proof fn lemma_pivot_keeps_rows(rows: Seq<JValue>, cols: Seq<Seq<char>>, r: int, k: Seq<char>)
    requires
        strictly_sorted(cols),
        cols.to_set() == row_keys(rows),
        0 <= r < rows.len(),
        row_has_key(rows[r], k),
    ensures
        exists|c: int|
            0 <= c < cols.len() && cols[c] == k && #[trigger] pivot_entries(rows, cols)[c] == (
                k,
                JValue::Array(column_of(rows, k)),
            ) && column_of(rows, k)[r] == lookup(rows[r]->Object_0, k)->Some_0,
{
    assert(row_keys(rows).contains(k));
    assert(cols.to_set().contains(k));
    let c = choose|c: int| 0 <= c < cols.len() && cols[c] == k;
    lemma_lookup_found(rows[r]->Object_0, k);
    assert(pivot_entries(rows, cols)[c] == (k, JValue::Array(column_of(rows, k))));
}


/// How many times `k` occurs in `s`.
pub open spec fn occurrences(s: Seq<Seq<char>>, k: Seq<char>) -> nat
    decreases s.len(),
{
    if s.len() == 0 {
        0
    } else {
        occurrences(s.drop_last(), k) + if s.last() == k {
            1nat
        } else {
            0nat
        }
    }
}

pub open spec fn tally_keys(t: Seq<(String, usize)>) -> Seq<Seq<char>> {
    Seq::new(t.len(), |i: int| t[i].0@)
}

/// The collisions recorded in `failures`, counted: each key once, with the
/// number of times it occurs.
pub fn tally(failures: &Vec<String>) -> (r: Vec<(String, usize)>)
    ensures
        tally_keys(r@).no_duplicates(),
        tally_keys(r@).to_set() == view_texts(failures@).to_set(),
        forall|i: int| 0 <= i < r@.len() ==> #[trigger] r@[i].1 as nat == occurrences(view_texts(failures@), r@[i].0@),
{
    let ghost s = view_texts(failures@);
    let mut out: Vec<(String, usize)> = Vec::new();
    let mut i: usize = 0;
    proof {
        assert(s.subrange(0, 0).to_set() =~= Set::<Seq<char>>::empty());
        assert(tally_keys(out@).to_set() =~= Set::<Seq<char>>::empty());
    }
    while i < failures.len()
        invariant
            i <= failures.len(),
            s == view_texts(failures@),
            tally_keys(out@).no_duplicates(),
            tally_keys(out@).to_set() == s.subrange(0, i as int).to_set(),
            forall|j: int| 0 <= j < out@.len() ==> #[trigger] out@[j].1 as nat == occurrences(s.subrange(0, i as int), out@[j].0@),
            forall|j: int| 0 <= j < out@.len() ==> #[trigger] out@[j].1 as nat <= i,
        decreases failures.len() - i,
    {
        let ghost pre = s.subrange(0, i as int);
        let ghost post = s.subrange(0, i as int + 1);
        let ghost k = s[i as int];
        proof {
            assert(post.drop_last() =~= pre);
            assert(post.last() == k);
            assert(post.to_set() =~= pre.to_set().insert(k));
        }
        let ghost o0 = out@;
        let mut j: usize = 0;
        while j < out.len() && !same_text(out[j].0.as_str(), failures[i].as_str())
            invariant
                j <= out.len(),
                i < failures.len(),
                out@ == o0,
                k == failures@[i as int]@,
                forall|a: int| 0 <= a < j ==> (#[trigger] out@[a]).0@ != k,
            decreases out.len() - j,
        {
            j = j + 1;
        }
        if j < out.len() {
            let n = out[j].1 + 1;
            let name = out[j].0.clone();
            out.set(j, (name, n));
            proof {
                assert(tally_keys(out@) =~= tally_keys(o0));
                assert(pre.to_set().contains(k)) by {
                    assert(tally_keys(o0)[j as int] == k);
                    assert(tally_keys(o0).to_set().contains(k));
                }
                assert(post.to_set() =~= pre.to_set());
                assert forall|a: int| 0 <= a < out@.len() implies #[trigger] out@[a].1 as nat == occurrences(post, out@[a].0@) by {
                    if a != j {
                        assert(tally_keys(o0)[a] != tally_keys(o0)[j as int]);
                    }
                }
            }
        } else {
            out.push((failures[i].clone(), 1));
            proof {
                assert(tally_keys(out@) =~= tally_keys(o0).push(k));
                assert(!pre.to_set().contains(k)) by {
                    if pre.to_set().contains(k) {
                        assert(tally_keys(o0).to_set().contains(k));
                        let a = choose|a: int| 0 <= a < tally_keys(o0).len() && tally_keys(o0)[a] == k;
                        assert(o0[a].0@ != k);
                    }
                }
                assert(tally_keys(o0).push(k).to_set() =~= tally_keys(o0).to_set().insert(k)) by {
                    assert forall|x: Seq<char>| tally_keys(o0).push(k).to_set().contains(x) implies tally_keys(o0).to_set().insert(k).contains(x) by {
                        let a = choose|a: int| 0 <= a < tally_keys(o0).push(k).len() && tally_keys(o0).push(k)[a] == x;
                        if a < o0.len() {
                            assert(tally_keys(o0)[a] == x);
                        }
                    }
                    assert forall|x: Seq<char>| tally_keys(o0).to_set().insert(k).contains(x) implies tally_keys(o0).push(k).to_set().contains(x) by {
                        if x == k {
                            assert(tally_keys(o0).push(k)[o0.len() as int] == x);
                        } else {
                            let a = choose|a: int| 0 <= a < tally_keys(o0).len() && tally_keys(o0)[a] == x;
                            assert(tally_keys(o0).push(k)[a] == x);
                        }
                    }
                }
                assert(occurrences(pre, k) == 0) by {
                    lemma_occurrences_absent(pre, k);
                }
                assert forall|a: int| 0 <= a < out@.len() implies #[trigger] out@[a].1 as nat == occurrences(post, out@[a].0@) by {
                    if a < o0.len() {
                        assert(o0[a].0@ != k);
                    }
                }
            }
        }
        i = i + 1;
    }
    proof {
        assert(s.subrange(0, s.len() as int) =~= s);
    }
    out
}

pub proof fn lemma_occurrences_absent(s: Seq<Seq<char>>, k: Seq<char>)
    requires
        !s.to_set().contains(k),
    ensures
        occurrences(s, k) == 0,
    decreases s.len(),
{
    if s.len() > 0 {
        assert(s.last() != k) by {
            assert(s.to_set().contains(s[s.len() - 1]));
        }
        assert forall|x: Seq<char>| s.drop_last().to_set().contains(x) implies s.to_set().contains(x) by {
            let a = choose|a: int| 0 <= a < s.drop_last().len() && s.drop_last()[a] == x;
            assert(s[a] == x);
        }
        lemma_occurrences_absent(s.drop_last(), k);
    }
}


/// No entry holds an object.
pub open spec fn is_flat(es: Seq<(Seq<char>, JValue)>) -> bool {
    forall|i: int| 0 <= i < es.len() ==> !(#[trigger] es[i].1 is Object)
}

proof fn lemma_merge_flat(acc: Seq<(Seq<char>, JValue)>, inner: Seq<(Seq<char>, JValue)>)
    requires
        is_flat(acc),
        is_flat(inner),
    ensures
        is_flat(merge(acc, inner)),
    decreases inner.len(),
{
    if inner.len() > 0 {
        let init = inner.drop_last();
        assert(is_flat(init)) by {
            assert forall|i: int| 0 <= i < init.len() implies !(#[trigger] init[i].1 is Object) by {
                assert(init[i] == inner[i]);
            }
        }
        lemma_merge_flat(acc, init);
        assert(!(inner[inner.len() - 1].1 is Object));
    }
}

/// Flattening leaves one level: no value of a flattened object is itself
/// an object, however deep the nesting was.
pub proof fn lemma_flatten_is_flat(v: JValue)
    ensures
        flatten(v) is Object ==> is_flat(flatten(v)->Object_0),
    decreases v,
{
    if let JValue::Object(es) = v {
        lemma_flat_entries_flat(es);
    }
}

proof fn lemma_flat_entries_flat(es: Seq<(Seq<char>, JValue)>)
    ensures
        is_flat(flat_entries(es)),
    decreases es,
{
    if es.len() > 0 {
        let prev = flat_entries(es.drop_last());
        lemma_flat_entries_flat(es.drop_last());
        lemma_flatten_is_flat(es.last().1);
        match flatten(es.last().1) {
            JValue::Object(inner) => {
                lemma_merge_flat(prev, inner);
            },
            _ => {},
        }
    }
}

} // verus!
