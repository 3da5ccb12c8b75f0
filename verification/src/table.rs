//! Association tables: sequences of key/value entries in which a later entry
//! for a key replaces the earlier one in place. The sync code builds them from
//! database rows where a hash map would do.
//!
//! A list stands in for the map for three reasons. One representation serves
//! the tables keyed by a pull request's `i64` id and those keyed by a Linear
//! `String` id, and one set of lemmas covers both. vstd's specification of
//! `HashMap` proves nothing of a lookup by a `String` key. And the order in
//! which a hash map is walked is unspecified, while the sync plans close the
//! stored items that are no longer listed in the order of the table: with a
//! list, that order is the order in which the rows were read, and the plans'
//! contracts can say so. A lookup walks the list, which for the few hundred
//! items of a to-do list costs nothing that shows.
use vstd::prelude::*;

verus! {

/// The index of the first entry whose key is `k`.
pub open spec fn key_index<K, V>(t: Seq<(K, V)>, k: K) -> Option<int>
    decreases t.len(),
{
    if t.len() == 0 {
        None
    } else if t[0].0 == k {
        Some(0)
    } else {
        match key_index(t.drop_first(), k) {
            Some(j) => Some(j + 1),
            None => None,
        }
    }
}

/// Some entry of `t` has key `k`.
pub open spec fn has_key<K, V>(t: Seq<(K, V)>, k: K) -> bool {
    exists|j: int| 0 <= j < t.len() && #[trigger] t[j].0 == k
}

/// No two entries share a key.
pub open spec fn distinct_keys<K, V>(t: Seq<(K, V)>) -> bool {
    forall|i: int, j: int| 0 <= i < t.len() && 0 <= j < t.len() && i != j ==> #[trigger] t[i].0 != #[trigger] t[j].0
}

/// `t` with the entry for `k` set to `v`: replaced where it stands, or
/// appended when `k` has no entry yet.
pub open spec fn upserted<K, V>(t: Seq<(K, V)>, k: K, v: V) -> Seq<(K, V)> {
    match key_index(t, k) {
        Some(j) => t.update(j, (k, v)),
        None => t.push((k, v)),
    }
}

/// The value stored under `k` (meaningful where `has_key(t, k)`).
pub open spec fn value_at<K, V>(t: Seq<(K, V)>, k: K) -> V {
    t[key_index(t, k)->0].1
}

pub proof fn lemma_key_index<K, V>(t: Seq<(K, V)>, k: K)
    ensures
        match key_index(t, k) {
            Some(j) => 0 <= j < t.len() && t[j].0 == k && forall|i: int|
                0 <= i < j ==> #[trigger] t[i].0 != k,
            None => forall|i: int| 0 <= i < t.len() ==> #[trigger] t[i].0 != k,
        },
        key_index(t, k) is Some <==> has_key(t, k),
    decreases t.len(),
{
    if t.len() > 0 && t[0].0 != k {
        lemma_key_index(t.drop_first(), k);
        match key_index(t.drop_first(), k) {
            Some(j) => {
                assert forall|i: int| 0 <= i < j + 1 implies #[trigger] t[i].0 != k by {
                    if i > 0 {
                        assert(t[i] == t.drop_first()[i - 1]);
                    }
                }
            },
            None => {
                assert forall|i: int| 0 <= i < t.len() implies #[trigger] t[i].0 != k by {
                    if i > 0 {
                        assert(t[i] == t.drop_first()[i - 1]);
                    }
                }
            },
        }
    }
    if has_key(t, k) {
        let j = choose|j: int| 0 <= j < t.len() && #[trigger] t[j].0 == k;
        assert(t[j].0 == k);
    }
}

/// The first index at which a key occurs is the one that `key_index` names.
pub proof fn lemma_first_index<K, V>(t: Seq<(K, V)>, k: K, j: int)
    requires
        0 <= j < t.len(),
        t[j].0 == k,
        forall|i: int| 0 <= i < j ==> #[trigger] t[i].0 != k,
    ensures
        key_index(t, k) == Some(j),
{
    lemma_key_index(t, k);
    match key_index(t, k) {
        Some(j2) => {
            if j2 < j {
                assert(t[j2].0 != k);
            } else if j < j2 {
                assert(t[j].0 != k);
            }
        },
        None => {
            assert(t[j].0 != k);
        },
    }
}

/// Upserting keeps keys distinct, adds exactly key `k`, stores `v` under it and
/// leaves every other entry where it was.
pub proof fn lemma_upserted<K, V>(t: Seq<(K, V)>, k: K, v: V)
    requires
        distinct_keys(t),
    ensures
        distinct_keys(upserted(t, k, v)),
        forall|k2: K| has_key(upserted(t, k, v), k2) <==> (has_key(t, k2) || k2 == k),
        has_key(upserted(t, k, v), k),
        value_at(upserted(t, k, v), k) == v,
        forall|k2: K| k2 != k && has_key(t, k2) ==> value_at(upserted(t, k, v), k2) == value_at(t, k2),
        upserted(t, k, v).len() == t.len() + (if has_key(t, k) { 0int } else { 1int }),
        forall|i: int| 0 <= i < t.len() ==> (#[trigger] upserted(t, k, v)[i]).0 == t[i].0,
{
    lemma_key_index(t, k);
    let u = upserted(t, k, v);
    match key_index(t, k) {
        Some(j) => {
            assert(u[j].0 == k);
        },
        None => {
            assert(u[t.len() as int].0 == k);
        },
    }
    assert forall|k2: K| has_key(u, k2) <==> (has_key(t, k2) || k2 == k) by {
        if has_key(u, k2) {
            let i = choose|i: int| 0 <= i < u.len() && #[trigger] u[i].0 == k2;
            if i < t.len() && u[i].0 != k {
                assert(t[i].0 == k2);
            }
        }
        if has_key(t, k2) {
            let i = choose|i: int| 0 <= i < t.len() && #[trigger] t[i].0 == k2;
            assert(u[i].0 == k2);
        }
    }
    lemma_key_index(u, k);
    match key_index(u, k) {
        Some(j) => {
            match key_index(t, k) {
                Some(j0) => {
                    assert(u[j0].0 == k);
                    if j != j0 {
                        assert(u[j].0 == t[j].0);
                    }
                },
                None => {
                    if j < t.len() {
                        assert(u[j].0 == t[j].0);
                    }
                },
            }
        },
        None => {},
    }
    assert forall|k2: K| k2 != k && has_key(t, k2) implies value_at(u, k2) == value_at(t, k2) by {
        lemma_key_index(t, k2);
        lemma_key_index(u, k2);
        let a = key_index(t, k2)->0;
        assert(u[a].0 == k2);
        let b = key_index(u, k2)->0;
        if b < a {
            assert(u[b].0 == t[b].0);
        } else if a < b {
        }
    }
}

/// The table that results from upserting the entries in order: one entry per
/// key, in the order the keys first occur, each holding its last value.
pub open spec fn upsert_all<K, V>(s: Seq<(K, V)>) -> Seq<(K, V)>
    decreases s.len(),
{
    if s.len() == 0 {
        Seq::empty()
    } else {
        upserted(upsert_all(s.drop_last()), s.last().0, s.last().1)
    }
}

/// A key has an entry in `upsert_all(s)` exactly when some entry of `s`
/// carries it, and it holds the value of the last such entry.
pub proof fn lemma_upsert_all<K, V>(s: Seq<(K, V)>)
    ensures
        distinct_keys(upsert_all(s)),
        forall|k: K| has_key(upsert_all(s), k) <==> exists|i: int| 0 <= i < s.len() && #[trigger] s[i].0 == k,
        forall|k: K|
            has_key(upsert_all(s), k) ==> exists|i: int|
                0 <= i < s.len() && #[trigger] s[i].0 == k && value_at(upsert_all(s), k) == s[i].1
                    && forall|j: int| i < j < s.len() ==> #[trigger] s[j].0 != k,
    decreases s.len(),
{
    if s.len() > 0 {
        let d = s.drop_last();
        lemma_upsert_all(d);
        let t0 = upsert_all(d);
        let e = s.last();
        let n = s.len() - 1;
        lemma_upserted(t0, e.0, e.1);
        let t = upsert_all(s);
        assert(t == upserted(t0, e.0, e.1));
        assert forall|k: K| has_key(t, k) <==> exists|i: int| 0 <= i < s.len() && #[trigger] s[i].0 == k by {
            if has_key(t, k) && k != e.0 {
                assert(has_key(upserted(t0, e.0, e.1), k));
                assert(has_key(t0, k));
                let i = choose|i: int| 0 <= i < d.len() && #[trigger] d[i].0 == k;
                assert(s[i] == d[i]);
            }
            if has_key(t, k) && k == e.0 {
                assert(s[n].0 == k);
            }
            if exists|i: int| 0 <= i < s.len() && #[trigger] s[i].0 == k {
                let i = choose|i: int| 0 <= i < s.len() && #[trigger] s[i].0 == k;
                if i < n {
                    assert(d[i] == s[i]);
                    assert(d[i].0 == k);
                    assert(has_key(t0, k));
                }
                assert(has_key(upserted(t0, e.0, e.1), k));
            }
        }
        assert forall|k: K| has_key(t, k) implies exists|i: int|
            0 <= i < s.len() && #[trigger] s[i].0 == k && value_at(t, k) == s[i].1 && forall|j: int|
                i < j < s.len() ==> #[trigger] s[j].0 != k by {
            if k == e.0 {
                assert(s[n].0 == k);
            } else {
                assert(has_key(upserted(t0, e.0, e.1), k));
                assert(has_key(t0, k));
                let i = choose|i: int|
                    0 <= i < d.len() && #[trigger] d[i].0 == k && value_at(t0, k) == d[i].1 && forall|j: int|
                        i < j < d.len() ==> #[trigger] d[j].0 != k;
                assert(s[i] == d[i]);
                assert forall|j: int| i < j < s.len() implies #[trigger] s[j].0 != k by {
                    if j < n {
                        assert(s[j] == d[j]);
                    }
                }
            }
        }
    }
}

/// The keys of `t`, in table order, that are not in `fetched`.
pub open spec fn keys_not_in<K, V>(t: Seq<(K, V)>, fetched: Set<K>) -> Seq<K>
    decreases t.len(),
{
    if t.len() == 0 {
        Seq::empty()
    } else {
        let p = keys_not_in(t.drop_last(), fetched);
        if fetched.contains(t.last().0) {
            p
        } else {
            p.push(t.last().0)
        }
    }
}

/// `keys_not_in` lists each key of the table that is not fetched, once.
pub proof fn lemma_keys_not_in<K, V>(t: Seq<(K, V)>, fetched: Set<K>)
    requires
        distinct_keys(t),
    ensures
        forall|k: K|
            #![trigger keys_not_in(t, fetched).contains(k)]
            #![trigger has_key(t, k)]
            keys_not_in(t, fetched).contains(k) <==> (has_key(t, k) && !fetched.contains(k)),
        keys_not_in(t, fetched).no_duplicates(),
    decreases t.len(),
{
    if t.len() > 0 {
        let d = t.drop_last();
        let n = t.len() - 1;
        assert(distinct_keys(d)) by {
            assert forall|i: int, j: int| 0 <= i < d.len() && 0 <= j < d.len() && i != j implies #[trigger] d[i].0 != #[trigger] d[j].0 by {
                assert(d[i] == t[i]);
                assert(d[j] == t[j]);
            }
        }
        lemma_keys_not_in(d, fetched);
        let p = keys_not_in(d, fetched);
        let r = keys_not_in(t, fetched);
        let e = t.last();
        assert(!has_key(d, e.0)) by {
            if has_key(d, e.0) {
                let j = choose|j: int| 0 <= j < d.len() && #[trigger] d[j].0 == e.0;
                assert(t[j].0 == t[n].0);
            }
        }
        assert forall|k: K| r.contains(k) <==> (has_key(t, k) && !fetched.contains(k)) by {
            if r.contains(k) {
                let i = choose|i: int| 0 <= i < r.len() && r[i] == k;
                if i < p.len() {
                    assert(p[i] == r[i]);
                    assert(p.contains(k));
                    assert(has_key(d, k));
                    let j = choose|j: int| 0 <= j < d.len() && #[trigger] d[j].0 == k;
                    assert(d[j] == t[j]);
                    assert(t[j].0 == k);
                } else {
                    assert(t[n].0 == k);
                }
            }
            if has_key(t, k) && !fetched.contains(k) {
                let j = choose|j: int| 0 <= j < t.len() && #[trigger] t[j].0 == k;
                if j < n {
                    assert(d[j] == t[j]);
                    assert(d[j].0 == k);
                    assert(has_key(d, k));
                    assert(p.contains(k));
                    let i = choose|i: int| 0 <= i < p.len() && p[i] == k;
                    assert(r[i] == k);
                } else {
                    assert(r[p.len() as int] == k);
                }
            }
        }
        assert forall|i: int, j: int| 0 <= i < r.len() && 0 <= j < r.len() && i != j implies r[i] != r[j] by {
            if i < p.len() && j < p.len() {
                assert(r[i] == p[i] && r[j] == p[j]);
            } else if i < p.len() {
                assert(r[i] == p[i]);
                if r[i] == r[j] {
                    assert(p.contains(e.0));
                }
            } else if j < p.len() {
                assert(r[j] == p[j]);
                if r[i] == r[j] {
                    assert(p.contains(e.0));
                }
            }
        }
    }
}

/// The entries that `f` gives for the rows, in row order; a row for which
/// `f` gives `None` gives no entry.
pub open spec fn keyed_entries<R, K, V>(rows: Seq<R>, f: spec_fn(R) -> Option<(K, V)>) -> Seq<(K, V)>
    decreases rows.len(),
{
    if rows.len() == 0 {
        Seq::empty()
    } else {
        let p = keyed_entries(rows.drop_last(), f);
        match f(rows.last()) {
            Some(e) => p.push(e),
            None => p,
        }
    }
}

/// The row gives an entry with key `k`.
pub open spec fn keyed_by<R, K, V>(f: spec_fn(R) -> Option<(K, V)>, r: R, k: K) -> bool {
    f(r) is Some && f(r).unwrap().0 == k
}

/// No row after the `j`-th gives an entry with key `k`.
pub open spec fn last_keyed<R, K, V>(rows: Seq<R>, f: spec_fn(R) -> Option<(K, V)>, j: int, k: K) -> bool {
    forall|u: int| j < u < rows.len() ==> !#[trigger] keyed_by(f, rows[u], k)
}

/// Row `j` gives the `e`-th entry, and where the entry is the last of its key
/// so is the row.
pub open spec fn entry_of<R, K, V>(
    rows: Seq<R>,
    f: spec_fn(R) -> Option<(K, V)>,
    es: Seq<(K, V)>,
    e: int,
    j: int,
) -> bool {
    &&& f(rows[j]) == Some(es[e])
    &&& (forall|g: int| e < g < es.len() ==> #[trigger] es[g].0 != es[e].0) ==> last_keyed(rows, f, j, es[e].0)
}

/// Some row gives the `e`-th entry.
pub open spec fn entry_from<R, K, V>(
    rows: Seq<R>,
    f: spec_fn(R) -> Option<(K, V)>,
    es: Seq<(K, V)>,
    e: int,
) -> bool {
    exists|j: int| 0 <= j < rows.len() && #[trigger] entry_of(rows, f, es, e, j)
}

proof fn lemma_keyed_entries<R, K, V>(rows: Seq<R>, f: spec_fn(R) -> Option<(K, V)>)
    ensures
        forall|e: int|
            0 <= e < keyed_entries(rows, f).len() ==> #[trigger] entry_from(rows, f, keyed_entries(rows, f), e),
        forall|j: int, k: K|
            0 <= j < rows.len() && #[trigger] keyed_by(f, rows[j], k) ==> has_key(keyed_entries(rows, f), k),
    decreases rows.len(),
{
    if rows.len() > 0 {
        let d = rows.drop_last();
        lemma_keyed_entries(d, f);
        let p = keyed_entries(d, f);
        let es = keyed_entries(rows, f);
        let n = rows.len() - 1;
        assert forall|e: int| 0 <= e < es.len() implies #[trigger] entry_from(rows, f, es, e) by {
            if e < p.len() {
                assert(es[e] == p[e]);
                assert(entry_from(d, f, p, e));
                let j = choose|j: int| 0 <= j < d.len() && #[trigger] entry_of(d, f, p, e, j);
                assert(rows[j] == d[j]);
                if forall|g: int| e < g < es.len() ==> #[trigger] es[g].0 != es[e].0 {
                    assert forall|g: int| e < g < p.len() implies #[trigger] p[g].0 != p[e].0 by {
                        assert(es[g] == p[g]);
                    }
                    assert forall|u: int| j < u < rows.len() implies !#[trigger] keyed_by(f, rows[u], es[e].0) by {
                        if u < n {
                            assert(rows[u] == d[u]);
                            assert(!keyed_by(f, d[u], p[e].0));
                        } else if keyed_by(f, rows[u], es[e].0) {
                            assert(es[p.len() as int].0 == es[e].0);
                        }
                    }
                }
                assert(entry_of(rows, f, es, e, j));
            } else {
                assert(entry_of(rows, f, es, e, n));
            }
        }
        assert forall|j: int, k: K|
            0 <= j < rows.len() && #[trigger] keyed_by(f, rows[j], k) implies has_key(es, k) by {
            if j < n {
                assert(d[j] == rows[j]);
                assert(keyed_by(f, d[j], k));
                let e = choose|e: int| 0 <= e < p.len() && #[trigger] p[e].0 == k;
                assert(es[e] == p[e]);
            } else {
                assert(es[p.len() as int].0 == k);
            }
        }
    }
}

/// The table of the rows' entries holds a key exactly where some row gives
/// it, and what it holds is the value of the last such row.
pub proof fn lemma_keyed_table<R, K, V>(rows: Seq<R>, f: spec_fn(R) -> Option<(K, V)>)
    ensures
        distinct_keys(upsert_all(keyed_entries(rows, f))),
        forall|k: K|
            #[trigger] has_key(upsert_all(keyed_entries(rows, f)), k) <==> exists|j: int|
                0 <= j < rows.len() && #[trigger] keyed_by(f, rows[j], k),
        forall|k: K|
            #[trigger] has_key(upsert_all(keyed_entries(rows, f)), k) ==> exists|j: int|
                0 <= j < rows.len() && #[trigger] keyed_by(f, rows[j], k) && value_at(
                    upsert_all(keyed_entries(rows, f)),
                    k,
                ) == f(rows[j]).unwrap().1 && last_keyed(rows, f, j, k),
{
    let es = keyed_entries(rows, f);
    let t = upsert_all(es);
    lemma_keyed_entries(rows, f);
    lemma_upsert_all(es);
    assert forall|k: K|
        #[trigger] has_key(t, k) <==> exists|j: int| 0 <= j < rows.len() && #[trigger] keyed_by(f, rows[j], k) by {
        if has_key(t, k) {
            let e = choose|e: int| 0 <= e < es.len() && #[trigger] es[e].0 == k;
            assert(entry_from(rows, f, es, e));
            let j = choose|j: int| 0 <= j < rows.len() && #[trigger] entry_of(rows, f, es, e, j);
            assert(keyed_by(f, rows[j], k));
        }
        if exists|j: int| 0 <= j < rows.len() && #[trigger] keyed_by(f, rows[j], k) {
            let j = choose|j: int| 0 <= j < rows.len() && #[trigger] keyed_by(f, rows[j], k);
            assert(has_key(es, k));
            let e = choose|e: int| 0 <= e < es.len() && #[trigger] es[e].0 == k;
        }
    }
    assert forall|k: K|
        #[trigger] has_key(t, k) implies exists|j: int|
            0 <= j < rows.len() && #[trigger] keyed_by(f, rows[j], k) && value_at(t, k) == f(rows[j]).unwrap().1
                && last_keyed(rows, f, j, k) by {
        let e = choose|e: int|
            0 <= e < es.len() && #[trigger] es[e].0 == k && value_at(t, k) == es[e].1 && forall|g: int|
                e < g < es.len() ==> #[trigger] es[g].0 != k;
        assert(entry_from(rows, f, es, e));
        let j = choose|j: int| 0 <= j < rows.len() && #[trigger] entry_of(rows, f, es, e, j);
        assert(keyed_by(f, rows[j], k));
    }
}

} // verus!
