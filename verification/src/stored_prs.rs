//! The stored pull-request items, and what the writes of the pull-request
//! sync do to them.
use vstd::prelude::*;
use crate::pulls::{
    has_pr_id, lemma_pr_closings, pr_closings, pr_entry, pr_status_table, pr_upserts, PrRow,
    PrSyncStep, PrView,
};
use crate::stored::{external_position, lemma_done_is_not_open, lemma_insert_positions, with_status, StoredItem};
use crate::table::{
    has_key, keyed_by, keyed_entries, last_keyed, lemma_keyed_table, upsert_all, value_at,
};
use crate::text::text_or;

verus! {

/// The row is a pull-request item with this GitHub id.
pub open spec fn mirrors_pr(r: StoredItem, id: i64) -> bool {
    r.kind == Some("pr"@) && r.pr_id == Some(id)
}

/// How the draft flag is stored.
pub open spec fn draft_flag(draft: bool) -> int {
    if draft {
        1
    } else {
        0
    }
}

/// A stored pull-request item refreshed from the fetched pull request: title,
/// role, draft flag and checks.
pub open spec fn refreshed_pr(r: StoredItem, p: PrView) -> StoredItem {
    StoredItem {
        text: p.title,
        pr_role: Some(p.role),
        pr_draft: Some(draft_flag(p.draft)),
        pr_checks_status: p.checks_status,
        ..r
    }
}

/// The row inserted for a fetched pull request.
pub open spec fn new_pr_row(id: int, position: int, p: PrView) -> StoredItem {
    StoredItem {
        id,
        text: p.title,
        position,
        status: Some("open"@),
        snoozed_until: None,
        kind: Some("pr"@),
        pr_url: Some(p.url),
        pr_repo: Some(p.repo),
        pr_number: Some(p.number),
        pr_role: Some(p.role),
        pr_draft: Some(draft_flag(p.draft)),
        pr_id: Some(p.github_id),
        pr_checks_status: p.checks_status,
        linear_url: None,
        linear_subtitle: None,
        linear_identifier: None,
        linear_state: None,
        linear_notification_id: None,
        linear_issue_id: None,
    }
}

/// What one step of the pull-request sync writes. An inserted row gets the
/// id `fresh` gives for the table as it is.
pub open spec fn apply_pr_step(
    db: Seq<StoredItem>,
    prs: Seq<PrView>,
    step: PrSyncStep,
    fresh: spec_fn(Seq<StoredItem>) -> int,
) -> Seq<StoredItem> {
    match step {
        PrSyncStep::Update(i) => db.map_values(
            |r: StoredItem|
                if mirrors_pr(r, prs[i as int].github_id) {
                    refreshed_pr(r, prs[i as int])
                } else {
                    r
                },
        ),
        PrSyncStep::Insert(i) => db.push(new_pr_row(fresh(db), external_position(db), prs[i as int])),
        PrSyncStep::MarkDone(id) => db.map_values(
            |r: StoredItem| if mirrors_pr(r, id) { with_status(r, "done"@) } else { r },
        ),
    }
}

/// What the steps write, one after the other.
pub open spec fn apply_pr_steps(
    db: Seq<StoredItem>,
    prs: Seq<PrView>,
    steps: Seq<PrSyncStep>,
    fresh: spec_fn(Seq<StoredItem>) -> int,
) -> Seq<StoredItem>
    decreases steps.len(),
{
    if steps.len() == 0 {
        db
    } else {
        apply_pr_step(apply_pr_steps(db, prs, steps.drop_last(), fresh), prs, steps.last(), fresh)
    }
}

/// A row as the sync reads it: its GitHub id and status (a missing status
/// reads as "open"), where it is a pull-request item that carries an id.
pub open spec fn pr_row_entry() -> spec_fn(StoredItem) -> Option<(i64, Seq<char>)> {
    |r: StoredItem|
        if r.kind == Some("pr"@) && r.pr_id is Some {
            Some((r.pr_id->0, text_or(r.status, "open"@)))
        } else {
            None
        }
}

/// The status of each stored pull request by GitHub id, as the sync reads it.
pub open spec fn pr_stored_table(db: Seq<StoredItem>) -> Seq<(i64, Seq<char>)> {
    upsert_all(keyed_entries(db, pr_row_entry()))
}

/// One pull-request sync with the fetched pull requests `prs`.
pub open spec fn pr_sync_effect(
    db: Seq<StoredItem>,
    prs: Seq<PrView>,
    fresh: spec_fn(Seq<StoredItem>) -> int,
) -> Seq<StoredItem> {
    let t = pr_stored_table(db);
    apply_pr_steps(db, prs, pr_upserts(prs, t) + pr_closings(t, prs), fresh)
}

/// The rows the sync reads, one per stored pull-request item that carries an
/// id, give the table of the stored items.
pub proof fn lemma_pr_rows_read(db: Seq<StoredItem>, rows: Seq<PrRow>)
    requires
        keyed_entries(rows, pr_entry()) == keyed_entries(db, pr_row_entry()),
    ensures
        pr_status_table(rows) == pr_stored_table(db),
{
}

/// An inserted pull request is a new open row above every open row, which
/// carries the pull request's title, URL, repository, number, role, draft flag,
/// id and checks; the other rows stay as they were.
pub proof fn lemma_pr_insert(
    db: Seq<StoredItem>,
    prs: Seq<PrView>,
    i: usize,
    fresh: spec_fn(Seq<StoredItem>) -> int,
)
    requires
        i < prs.len(),
    ensures
        ({
            let after = apply_pr_step(db, prs, PrSyncStep::Insert(i), fresh);
            let r = after.last();
            let p = prs[i as int];
            &&& after.len() == db.len() + 1
            &&& after.drop_last() == db
            &&& r.status == Some("open"@) && r.kind == Some("pr"@)
            &&& r.text == p.title && r.pr_url == Some(p.url) && r.pr_repo == Some(p.repo)
            &&& r.pr_number == Some(p.number) && r.pr_role == Some(p.role)
            &&& r.pr_draft == Some(draft_flag(p.draft)) && r.pr_id == Some(p.github_id)
            &&& r.pr_checks_status == p.checks_status
            &&& forall|j: int|
                0 <= j < db.len() && #[trigger] db[j].status == Some("open"@) ==> r.position
                    < db[j].position
        }),
{
    lemma_insert_positions(db);
    let after = apply_pr_step(db, prs, PrSyncStep::Insert(i), fresh);
    assert(after.drop_last() =~= db);
}

/// An update refreshes the title, role, draft flag and checks of the rows of
/// that pull request and keeps everything else of every row: id, status,
/// position, kind, URL, repository, number and GitHub id.
pub proof fn lemma_pr_update_keeps(
    db: Seq<StoredItem>,
    prs: Seq<PrView>,
    i: usize,
    fresh: spec_fn(Seq<StoredItem>) -> int,
)
    requires
        i < prs.len(),
    ensures
        ({
            let after = apply_pr_step(db, prs, PrSyncStep::Update(i), fresh);
            let p = prs[i as int];
            &&& after.len() == db.len()
            &&& forall|j: int|
                #![trigger after[j]]
                0 <= j < db.len() ==> after[j].id == db[j].id && after[j].status == db[j].status
                    && after[j].position == db[j].position && after[j].kind == db[j].kind
                    && after[j].pr_url == db[j].pr_url && after[j].pr_repo == db[j].pr_repo
                    && after[j].pr_number == db[j].pr_number && after[j].pr_id == db[j].pr_id
                    && after[j].snoozed_until == db[j].snoozed_until
            &&& forall|j: int|
                #![trigger after[j]]
                0 <= j < db.len() ==> if mirrors_pr(db[j], p.github_id) {
                    after[j].text == p.title && after[j].pr_role == Some(p.role) && after[j].pr_draft
                        == Some(draft_flag(p.draft)) && after[j].pr_checks_status == p.checks_status
                } else {
                    after[j] == db[j]
                }
        }),
{
}

/// No two fetched pull requests share a GitHub id.
pub open spec fn pr_ids_distinct(prs: Seq<PrView>) -> bool {
    forall|i: int, j: int|
        0 <= i < prs.len() && 0 <= j < prs.len() && i != j ==> #[trigger] prs[i].github_id
            != #[trigger] prs[j].github_id
}

/// Some row is the item of this pull request.
pub open spec fn has_pr_row(db: Seq<StoredItem>, id: i64) -> bool {
    exists|j: int| 0 <= j < db.len() && #[trigger] mirrors_pr(db[j], id)
}

/// No row after the `j`-th is an item of pull request `id`.
pub open spec fn last_pr_row(db: Seq<StoredItem>, j: int, id: i64) -> bool {
    forall|u: int| j < u < db.len() ==> !#[trigger] mirrors_pr(db[u], id)
}

/// The stored pull-request items agree with the fetched pull requests: each
/// has a row, refreshing a row changes nothing, and for a pull request that is
/// not listed the last row does not read as open.
pub open spec fn prs_settled(db: Seq<StoredItem>, prs: Seq<PrView>) -> bool {
    &&& forall|i: int| 0 <= i < prs.len() ==> has_pr_row(db, #[trigger] prs[i].github_id)
    &&& forall|j: int, i: int|
        0 <= j < db.len() && 0 <= i < prs.len() && #[trigger] mirrors_pr(db[j], prs[i].github_id)
            ==> refreshed_pr(db[j], prs[i]) == db[j]
    &&& forall|j: int, x: i64|
        0 <= j < db.len() && #[trigger] mirrors_pr(db[j], x) && !has_pr_id(prs, x) && last_pr_row(
            db,
            j,
            x,
        ) ==> text_or(db[j].status, "open"@) != "open"@
}

/// The table holds an id exactly where a row is an item of it, and what it
/// holds is the status of the last such row.
pub proof fn lemma_pr_stored_table(db: Seq<StoredItem>)
    ensures
        crate::table::distinct_keys(pr_stored_table(db)),
        forall|x: i64| #[trigger] has_key(pr_stored_table(db), x) <==> has_pr_row(db, x),
        forall|x: i64|
            #[trigger] has_key(pr_stored_table(db), x) ==> exists|j: int|
                0 <= j < db.len() && #[trigger] mirrors_pr(db[j], x) && last_pr_row(db, j, x)
                    && value_at(pr_stored_table(db), x) == text_or(db[j].status, "open"@),
{
    let f = pr_row_entry();
    lemma_keyed_table(db, f);
    assert forall|j: int, x: i64| 0 <= j < db.len() implies #[trigger] keyed_by(f, db[j], x) == mirrors_pr(
        db[j],
        x,
    ) by {}
    assert forall|x: i64| #[trigger] has_key(pr_stored_table(db), x) <==> has_pr_row(db, x) by {
        if has_pr_row(db, x) {
            let j = choose|j: int| 0 <= j < db.len() && #[trigger] mirrors_pr(db[j], x);
            assert(keyed_by(f, db[j], x));
        }
        if has_key(pr_stored_table(db), x) {
            let j = choose|j: int| 0 <= j < db.len() && #[trigger] keyed_by(f, db[j], x);
            assert(mirrors_pr(db[j], x));
        }
    }
    assert forall|x: i64| #[trigger] has_key(pr_stored_table(db), x) implies exists|j: int|
        0 <= j < db.len() && #[trigger] mirrors_pr(db[j], x) && last_pr_row(db, j, x) && value_at(
            pr_stored_table(db),
            x,
        ) == text_or(db[j].status, "open"@) by {
        let j = choose|j: int|
            0 <= j < db.len() && #[trigger] keyed_by(f, db[j], x) && value_at(pr_stored_table(db), x)
                == f(db[j]).unwrap().1 && last_keyed(db, f, j, x);
        assert forall|u: int| j < u < db.len() implies !#[trigger] mirrors_pr(db[u], x) by {
            assert(!keyed_by(f, db[u], x));
        }
        assert(mirrors_pr(db[j], x));
    }
}

/// Steps that each leave the rows as they are leave them as they are together.
pub proof fn lemma_pr_steps_fixed(
    db: Seq<StoredItem>,
    prs: Seq<PrView>,
    steps: Seq<PrSyncStep>,
    fresh: spec_fn(Seq<StoredItem>) -> int,
)
    requires
        forall|m: int| 0 <= m < steps.len() ==> #[trigger] apply_pr_step(db, prs, steps[m], fresh) == db,
    ensures
        apply_pr_steps(db, prs, steps, fresh) == db,
    decreases steps.len(),
{
    if steps.len() > 0 {
        let d = steps.drop_last();
        assert forall|m: int| 0 <= m < d.len() implies #[trigger] apply_pr_step(db, prs, d[m], fresh)
            == db by {
            assert(d[m] == steps[m]);
        }
        lemma_pr_steps_fixed(db, prs, d, fresh);
        assert(apply_pr_step(db, prs, steps[steps.len() - 1], fresh) == db);
    }
}

/// On settled rows, a sync with the same pull requests changes no row.
pub proof fn lemma_settled_pr_sync_is_fixed(
    db: Seq<StoredItem>,
    prs: Seq<PrView>,
    fresh: spec_fn(Seq<StoredItem>) -> int,
)
    requires
        prs.len() <= usize::MAX,
        prs_settled(db, prs),
    ensures
        pr_sync_effect(db, prs, fresh) == db,
{
    let t = pr_stored_table(db);
    lemma_pr_stored_table(db);
    lemma_pr_closings(t, prs);
    let ups = pr_upserts(prs, t);
    let cs = pr_closings(t, prs);
    assert(cs.len() == 0) by {
        if cs.len() > 0 {
            let x = cs[0]->MarkDone_0;
            assert(cs[0] == PrSyncStep::MarkDone(x));
            assert(has_key(t, x) && value_at(t, x) == "open"@ && !has_pr_id(prs, x));
            let j = choose|j: int|
                0 <= j < db.len() && #[trigger] mirrors_pr(db[j], x) && last_pr_row(db, j, x)
                    && value_at(t, x) == text_or(db[j].status, "open"@);
        }
    }
    assert(ups + cs =~= ups);
    assert forall|m: int| 0 <= m < ups.len() implies #[trigger] apply_pr_step(db, prs, ups[m], fresh)
        == db by {
        let x = prs[m].github_id;
        assert(has_pr_row(db, x));
        assert(ups[m] == PrSyncStep::Update(m as usize));
        let after = apply_pr_step(db, prs, ups[m], fresh);
        assert forall|j: int| 0 <= j < db.len() implies #[trigger] after[j] == db[j] by {
            if mirrors_pr(db[j], x) {
                assert(refreshed_pr(db[j], prs[m]) == db[j]);
            }
        }
        assert(after =~= db);
    }
    lemma_pr_steps_fixed(db, prs, ups, fresh);
}

/// Carrying out `a` and then `b` is carrying out `a + b`.
pub proof fn lemma_pr_steps_append(
    db: Seq<StoredItem>,
    prs: Seq<PrView>,
    a: Seq<PrSyncStep>,
    b: Seq<PrSyncStep>,
    fresh: spec_fn(Seq<StoredItem>) -> int,
)
    ensures
        apply_pr_steps(db, prs, a + b, fresh) == apply_pr_steps(
            apply_pr_steps(db, prs, a, fresh),
            prs,
            b,
            fresh,
        ),
    decreases b.len(),
{
    if b.len() == 0 {
        assert(a + b =~= a);
    } else {
        lemma_pr_steps_append(db, prs, a, b.drop_last(), fresh);
        assert((a + b).drop_last() =~= a + b.drop_last());
        assert((a + b).last() == b.last());
    }
}

proof fn lemma_pr_steps_take(
    db: Seq<StoredItem>,
    prs: Seq<PrView>,
    steps: Seq<PrSyncStep>,
    k: int,
    fresh: spec_fn(Seq<StoredItem>) -> int,
)
    requires
        0 <= k < steps.len(),
    ensures
        apply_pr_steps(db, prs, steps.take(k + 1), fresh) == apply_pr_step(
            apply_pr_steps(db, prs, steps.take(k), fresh),
            prs,
            steps[k],
            fresh,
        ),
{
    assert(steps.take(k + 1).drop_last() =~= steps.take(k));
    assert(steps.take(k + 1).last() == steps[k]);
}

/// The row is the item of a fetched pull request.
pub open spec fn mirrors_fetched_pr(r: StoredItem, prs: Seq<PrView>) -> bool {
    r.kind == Some("pr"@) && r.pr_id is Some && has_pr_id(prs, r.pr_id->0)
}

/// The row is the item of one of the first `k` fetched pull requests.
pub open spec fn mirrors_pr_before(r: StoredItem, prs: Seq<PrView>, k: int) -> bool {
    exists|i: int| 0 <= i < k && #[trigger] mirrors_pr(r, prs[i].github_id)
}

/// Where the rows stand after the writes for the first `k` fetched pull
/// requests, from `db0`: the old rows keep their kind and id and those of
/// pull requests not fetched are untouched, each added row is the item of one
/// of those pull requests, each of them has a row, and refreshing such a row
/// changes nothing.
pub open spec fn prs_written(db0: Seq<StoredItem>, db: Seq<StoredItem>, prs: Seq<PrView>, k: int) -> bool {
    &&& db0.len() <= db.len()
    &&& forall|j: int|
        #![trigger db[j]]
        0 <= j < db0.len() ==> db[j].kind == db0[j].kind && db[j].pr_id == db0[j].pr_id && (
        !mirrors_fetched_pr(db0[j], prs) ==> db[j] == db0[j])
    &&& forall|j: int| db0.len() <= j < db.len() ==> mirrors_pr_before(#[trigger] db[j], prs, k)
    &&& forall|i: int| 0 <= i < k ==> has_pr_row(db, #[trigger] prs[i].github_id)
    &&& forall|j: int, i: int|
        0 <= j < db.len() && 0 <= i < k && #[trigger] mirrors_pr(db[j], prs[i].github_id)
            ==> refreshed_pr(db[j], prs[i]) == db[j]
}

proof fn lemma_prs_write_step(
    db0: Seq<StoredItem>,
    db: Seq<StoredItem>,
    prs: Seq<PrView>,
    k: int,
    fresh: spec_fn(Seq<StoredItem>) -> int,
)
    requires
        prs.len() <= usize::MAX,
        pr_ids_distinct(prs),
        0 <= k < prs.len(),
        prs_written(db0, db, prs, k),
    ensures
        prs_written(db0, apply_pr_step(db, prs, pr_upserts(prs, pr_stored_table(db0))[k], fresh), prs, k + 1),
{
    let t0 = pr_stored_table(db0);
    lemma_pr_stored_table(db0);
    let x = prs[k].github_id;
    let step = pr_upserts(prs, t0)[k];
    let after = apply_pr_step(db, prs, step, fresh);
    assert(has_pr_id(prs, x));
    if has_key(t0, x) {
        assert(step == PrSyncStep::Update(k as usize));
        assert(after.len() == db.len());
        assert forall|j: int| #![trigger after[j]] 0 <= j < db0.len() implies after[j].kind == db0[j].kind
            && after[j].pr_id == db0[j].pr_id && (!mirrors_fetched_pr(db0[j], prs) ==> after[j]
            == db0[j]) by {
            assert(db[j].kind == db0[j].kind && db[j].pr_id == db0[j].pr_id);
            if mirrors_pr(db[j], x) {
                assert(mirrors_fetched_pr(db0[j], prs));
            }
        }
        assert forall|j: int| db0.len() <= j < after.len() implies mirrors_pr_before(
            #[trigger] after[j],
            prs,
            k + 1,
        ) by {
            assert(mirrors_pr_before(db[j], prs, k));
            let i = choose|i: int| 0 <= i < k && #[trigger] mirrors_pr(db[j], prs[i].github_id);
            assert(mirrors_pr(after[j], prs[i].github_id));
        }
        assert forall|i: int| 0 <= i < k + 1 implies has_pr_row(after, #[trigger] prs[i].github_id) by {
            if i < k {
                assert(has_pr_row(db, prs[i].github_id));
                let j = choose|j: int| 0 <= j < db.len() && #[trigger] mirrors_pr(db[j], prs[i].github_id);
                assert(mirrors_pr(after[j], prs[i].github_id));
            } else {
                assert(has_pr_row(db0, x));
                let j = choose|j: int| 0 <= j < db0.len() && #[trigger] mirrors_pr(db0[j], x);
                assert(db[j].kind == db0[j].kind);
                assert(mirrors_pr(after[j], x));
            }
        }
        assert forall|j: int, i: int|
            0 <= j < after.len() && 0 <= i < k + 1 && #[trigger] mirrors_pr(after[j], prs[i].github_id)
                implies refreshed_pr(after[j], prs[i]) == after[j] by {
            if i < k {
                assert(prs[i].github_id != x);
                assert(mirrors_pr(db[j], prs[i].github_id));
                assert(after[j] == db[j]);
            }
        }
    } else {
        assert(step == PrSyncStep::Insert(k as usize));
        let row = new_pr_row(fresh(db), external_position(db), prs[k]);
        assert(after == db.push(row));
        let n = db.len() as int;
        assert(after[n] == row);
        assert forall|j: int| 0 <= j < db.len() implies !#[trigger] mirrors_pr(db[j], x) by {
            if mirrors_pr(db[j], x) {
                if j < db0.len() {
                    assert(mirrors_pr(db0[j], x));
                    assert(has_pr_row(db0, x));
                } else {
                    assert(mirrors_pr_before(db[j], prs, k));
                    let i2 = choose|i2: int| 0 <= i2 < k && #[trigger] mirrors_pr(db[j], prs[i2].github_id);
                    assert(prs[i2].github_id != x);
                }
            }
        }
        assert forall|j: int| #![trigger after[j]] 0 <= j < db0.len() implies after[j].kind == db0[j].kind
            && after[j].pr_id == db0[j].pr_id && (!mirrors_fetched_pr(db0[j], prs) ==> after[j]
            == db0[j]) by {
            assert(after[j] == db[j]);
        }
        assert forall|j: int| db0.len() <= j < after.len() implies mirrors_pr_before(
            #[trigger] after[j],
            prs,
            k + 1,
        ) by {
            if j < n {
                assert(after[j] == db[j]);
                assert(mirrors_pr_before(db[j], prs, k));
                let i = choose|i: int| 0 <= i < k && #[trigger] mirrors_pr(db[j], prs[i].github_id);
                assert(mirrors_pr(after[j], prs[i].github_id));
            } else {
                assert(mirrors_pr(after[j], prs[k].github_id));
            }
        }
        assert forall|i: int| 0 <= i < k + 1 implies has_pr_row(after, #[trigger] prs[i].github_id) by {
            if i < k {
                assert(has_pr_row(db, prs[i].github_id));
                let j = choose|j: int| 0 <= j < db.len() && #[trigger] mirrors_pr(db[j], prs[i].github_id);
                assert(after[j] == db[j]);
            } else {
                assert(mirrors_pr(after[n], x));
            }
        }
        assert forall|j: int, i: int|
            0 <= j < after.len() && 0 <= i < k + 1 && #[trigger] mirrors_pr(after[j], prs[i].github_id)
                implies refreshed_pr(after[j], prs[i]) == after[j] by {
            if j < n {
                assert(after[j] == db[j]);
                if i == k {
                    assert(!mirrors_pr(db[j], x));
                }
            } else if i < k {
                assert(prs[i].github_id != x);
            }
        }
    }
}

proof fn lemma_prs_writes(
    db0: Seq<StoredItem>,
    prs: Seq<PrView>,
    k: int,
    fresh: spec_fn(Seq<StoredItem>) -> int,
)
    requires
        prs.len() <= usize::MAX,
        pr_ids_distinct(prs),
        0 <= k <= prs.len(),
    ensures
        prs_written(db0, apply_pr_steps(db0, prs, pr_upserts(prs, pr_stored_table(db0)).take(k), fresh), prs, k),
    decreases k,
{
    let w = pr_upserts(prs, pr_stored_table(db0));
    if k == 0 {
        assert(w.take(0) =~= Seq::<PrSyncStep>::empty());
    } else {
        lemma_prs_writes(db0, prs, k - 1, fresh);
        lemma_pr_steps_take(db0, prs, w, k - 1, fresh);
        lemma_prs_write_step(db0, apply_pr_steps(db0, prs, w.take(k - 1), fresh), prs, k - 1, fresh);
    }
}

/// The row is the item of a pull request that one of the first `m` closings
/// marks done.
pub open spec fn closed_before(r: StoredItem, cs: Seq<PrSyncStep>, m: int) -> bool {
    r.kind == Some("pr"@) && r.pr_id is Some && exists|q: int|
        0 <= q < m && #[trigger] cs[q] == PrSyncStep::MarkDone(r.pr_id->0)
}

/// Where the rows stand after the first `m` closings `cs`, from `dbn`: kinds
/// and ids are kept, the rows they closed are done, the others untouched.
pub open spec fn prs_closed(dbn: Seq<StoredItem>, db: Seq<StoredItem>, cs: Seq<PrSyncStep>, m: int) -> bool {
    &&& db.len() == dbn.len()
    &&& forall|j: int|
        #![trigger db[j]]
        0 <= j < db.len() ==> db[j].kind == dbn[j].kind && db[j].pr_id == dbn[j].pr_id && (
        closed_before(dbn[j], cs, m) ==> db[j].status == Some("done"@)) && (!closed_before(
            dbn[j],
            cs,
            m,
        ) ==> db[j] == dbn[j])
}

proof fn lemma_prs_closes(
    dbn: Seq<StoredItem>,
    prs: Seq<PrView>,
    cs: Seq<PrSyncStep>,
    m: int,
    fresh: spec_fn(Seq<StoredItem>) -> int,
)
    requires
        0 <= m <= cs.len(),
        forall|q: int| 0 <= q < cs.len() ==> (#[trigger] cs[q]) is MarkDone,
    ensures
        prs_closed(dbn, apply_pr_steps(dbn, prs, cs.take(m), fresh), cs, m),
    decreases m,
{
    if m == 0 {
        assert(cs.take(0) =~= Seq::<PrSyncStep>::empty());
    } else {
        lemma_prs_closes(dbn, prs, cs, m - 1, fresh);
        lemma_pr_steps_take(dbn, prs, cs, m - 1, fresh);
        let db = apply_pr_steps(dbn, prs, cs.take(m - 1), fresh);
        let y = cs[m - 1]->MarkDone_0;
        assert(cs[m - 1] == PrSyncStep::MarkDone(y));
        let after = apply_pr_step(db, prs, cs[m - 1], fresh);
        assert forall|j: int| #![trigger after[j]] 0 <= j < after.len() implies after[j].kind == dbn[j].kind
            && after[j].pr_id == dbn[j].pr_id && (closed_before(dbn[j], cs, m) ==> after[j].status
            == Some("done"@)) && (!closed_before(dbn[j], cs, m) ==> after[j] == dbn[j]) by {
            assert(db[j].kind == dbn[j].kind && db[j].pr_id == dbn[j].pr_id);
            if mirrors_pr(db[j], y) {
                assert(cs[m - 1] == PrSyncStep::MarkDone(dbn[j].pr_id->0));
                assert(closed_before(dbn[j], cs, m));
            } else {
                assert(after[j] == db[j]);
                if closed_before(dbn[j], cs, m) {
                    let q = choose|q: int| 0 <= q < m && #[trigger] cs[q] == PrSyncStep::MarkDone(dbn[j].pr_id->0);
                    assert(q != m - 1);
                    assert(closed_before(dbn[j], cs, m - 1));
                } else if closed_before(dbn[j], cs, m - 1) {
                    let q = choose|q: int| 0 <= q < m - 1 && #[trigger] cs[q] == PrSyncStep::MarkDone(dbn[j].pr_id->0);
                    assert(closed_before(dbn[j], cs, m));
                }
            }
        }
    }
}

/// The pull-request sync leaves the stored pull-request items settled.
pub proof fn lemma_pr_sync_settles(db0: Seq<StoredItem>, prs: Seq<PrView>, fresh: spec_fn(Seq<StoredItem>) -> int)
    requires
        prs.len() <= usize::MAX,
        pr_ids_distinct(prs),
    ensures
        prs_settled(pr_sync_effect(db0, prs, fresh), prs),
{
    let t0 = pr_stored_table(db0);
    lemma_pr_stored_table(db0);
    lemma_pr_closings(t0, prs);
    let w = pr_upserts(prs, t0);
    let cs = pr_closings(t0, prs);
    lemma_pr_steps_append(db0, prs, w, cs, fresh);
    lemma_prs_writes(db0, prs, prs.len() as int, fresh);
    assert(w.take(prs.len() as int) =~= w);
    let dbn = apply_pr_steps(db0, prs, w, fresh);
    lemma_prs_closes(dbn, prs, cs, cs.len() as int, fresh);
    assert(cs.take(cs.len() as int) =~= cs);
    let db1 = apply_pr_steps(dbn, prs, cs, fresh);
    assert(db1 == pr_sync_effect(db0, prs, fresh));
    lemma_done_is_not_open();
    // A fetched pull request is never closed.
    assert forall|j: int, i: int|
        0 <= j < dbn.len() && 0 <= i < prs.len() && #[trigger] mirrors_pr(dbn[j], prs[i].github_id)
            implies !closed_before(dbn[j], cs, cs.len() as int) by {
        let x = prs[i].github_id;
        assert(has_pr_id(prs, x));
        if closed_before(dbn[j], cs, cs.len() as int) {
            let q = choose|q: int| 0 <= q < cs.len() && #[trigger] cs[q] == PrSyncStep::MarkDone(x);
        }
    }
    assert forall|i: int| 0 <= i < prs.len() implies has_pr_row(db1, #[trigger] prs[i].github_id) by {
        assert(has_pr_row(dbn, prs[i].github_id));
        let j = choose|j: int| 0 <= j < dbn.len() && #[trigger] mirrors_pr(dbn[j], prs[i].github_id);
        assert(db1[j].kind == dbn[j].kind);
        assert(mirrors_pr(db1[j], prs[i].github_id));
    }
    assert forall|j: int, i: int|
        0 <= j < db1.len() && 0 <= i < prs.len() && #[trigger] mirrors_pr(db1[j], prs[i].github_id)
            implies refreshed_pr(db1[j], prs[i]) == db1[j] by {
        assert(db1[j].kind == dbn[j].kind);
        assert(mirrors_pr(dbn[j], prs[i].github_id));
        assert(db1[j] == dbn[j]);
    }
    assert forall|j: int, x: i64|
        0 <= j < db1.len() && #[trigger] mirrors_pr(db1[j], x) && !has_pr_id(prs, x) && last_pr_row(
            db1,
            j,
            x,
        ) implies text_or(db1[j].status, "open"@) != "open"@ by {
        assert(db1[j].kind == dbn[j].kind);
        if !closed_before(dbn[j], cs, cs.len() as int) {
            assert(db1[j] == dbn[j]);
            if j >= db0.len() {
                assert(mirrors_pr_before(dbn[j], prs, prs.len() as int));
                let i = choose|i: int| 0 <= i < prs.len() && #[trigger] mirrors_pr(dbn[j], prs[i].github_id);
                assert(has_pr_id(prs, prs[i].github_id));
            }
            assert(dbn[j] == db0[j]);
            assert(mirrors_pr(db0[j], x));
            assert forall|u: int| j < u < db0.len() implies !#[trigger] mirrors_pr(db0[u], x) by {
                assert(db1[u].kind == dbn[u].kind && dbn[u].kind == db0[u].kind);
                assert(db1[u].pr_id == dbn[u].pr_id && dbn[u].pr_id == db0[u].pr_id);
                assert(!mirrors_pr(db1[u], x));
            }
            assert(has_pr_row(db0, x));
            assert(has_key(t0, x));
            let k = choose|k: int|
                0 <= k < db0.len() && #[trigger] mirrors_pr(db0[k], x) && last_pr_row(db0, k, x)
                    && value_at(t0, x) == text_or(db0[k].status, "open"@);
            assert(last_pr_row(db0, j, x));
            assert(k == j);
            if value_at(t0, x) == "open"@ {
                let q = choose|q: int| 0 <= q < cs.len() && #[trigger] cs[q] == PrSyncStep::MarkDone(x);
                assert(closed_before(dbn[j], cs, cs.len() as int));
            }
        }
    }
}

/// A second pull-request sync with the same pull requests from GitHub changes
/// nothing: it inserts no item and changes no column of any item. This holds
/// where the fetched pull requests have distinct ids, as the collected search
/// results do.
pub proof fn lemma_pr_sync_twice(db: Seq<StoredItem>, prs: Seq<PrView>, fresh: spec_fn(Seq<StoredItem>) -> int)
    requires
        prs.len() <= usize::MAX,
        pr_ids_distinct(prs),
    ensures
        pr_sync_effect(pr_sync_effect(db, prs, fresh), prs, fresh) == pr_sync_effect(db, prs, fresh),
{
    lemma_pr_sync_settles(db, prs, fresh);
    lemma_settled_pr_sync_is_fixed(pr_sync_effect(db, prs, fresh), prs, fresh);
}

} // verus!
