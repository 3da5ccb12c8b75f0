//! The stored items as rows, and what the writes that the app makes for a
//! plan do to them. The laws here speak of a whole command: the plan that the
//! library decides and the rows after the writes that carry it out.
use vstd::prelude::*;
use crate::actions::{
    close_plan_for, mirrors_notification, reopen_for, ClosePlanView, LocalCloseView,
    RemoteArchiveView,
};
use crate::items::ItemsQuery;
use crate::linear::{IssueView, NotificationView};
use crate::linear_sync::{
    remote_entry, remote_table, RemoteRow, issue_ids, issue_plan_for, issue_writes, notification_ids, notification_plan_for,
    notification_writes, LinearStepView,
};
use crate::table::{
    has_key, keyed_by, keyed_entries, keys_not_in, last_keyed, lemma_keyed_table, lemma_keys_not_in,
    upsert_all, value_at,
};
use crate::text::text_or;

verus! {

/// One stored item: a row of the items table, column by column. A column
/// that can be NULL is an `Option`.
pub struct StoredItem {
    pub id: int,
    pub text: Seq<char>,
    pub position: int,
    pub status: Option<Seq<char>>,
    pub snoozed_until: Option<int>,
    pub kind: Option<Seq<char>>,
    pub pr_url: Option<Seq<char>>,
    pub pr_repo: Option<Seq<char>>,
    pub pr_number: Option<i64>,
    pub pr_role: Option<Seq<char>>,
    pub pr_draft: Option<int>,
    pub pr_id: Option<i64>,
    pub pr_checks_status: Option<Seq<char>>,
    pub linear_url: Option<Seq<char>>,
    pub linear_subtitle: Option<Seq<char>>,
    pub linear_identifier: Option<Seq<char>>,
    pub linear_state: Option<Seq<char>>,
    pub linear_notification_id: Option<Seq<char>>,
    pub linear_issue_id: Option<Seq<char>>,
}

/// No two rows share an id (the id is the table's primary key).
pub open spec fn ids_distinct(db: Seq<StoredItem>) -> bool {
    forall|i: int, j: int| 0 <= i < db.len() && 0 <= j < db.len() && i != j ==> #[trigger] db[i].id != #[trigger] db[j].id
}

/// The row with its status set.
pub open spec fn with_status(r: StoredItem, status: Seq<char>) -> StoredItem {
    StoredItem { status: Some(status), ..r }
}

/// The rows that a close marks done: the item itself, or the notification
/// items of an issue found by issue id or identifier.
pub open spec fn closed_by(r: StoredItem, id: int, local: LocalCloseView) -> bool {
    match local {
        LocalCloseView::ById => r.id == id,
        LocalCloseView::ByIssue(x) => r.kind == Some("linear_notification"@) && r.linear_issue_id
            == Some(x),
        LocalCloseView::ByIdentifier(x) => r.kind == Some("linear_notification"@)
            && r.linear_identifier == Some(x),
    }
}

/// The rows after the close of the item `id` marked done what `local` names.
pub open spec fn close_effect(db: Seq<StoredItem>, id: int, local: LocalCloseView) -> Seq<
    StoredItem,
> {
    db.map_values(
        |r: StoredItem|
            if closed_by(r, id, local) {
                with_status(r, "done"@)
            } else {
                r
            },
    )
}

/// The rows after the item `id` was reopened.
pub open spec fn reopen_effect(db: Seq<StoredItem>, id: int) -> Seq<StoredItem> {
    db.map_values(|r: StoredItem| if r.id == id { with_status(r, "open"@) } else { r })
}

/// The close plan of a stored row.
pub open spec fn close_plan_of_row(r: StoredItem) -> ClosePlanView {
    close_plan_for(r.kind, r.linear_notification_id, r.linear_identifier, r.linear_issue_id)
}

/// Closing an open item that does not mirror a Linear notification and then
/// reopening it gives back the stored rows as they were, and neither command
/// sends anything to Linear.
pub proof fn lemma_close_then_reopen(db: Seq<StoredItem>, k: int)
    requires
        ids_distinct(db),
        0 <= k < db.len(),
        db[k].kind != Some("linear_notification"@),
        db[k].status == Some("open"@),
    ensures
        !close_plan_of_row(db[k]).needs_linear,
        close_plan_of_row(db[k]).archive == RemoteArchiveView::Nothing,
        close_plan_of_row(db[k]).local == LocalCloseView::ById,
        reopen_for(
            close_effect(db, db[k].id, close_plan_of_row(db[k]).local)[k].kind,
            close_effect(db, db[k].id, close_plan_of_row(db[k]).local)[k].linear_notification_id,
        ) is None,
        reopen_effect(close_effect(db, db[k].id, close_plan_of_row(db[k]).local), db[k].id) == db,
{
    let id = db[k].id;
    assert(!mirrors_notification(db[k].kind)) by {
        reveal_strlit("linear_notification");
        assert("linear_notification"@.len() > 0);
    }
    let closed = close_effect(db, id, LocalCloseView::ById);
    let back = reopen_effect(closed, id);
    assert(closed[k] == with_status(db[k], "done"@));
    assert forall|j: int| 0 <= j < db.len() implies #[trigger] back[j] == db[j] by {
        if j == k {
            assert(back[j] == with_status(closed[j], "open"@));
        } else {
            assert(db[j].id != id);
        }
    }
    assert(back =~= db);
}

/// The kind of the items that mirror Linear issues (`true`) or Linear
/// notifications (`false`).
pub open spec fn linear_kind(is_issue: bool) -> Seq<char> {
    if is_issue {
        "linear_issue"@
    } else {
        "linear_notification"@
    }
}

/// The Linear id that a row of that kind mirrors.
pub open spec fn remote_id_of(r: StoredItem, is_issue: bool) -> Option<Seq<char>> {
    if is_issue {
        r.linear_issue_id
    } else {
        r.linear_notification_id
    }
}

/// The row mirrors the Linear issue (or notification) with id `x`.
pub open spec fn mirrors(r: StoredItem, is_issue: bool, x: Seq<char>) -> bool {
    r.kind == Some(linear_kind(is_issue)) && remote_id_of(r, is_issue) == Some(x)
}

/// A stored notification item refreshed from the fetched notification: it
/// stays done where it was done and is open otherwise.
pub open spec fn refreshed_notification(r: StoredItem, n: NotificationView) -> StoredItem {
    StoredItem {
        text: n.text,
        status: if r.status == Some("done"@) {
            Some("done"@)
        } else {
            Some("open"@)
        },
        linear_url: Some(n.url),
        linear_subtitle: n.subtitle,
        linear_identifier: n.identifier,
        linear_state: n.state,
        linear_issue_id: n.issue_id,
        ..r
    }
}

/// A stored issue item refreshed from the fetched issue, with the status
/// written back.
pub open spec fn refreshed_issue(r: StoredItem, i: IssueView, status: Seq<char>) -> StoredItem {
    StoredItem {
        text: i.title,
        status: Some(status),
        linear_url: Some(i.url),
        linear_identifier: Some(i.identifier),
        linear_state: i.state,
        ..r
    }
}

/// The row inserted for a fetched notification.
pub open spec fn new_notification_row(id: int, position: int, n: NotificationView) -> StoredItem {
    StoredItem {
        id,
        text: n.text,
        position,
        status: Some("open"@),
        snoozed_until: None,
        kind: Some("linear_notification"@),
        pr_url: None,
        pr_repo: None,
        pr_number: None,
        pr_role: None,
        pr_draft: None,
        pr_id: None,
        pr_checks_status: None,
        linear_url: Some(n.url),
        linear_subtitle: n.subtitle,
        linear_identifier: n.identifier,
        linear_state: n.state,
        linear_notification_id: Some(n.notification_id),
        linear_issue_id: n.issue_id,
    }
}

/// The row inserted for a fetched issue.
pub open spec fn new_issue_row(id: int, position: int, i: IssueView) -> StoredItem {
    StoredItem {
        id,
        text: i.title,
        position,
        status: Some("open"@),
        snoozed_until: None,
        kind: Some("linear_issue"@),
        pr_url: None,
        pr_repo: None,
        pr_number: None,
        pr_role: None,
        pr_draft: None,
        pr_id: None,
        pr_checks_status: None,
        linear_url: Some(i.url),
        linear_subtitle: None,
        linear_identifier: Some(i.identifier),
        linear_state: i.state,
        linear_notification_id: None,
        linear_issue_id: Some(i.issue_id),
    }
}

/// The lowest position of an open item.
pub open spec fn min_open_position(db: Seq<StoredItem>) -> Option<int>
    decreases db.len(),
{
    if db.len() == 0 {
        None
    } else {
        let p = min_open_position(db.drop_last());
        let r = db.last();
        if r.status == Some("open"@) {
            match p {
                Some(m) => Some(if r.position < m { r.position } else { m }),
                None => Some(r.position),
            }
        } else {
            p
        }
    }
}

/// Where an item from Linear or GitHub is inserted: above every open item.
pub open spec fn external_position(db: Seq<StoredItem>) -> int {
    match min_open_position(db) {
        Some(m) => m - 1,
        None => 0,
    }
}

/// The highest position of an open item.
pub open spec fn max_open_position(db: Seq<StoredItem>) -> Option<int>
    decreases db.len(),
{
    if db.len() == 0 {
        None
    } else {
        let p = max_open_position(db.drop_last());
        let r = db.last();
        if r.status == Some("open"@) {
            match p {
                Some(m) => Some(if r.position > m { r.position } else { m }),
                None => Some(r.position),
            }
        } else {
            p
        }
    }
}

/// Where a new task is added: below every open item.
pub open spec fn task_position(db: Seq<StoredItem>) -> int {
    match max_open_position(db) {
        Some(m) => m + 1,
        None => 0,
    }
}

/// The rows after a task with this id and text was added.
pub open spec fn add_task_effect(db: Seq<StoredItem>, id: int, text: Seq<char>) -> Seq<StoredItem> {
    db.push(
        StoredItem {
            id,
            text,
            position: task_position(db),
            status: Some("open"@),
            snoozed_until: None,
            kind: Some("task"@),
            pr_url: None,
            pr_repo: None,
            pr_number: None,
            pr_role: None,
            pr_draft: None,
            pr_id: None,
            pr_checks_status: None,
            linear_url: None,
            linear_subtitle: None,
            linear_identifier: None,
            linear_state: None,
            linear_notification_id: None,
            linear_issue_id: None,
        },
    )
}

proof fn lemma_open_position_bounds(db: Seq<StoredItem>)
    ensures
        forall|j: int|
            0 <= j < db.len() && #[trigger] db[j].status == Some("open"@) ==> min_open_position(db) is Some
                && min_open_position(db)->0 <= db[j].position && max_open_position(db) is Some
                && db[j].position <= max_open_position(db)->0,
    decreases db.len(),
{
    if db.len() > 0 {
        let d = db.drop_last();
        lemma_open_position_bounds(d);
        assert forall|j: int|
            0 <= j < db.len() && #[trigger] db[j].status == Some("open"@) implies min_open_position(db) is Some
            && min_open_position(db)->0 <= db[j].position && max_open_position(db) is Some
            && db[j].position <= max_open_position(db)->0 by {
            if j < d.len() {
                assert(db[j] == d[j]);
                assert(d[j].status == Some("open"@));
            }
        }
    }
}

/// An item from Linear or GitHub goes above every open item, and a new task
/// below every open item.
pub proof fn lemma_insert_positions(db: Seq<StoredItem>)
    ensures
        forall|j: int|
            0 <= j < db.len() && #[trigger] db[j].status == Some("open"@) ==> external_position(db)
                < db[j].position < task_position(db),
{
    lemma_open_position_bounds(db);
}

/// `c` with the ASCII capitals as small letters, as SQLite's `LIKE` compares.
pub open spec fn ascii_fold(c: char) -> char {
    if 'A' <= c && c <= 'Z' {
        ((c as int) + 32) as char
    } else {
        c
    }
}

/// SQLite's `LIKE` without an escape character: `%` matches any run of
/// characters, `_` any one character, and other characters match themselves
/// with ASCII letters compared without case.
pub open spec fn like_match(t: Seq<char>, p: Seq<char>) -> bool
    decreases p.len(), t.len(),
{
    if p.len() == 0 {
        t.len() == 0
    } else if p[0] == '%' {
        like_match(t, p.drop_first()) || (t.len() > 0 && like_match(t.drop_first(), p))
    } else {
        t.len() > 0 && (p[0] == '_' || ascii_fold(t[0]) == ascii_fold(p[0])) && like_match(
            t.drop_first(),
            p.drop_first(),
        )
    }
}

/// The item is snoozed until after `now` (in seconds since the epoch).
pub open spec fn snoozed_at(r: StoredItem, now: int) -> bool {
    r.snoozed_until is Some && r.snoozed_until->0 > now
}

/// The items a query of the list shows: those whose text matches the
/// pattern; with `OpenSnoozedLast` only the open ones, with `OpenAwake` only
/// the open ones not snoozed at `now`.
pub open spec fn shown_by(q: ItemsQuery, r: StoredItem, pattern: Seq<char>, now: int) -> bool {
    like_match(r.text, pattern) && match q {
        ItemsQuery::Everything => true,
        ItemsQuery::OpenSnoozedLast => r.status == Some("open"@),
        ItemsQuery::OpenAwake => r.status == Some("open"@) && !snoozed_at(r, now),
    }
}

/// The group an item is listed in, the lower first: for `Everything` the open
/// items before the others, for `OpenSnoozedLast` the snoozed ones last.
pub open spec fn list_group(q: ItemsQuery, r: StoredItem, now: int) -> int {
    match q {
        ItemsQuery::Everything => if r.status == Some("open"@) {
            0
        } else {
            1
        },
        ItemsQuery::OpenSnoozedLast => if snoozed_at(r, now) {
            1
        } else {
            0
        },
        ItemsQuery::OpenAwake => 0,
    }
}

/// `a` is listed no later than `b`: by group, then by position.
pub open spec fn listed_before(q: ItemsQuery, a: StoredItem, b: StoredItem, now: int) -> bool {
    list_group(q, a, now) < list_group(q, b, now) || (list_group(q, a, now) == list_group(q, b, now)
        && a.position <= b.position)
}

/// `out` is what the list's query gives for the rows: exactly the items it
/// shows, each once, by group and then by position (rows that tie come in an
/// order SQLite chooses).
pub open spec fn listed(
    db: Seq<StoredItem>,
    q: ItemsQuery,
    pattern: Seq<char>,
    now: int,
    out: Seq<StoredItem>,
) -> bool {
    &&& out.to_multiset() == db.filter(|r: StoredItem| shown_by(q, r, pattern, now)).to_multiset()
    &&& forall|i: int, j: int|
        0 <= i < j < out.len() ==> listed_before(q, #[trigger] out[i], #[trigger] out[j], now)
}

/// What `get_items` lists: the query that `items_query` picks, with the text
/// to search for anywhere in an item's text.
pub open spec fn items_listed(
    db: Seq<StoredItem>,
    include_done: bool,
    include_snoozed: bool,
    search: Seq<char>,
    now: int,
    out: Seq<StoredItem>,
) -> bool {
    let q = if include_done {
        ItemsQuery::Everything
    } else if include_snoozed {
        ItemsQuery::OpenSnoozedLast
    } else {
        ItemsQuery::OpenAwake
    };
    listed(db, q, "%"@ + search + "%"@, now, out)
}

/// Marks done the open rows that mirror `x`.
pub open spec fn close_mirrors(db: Seq<StoredItem>, is_issue: bool, x: Seq<char>) -> Seq<
    StoredItem,
> {
    db.map_values(
        |r: StoredItem|
            if mirrors(r, is_issue, x) && r.status == Some("open"@) {
                with_status(r, "done"@)
            } else {
                r
            },
    )
}

/// What one step of the Linear sync writes. An inserted row gets the id
/// `fresh` gives for the table as it is.
pub open spec fn apply_linear_step(
    db: Seq<StoredItem>,
    notes: Seq<NotificationView>,
    issues: Seq<IssueView>,
    step: LinearStepView,
    fresh: spec_fn(Seq<StoredItem>) -> int,
) -> Seq<StoredItem> {
    match step {
        LinearStepView::UpdateNotification(i) => db.map_values(
            |r: StoredItem|
                if mirrors(r, false, notes[i as int].notification_id) {
                    refreshed_notification(r, notes[i as int])
                } else {
                    r
                },
        ),
        LinearStepView::InsertNotification(i) => db.push(
            new_notification_row(fresh(db), external_position(db), notes[i as int]),
        ),
        LinearStepView::CloseNotification(x) => close_mirrors(db, false, x),
        LinearStepView::UpdateIssue(i, s) => db.map_values(
            |r: StoredItem|
                if mirrors(r, true, issues[i as int].issue_id) {
                    refreshed_issue(r, issues[i as int], s)
                } else {
                    r
                },
        ),
        LinearStepView::InsertIssue(i) => db.push(
            new_issue_row(fresh(db), external_position(db), issues[i as int]),
        ),
        LinearStepView::CloseIssue(x) => close_mirrors(db, true, x),
    }
}

/// What the steps write, one after the other.
pub open spec fn apply_linear_steps(
    db: Seq<StoredItem>,
    notes: Seq<NotificationView>,
    issues: Seq<IssueView>,
    steps: Seq<LinearStepView>,
    fresh: spec_fn(Seq<StoredItem>) -> int,
) -> Seq<StoredItem>
    decreases steps.len(),
{
    if steps.len() == 0 {
        db
    } else {
        apply_linear_step(
            apply_linear_steps(db, notes, issues, steps.drop_last(), fresh),
            notes,
            issues,
            steps.last(),
            fresh,
        )
    }
}

/// A row as the sync reads it: its Linear id and status, where it is an item
/// of the kind and carries an id; a missing status reads as "open".
pub open spec fn linear_entry(is_issue: bool) -> spec_fn(StoredItem) -> Option<(Seq<char>, Seq<char>)> {
    |r: StoredItem|
        if r.kind == Some(linear_kind(is_issue)) && remote_id_of(r, is_issue) is Some {
            Some((remote_id_of(r, is_issue)->0, text_or(r.status, "open"@)))
        } else {
            None
        }
}

/// The (id, status) pairs the sync reads for the stored items of a kind, in
/// stored order.
pub open spec fn stored_entries(db: Seq<StoredItem>, is_issue: bool) -> Seq<(Seq<char>, Seq<char>)> {
    keyed_entries(db, linear_entry(is_issue))
}

/// The table of stored items of a kind by Linear id, as the sync plans read it.
pub open spec fn stored_table(db: Seq<StoredItem>, is_issue: bool) -> Seq<(Seq<char>, Seq<char>)> {
    upsert_all(stored_entries(db, is_issue))
}

/// One Linear sync: the notification plan for the stored notification items is
/// carried out, then the issue plan for the stored issue items as they are
/// after it.
pub open spec fn linear_sync_effect(
    db: Seq<StoredItem>,
    notes: Seq<NotificationView>,
    issues: Seq<IssueView>,
    fresh: spec_fn(Seq<StoredItem>) -> int,
) -> Seq<StoredItem> {
    let db1 = apply_linear_steps(
        db,
        notes,
        issues,
        notification_plan_for(notes, stored_table(db, false)),
        fresh,
    );
    apply_linear_steps(db1, notes, issues, issue_plan_for(issues, stored_table(db1, true)), fresh)
}

/// The rows the sync reads, one per stored item of the kind that carries a
/// Linear id, give the table of the stored items.
pub proof fn lemma_rows_read(db: Seq<StoredItem>, is_issue: bool, rows: Seq<RemoteRow>)
    requires
        rows.map_values(|r: RemoteRow| remote_entry(r)) == stored_entries(db, is_issue),
    ensures
        remote_table(rows) == stored_table(db, is_issue),
{
}

/// No two fetched notifications share an id.
pub open spec fn notification_ids_distinct(notes: Seq<NotificationView>) -> bool {
    forall|i: int, j: int|
        0 <= i < notes.len() && 0 <= j < notes.len() && i != j ==> #[trigger] notes[i].notification_id
            != #[trigger] notes[j].notification_id
}

/// No two fetched issues share an id.
pub open spec fn issue_ids_distinct(issues: Seq<IssueView>) -> bool {
    forall|i: int, j: int|
        0 <= i < issues.len() && 0 <= j < issues.len() && i != j ==> #[trigger] issues[i].issue_id
            != #[trigger] issues[j].issue_id
}

/// The stored notification items agree with the fetched notifications: each
/// has a row, refreshing a row changes nothing, and no row of a notification
/// that is not listed is open.
pub open spec fn notifications_settled(db: Seq<StoredItem>, notes: Seq<NotificationView>) -> bool {
    &&& forall|i: int|
        #![trigger notes[i]]
        0 <= i < notes.len() ==> exists|j: int|
            0 <= j < db.len() && #[trigger] mirrors(db[j], false, notes[i].notification_id)
    &&& forall|j: int, i: int|
        0 <= j < db.len() && 0 <= i < notes.len() && #[trigger] mirrors(
            db[j],
            false,
            notes[i].notification_id,
        ) ==> refreshed_notification(db[j], notes[i]) == db[j]
    &&& forall|j: int, x: Seq<char>|
        0 <= j < db.len() && #[trigger] mirrors(db[j], false, x) && !notification_ids(notes).contains(
            x,
        ) ==> db[j].status != Some("open"@)
}

/// The stored issue items agree with the fetched issues: each has a row, the
/// rows of an issue share one status and refreshing them with it changes
/// nothing, and no row of an issue that is not listed is open.
pub open spec fn issues_settled(db: Seq<StoredItem>, issues: Seq<IssueView>) -> bool {
    &&& forall|i: int|
        #![trigger issues[i]]
        0 <= i < issues.len() ==> exists|j: int|
            0 <= j < db.len() && #[trigger] mirrors(db[j], true, issues[i].issue_id)
    &&& forall|j: int, i: int|
        0 <= j < db.len() && 0 <= i < issues.len() && #[trigger] mirrors(
            db[j],
            true,
            issues[i].issue_id,
        ) ==> db[j].status is Some && refreshed_issue(db[j], issues[i], db[j].status->0) == db[j]
    &&& forall|j1: int, j2: int, i: int|
        0 <= j1 < db.len() && 0 <= j2 < db.len() && 0 <= i < issues.len() && #[trigger] mirrors(
            db[j1],
            true,
            issues[i].issue_id,
        ) && #[trigger] mirrors(db[j2], true, issues[i].issue_id) ==> db[j1].status == db[j2].status
    &&& forall|j: int, x: Seq<char>|
        0 <= j < db.len() && #[trigger] mirrors(db[j], true, x) && !issue_ids(issues).contains(x)
            ==> db[j].status != Some("open"@)
}

/// The table holds an id exactly where a row mirrors it, and what it holds
/// for the id is the status of such a row.
pub proof fn lemma_stored_table(db: Seq<StoredItem>, is_issue: bool)
    ensures
        crate::table::distinct_keys(stored_table(db, is_issue)),
        forall|x: Seq<char>|
            #[trigger] has_key(stored_table(db, is_issue), x) <==> exists|j: int|
                0 <= j < db.len() && #[trigger] mirrors(db[j], is_issue, x),
        forall|x: Seq<char>|
            #[trigger] has_key(stored_table(db, is_issue), x) ==> exists|j: int|
                0 <= j < db.len() && #[trigger] mirrors(db[j], is_issue, x) && value_at(
                    stored_table(db, is_issue),
                    x,
                ) == text_or(db[j].status, "open"@),
{
    let f = linear_entry(is_issue);
    lemma_keyed_table(db, f);
    assert forall|j: int, x: Seq<char>| 0 <= j < db.len() implies #[trigger] keyed_by(f, db[j], x)
        == mirrors(db[j], is_issue, x) by {}
    assert forall|x: Seq<char>|
        #[trigger] has_key(stored_table(db, is_issue), x) implies exists|j: int|
            0 <= j < db.len() && #[trigger] mirrors(db[j], is_issue, x) && value_at(
                stored_table(db, is_issue),
                x,
            ) == text_or(db[j].status, "open"@) by {
        let j = choose|j: int|
            0 <= j < db.len() && #[trigger] keyed_by(f, db[j], x) && value_at(
                stored_table(db, is_issue),
                x,
            ) == f(db[j]).unwrap().1 && last_keyed(db, f, j, x);
        assert(mirrors(db[j], is_issue, x));
    }
    assert forall|x: Seq<char>|
        #[trigger] has_key(stored_table(db, is_issue), x) <==> exists|j: int|
            0 <= j < db.len() && #[trigger] mirrors(db[j], is_issue, x) by {
        if exists|j: int| 0 <= j < db.len() && #[trigger] mirrors(db[j], is_issue, x) {
            let j = choose|j: int| 0 <= j < db.len() && #[trigger] mirrors(db[j], is_issue, x);
            assert(keyed_by(f, db[j], x));
        }
        if has_key(stored_table(db, is_issue), x) {
            let j = choose|j: int| 0 <= j < db.len() && #[trigger] keyed_by(f, db[j], x);
            assert(mirrors(db[j], is_issue, x));
        }
    }
}

/// Steps that each leave the rows as they are leave them as they are together.
pub proof fn lemma_steps_fixed(
    db: Seq<StoredItem>,
    notes: Seq<NotificationView>,
    issues: Seq<IssueView>,
    steps: Seq<LinearStepView>,
    fresh: spec_fn(Seq<StoredItem>) -> int,
)
    requires
        forall|m: int|
            0 <= m < steps.len() ==> #[trigger] apply_linear_step(db, notes, issues, steps[m], fresh)
                == db,
    ensures
        apply_linear_steps(db, notes, issues, steps, fresh) == db,
    decreases steps.len(),
{
    if steps.len() > 0 {
        let d = steps.drop_last();
        assert forall|m: int| 0 <= m < d.len() implies #[trigger] apply_linear_step(
            db,
            notes,
            issues,
            d[m],
            fresh,
        ) == db by {
            assert(d[m] == steps[m]);
        }
        lemma_steps_fixed(db, notes, issues, d, fresh);
        assert(apply_linear_step(db, notes, issues, steps[steps.len() - 1], fresh) == db);
    }
}

/// On settled rows, a sync with the same answers writes nothing that changes
/// a row.
pub proof fn lemma_settled_sync_is_fixed(
    db: Seq<StoredItem>,
    notes: Seq<NotificationView>,
    issues: Seq<IssueView>,
    fresh: spec_fn(Seq<StoredItem>) -> int,
)
    requires
        notes.len() <= usize::MAX,
        issues.len() <= usize::MAX,
        notifications_settled(db, notes),
        issues_settled(db, issues),
    ensures
        linear_sync_effect(db, notes, issues, fresh) == db,
{
    reveal_strlit("open");
    reveal_strlit("done");
    let t = stored_table(db, false);
    let fetched = notification_ids(notes);
    lemma_stored_table(db, false);
    lemma_keys_not_in(t, fetched);
    let plan = notification_plan_for(notes, t);
    let n = notes.len();
    assert forall|m: int| 0 <= m < plan.len() implies #[trigger] apply_linear_step(
        db,
        notes,
        issues,
        plan[m],
        fresh,
    ) == db by {
        if m < n {
            let x = notes[m].notification_id;
            assert(has_key(t, x));
            assert(plan[m] == LinearStepView::UpdateNotification(m as usize));
            let after = apply_linear_step(db, notes, issues, plan[m], fresh);
            assert forall|j: int| 0 <= j < db.len() implies #[trigger] after[j] == db[j] by {
                if mirrors(db[j], false, x) {
                    assert(refreshed_notification(db[j], notes[m]) == db[j]);
                }
            }
            assert(after =~= db);
        } else {
            let ks = keys_not_in(t, fetched);
            let x = ks[m - n];
            assert(ks.contains(x));
            assert(plan[m] == LinearStepView::CloseNotification(x));
            let after = close_mirrors(db, false, x);
            assert forall|j: int| 0 <= j < db.len() implies #[trigger] after[j] == db[j] by {
                if mirrors(db[j], false, x) {
                    assert(db[j].status != Some("open"@));
                }
            }
            assert(after =~= db);
        }
    }
    lemma_steps_fixed(db, notes, issues, plan, fresh);
    let ti = stored_table(db, true);
    let ifetched = issue_ids(issues);
    lemma_stored_table(db, true);
    lemma_keys_not_in(ti, ifetched);
    let iplan = issue_plan_for(issues, ti);
    let ni = issues.len();
    assert forall|m: int| 0 <= m < iplan.len() implies #[trigger] apply_linear_step(
        db,
        notes,
        issues,
        iplan[m],
        fresh,
    ) == db by {
        if m < ni {
            let x = issues[m].issue_id;
            assert(has_key(ti, x));
            let jv = choose|j: int|
                0 <= j < db.len() && #[trigger] mirrors(db[j], true, x) && value_at(ti, x) == text_or(
                    db[j].status,
                    "open"@,
                );
            let s = db[jv].status->0;
            assert(value_at(ti, x) == s);
            assert(iplan[m] == LinearStepView::UpdateIssue(m as usize, s));
            let after = apply_linear_step(db, notes, issues, iplan[m], fresh);
            assert forall|j: int| 0 <= j < db.len() implies #[trigger] after[j] == db[j] by {
                if mirrors(db[j], true, x) {
                    assert(db[j].status == db[jv].status);
                    assert(refreshed_issue(db[j], issues[m], s) == db[j]);
                }
            }
            assert(after =~= db);
        } else {
            let ks = keys_not_in(ti, ifetched);
            let x = ks[m - ni];
            assert(ks.contains(x));
            assert(iplan[m] == LinearStepView::CloseIssue(x));
            let after = close_mirrors(db, true, x);
            assert forall|j: int| 0 <= j < db.len() implies #[trigger] after[j] == db[j] by {
                if mirrors(db[j], true, x) {
                    assert(db[j].status != Some("open"@));
                }
            }
            assert(after =~= db);
        }
    }
    lemma_steps_fixed(db, notes, issues, iplan, fresh);
}

pub proof fn lemma_done_is_not_open()
    ensures
        "done"@ != "open"@,
{
    reveal_strlit("open");
    reveal_strlit("done");
    assert("done"@[0] != "open"@[0]);
}

/// Carrying out `a` and then `b` is carrying out `a + b`.
pub proof fn lemma_steps_append(
    db: Seq<StoredItem>,
    notes: Seq<NotificationView>,
    issues: Seq<IssueView>,
    a: Seq<LinearStepView>,
    b: Seq<LinearStepView>,
    fresh: spec_fn(Seq<StoredItem>) -> int,
)
    ensures
        apply_linear_steps(db, notes, issues, a + b, fresh) == apply_linear_steps(
            apply_linear_steps(db, notes, issues, a, fresh),
            notes,
            issues,
            b,
            fresh,
        ),
    decreases b.len(),
{
    if b.len() == 0 {
        assert(a + b =~= a);
    } else {
        lemma_steps_append(db, notes, issues, a, b.drop_last(), fresh);
        assert((a + b).drop_last() =~= a + b.drop_last());
        assert((a + b).last() == b.last());
    }
}

/// The rows after the first `k + 1` steps are those after the first `k`
/// with step `k` carried out.
pub proof fn lemma_steps_take(
    db: Seq<StoredItem>,
    notes: Seq<NotificationView>,
    issues: Seq<IssueView>,
    steps: Seq<LinearStepView>,
    k: int,
    fresh: spec_fn(Seq<StoredItem>) -> int,
)
    requires
        0 <= k < steps.len(),
    ensures
        apply_linear_steps(db, notes, issues, steps.take(k + 1), fresh) == apply_linear_step(
            apply_linear_steps(db, notes, issues, steps.take(k), fresh),
            notes,
            issues,
            steps[k],
            fresh,
        ),
{
    assert(steps.take(k + 1).drop_last() =~= steps.take(k));
    assert(steps.take(k + 1).last() == steps[k]);
}

/// Where the rows stand after the writes for the first `k` fetched
/// notifications, from `db0`: the old rows keep their kind and notification
/// id, each added row mirrors one of those notifications, each of them has a
/// row, and refreshing such a row changes nothing.
pub open spec fn notes_written(
    db0: Seq<StoredItem>,
    db: Seq<StoredItem>,
    notes: Seq<NotificationView>,
    k: int,
) -> bool {
    &&& db0.len() <= db.len()
    &&& forall|j: int|
        #![trigger db[j]]
        0 <= j < db0.len() ==> db[j].kind == db0[j].kind && db[j].linear_notification_id
            == db0[j].linear_notification_id
    &&& forall|j: int| db0.len() <= j < db.len() ==> mirrors_note_before(#[trigger] db[j], notes, k)
    &&& forall|i: int| 0 <= i < k ==> has_mirror(db, false, #[trigger] notes[i].notification_id)
    &&& forall|j: int, i: int|
        0 <= j < db.len() && 0 <= i < k && #[trigger] mirrors(db[j], false, notes[i].notification_id)
            ==> refreshed_notification(db[j], notes[i]) == db[j]
}

/// The row mirrors one of the first `k` fetched notifications.
pub open spec fn mirrors_note_before(r: StoredItem, notes: Seq<NotificationView>, k: int) -> bool {
    exists|i: int| 0 <= i < k && #[trigger] mirrors(r, false, notes[i].notification_id)
}

/// Some row mirrors `x`.
pub open spec fn has_mirror(db: Seq<StoredItem>, is_issue: bool, x: Seq<char>) -> bool {
    exists|j: int| 0 <= j < db.len() && #[trigger] mirrors(db[j], is_issue, x)
}

proof fn lemma_notes_write_step(
    db0: Seq<StoredItem>,
    db: Seq<StoredItem>,
    notes: Seq<NotificationView>,
    issues: Seq<IssueView>,
    k: int,
    fresh: spec_fn(Seq<StoredItem>) -> int,
)
    requires
        notes.len() <= usize::MAX,
        notification_ids_distinct(notes),
        0 <= k < notes.len(),
        notes_written(db0, db, notes, k),
    ensures
        notes_written(
            db0,
            apply_linear_step(
                db,
                notes,
                issues,
                notification_writes(notes, stored_table(db0, false))[k],
                fresh,
            ),
            notes,
            k + 1,
        ),
{
    let t0 = stored_table(db0, false);
    lemma_stored_table(db0, false);
    let x = notes[k].notification_id;
    let step = notification_writes(notes, t0)[k];
    let after = apply_linear_step(db, notes, issues, step, fresh);
    if has_key(t0, x) {
        assert(step == LinearStepView::UpdateNotification(k as usize));
        assert(after.len() == db.len());
        assert forall|j: int| 0 <= j < db.len() implies #[trigger] after[j].kind == db[j].kind
            && after[j].linear_notification_id == db[j].linear_notification_id by {}
        assert forall|j: int| db0.len() <= j < after.len() implies mirrors_note_before(
            #[trigger] after[j],
            notes,
            k + 1,
        ) by {
            assert(mirrors_note_before(db[j], notes, k));
            let i = choose|i: int| 0 <= i < k && #[trigger] mirrors(db[j], false, notes[i].notification_id);
            assert(mirrors(after[j], false, notes[i].notification_id));
        }
        assert forall|i: int| 0 <= i < k + 1 implies has_mirror(
            after,
            false,
            #[trigger] notes[i].notification_id,
        ) by {
            if i < k {
                assert(has_mirror(db, false, notes[i].notification_id));
                let j = choose|j: int|
                    0 <= j < db.len() && #[trigger] mirrors(db[j], false, notes[i].notification_id);
                assert(mirrors(after[j], false, notes[i].notification_id));
            } else {
                let j = choose|j: int| 0 <= j < db0.len() && #[trigger] mirrors(db0[j], false, x);
                assert(db[j].kind == db0[j].kind);
                assert(mirrors(after[j], false, x));
            }
        }
        assert forall|j: int, i: int|
            0 <= j < after.len() && 0 <= i < k + 1 && #[trigger] mirrors(
                after[j],
                false,
                notes[i].notification_id,
            ) implies refreshed_notification(after[j], notes[i]) == after[j] by {
            if i < k {
                assert(notes[i].notification_id != x);
                assert(mirrors(db[j], false, notes[i].notification_id));
                assert(after[j] == db[j]);
            }
        }
    } else {
        assert(step == LinearStepView::InsertNotification(k as usize));
        let row = new_notification_row(fresh(db), external_position(db), notes[k]);
        assert(after == db.push(row));
        assert forall|j: int| #![trigger after[j]] 0 <= j < db0.len() implies after[j].kind == db0[j].kind
            && after[j].linear_notification_id == db0[j].linear_notification_id by {
            assert(after[j] == db[j]);
        }
        assert forall|j: int| db0.len() <= j < after.len() implies mirrors_note_before(
            #[trigger] after[j],
            notes,
            k + 1,
        ) by {
            if j < db.len() {
                assert(after[j] == db[j]);
                assert(mirrors_note_before(db[j], notes, k));
                let i = choose|i: int| 0 <= i < k && #[trigger] mirrors(db[j], false, notes[i].notification_id);
                assert(mirrors(after[j], false, notes[i].notification_id));
            } else {
                assert(after[j] == row);
                assert(mirrors(after[j], false, notes[k].notification_id));
            }
        }
        assert forall|i: int| 0 <= i < k + 1 implies has_mirror(
            after,
            false,
            #[trigger] notes[i].notification_id,
        ) by {
            if i < k {
                assert(has_mirror(db, false, notes[i].notification_id));
                let j = choose|j: int|
                    0 <= j < db.len() && #[trigger] mirrors(db[j], false, notes[i].notification_id);
                assert(after[j] == db[j]);
            } else {
                assert(after[db.len() as int] == row);
                assert(mirrors(after[db.len() as int], false, x));
            }
        }
        assert forall|j: int, i: int|
            0 <= j < after.len() && 0 <= i < k + 1 && #[trigger] mirrors(
                after[j],
                false,
                notes[i].notification_id,
            ) implies refreshed_notification(after[j], notes[i]) == after[j] by {
            if j < db.len() {
                assert(after[j] == db[j]);
                if i == k {
                    if j < db0.len() {
                        assert(mirrors(db0[j], false, x));
                        assert(has_key(t0, x));
                    } else {
                        assert(mirrors_note_before(db[j], notes, k));
                        let i2 = choose|i2: int|
                            0 <= i2 < k && #[trigger] mirrors(db[j], false, notes[i2].notification_id);
                        assert(notes[i2].notification_id != x);
                    }
                }
            } else {
                assert(after[j] == row);
                if i < k {
                    assert(notes[i].notification_id != x);
                }
            }
        }
    }
}

proof fn lemma_notes_writes(
    db0: Seq<StoredItem>,
    notes: Seq<NotificationView>,
    issues: Seq<IssueView>,
    k: int,
    fresh: spec_fn(Seq<StoredItem>) -> int,
)
    requires
        notes.len() <= usize::MAX,
        notification_ids_distinct(notes),
        0 <= k <= notes.len(),
    ensures
        notes_written(
            db0,
            apply_linear_steps(
                db0,
                notes,
                issues,
                notification_writes(notes, stored_table(db0, false)).take(k),
                fresh,
            ),
            notes,
            k,
        ),
    decreases k,
{
    let w = notification_writes(notes, stored_table(db0, false));
    if k == 0 {
        assert(w.take(0) =~= Seq::<LinearStepView>::empty());
    } else {
        lemma_notes_writes(db0, notes, issues, k - 1, fresh);
        lemma_steps_take(db0, notes, issues, w, k - 1, fresh);
        lemma_notes_write_step(
            db0,
            apply_linear_steps(db0, notes, issues, w.take(k - 1), fresh),
            notes,
            issues,
            k - 1,
            fresh,
        );
    }
}

/// Where the rows stand after the first `m` closes `ks` of the notification
/// sync, from `dbn`: kinds and notification ids are kept, the rows of listed
/// notifications are untouched, and no row of a closed id is open.
pub open spec fn notes_closed(
    dbn: Seq<StoredItem>,
    db: Seq<StoredItem>,
    notes: Seq<NotificationView>,
    ks: Seq<Seq<char>>,
    m: int,
) -> bool {
    &&& db.len() == dbn.len()
    &&& forall|j: int|
        #![trigger db[j]]
        0 <= j < db.len() ==> db[j].kind == dbn[j].kind && db[j].linear_notification_id
            == dbn[j].linear_notification_id
    &&& forall|j: int, i: int|
        0 <= j < db.len() && 0 <= i < notes.len() && #[trigger] mirrors(
            db[j],
            false,
            notes[i].notification_id,
        ) ==> db[j] == dbn[j]
    &&& forall|j: int, c: int|
        0 <= j < db.len() && 0 <= c < m && #[trigger] mirrors(db[j], false, ks[c]) ==> db[j].status
            != Some("open"@)
}

proof fn lemma_notes_closes(
    dbn: Seq<StoredItem>,
    notes: Seq<NotificationView>,
    issues: Seq<IssueView>,
    ks: Seq<Seq<char>>,
    m: int,
    fresh: spec_fn(Seq<StoredItem>) -> int,
)
    requires
        0 <= m <= ks.len(),
        forall|c: int| 0 <= c < ks.len() ==> !notification_ids(notes).contains(#[trigger] ks[c]),
    ensures
        notes_closed(
            dbn,
            apply_linear_steps(
                dbn,
                notes,
                issues,
                ks.map_values(|id: Seq<char>| LinearStepView::CloseNotification(id)).take(m),
                fresh,
            ),
            notes,
            ks,
            m,
        ),
    decreases m,
{
    let cs = ks.map_values(|id: Seq<char>| LinearStepView::CloseNotification(id));
    if m == 0 {
        assert(cs.take(0) =~= Seq::<LinearStepView>::empty());
    } else {
        lemma_notes_closes(dbn, notes, issues, ks, m - 1, fresh);
        lemma_steps_take(dbn, notes, issues, cs, m - 1, fresh);
        let db = apply_linear_steps(dbn, notes, issues, cs.take(m - 1), fresh);
        let y = ks[m - 1];
        assert(cs[m - 1] == LinearStepView::CloseNotification(y));
        let after = close_mirrors(db, false, y);
        lemma_done_is_not_open();
        assert forall|j: int, i: int|
            0 <= j < after.len() && 0 <= i < notes.len() && #[trigger] mirrors(
                after[j],
                false,
                notes[i].notification_id,
            ) implies after[j] == dbn[j] by {
            assert(notification_ids(notes).contains(notes[i].notification_id));
            assert(notes[i].notification_id != y);
            assert(mirrors(db[j], false, notes[i].notification_id));
        }
        assert forall|j: int, c: int|
            0 <= j < after.len() && 0 <= c < m && #[trigger] mirrors(after[j], false, ks[c]) implies after[j].status
            != Some("open"@) by {
            assert(mirrors(db[j], false, ks[c]));
            if c < m - 1 {
                assert(db[j].status != Some("open"@));
                assert(after[j] == db[j]);
            } else if db[j].status == Some("open"@) {
                assert(after[j] == with_status(db[j], "done"@));
            }
        }
    }
}

/// The notification sync leaves the stored notification items settled.
pub proof fn lemma_notification_phase(
    db0: Seq<StoredItem>,
    notes: Seq<NotificationView>,
    issues: Seq<IssueView>,
    fresh: spec_fn(Seq<StoredItem>) -> int,
)
    requires
        notes.len() <= usize::MAX,
        notification_ids_distinct(notes),
    ensures
        notifications_settled(
            apply_linear_steps(
                db0,
                notes,
                issues,
                notification_plan_for(notes, stored_table(db0, false)),
                fresh,
            ),
            notes,
        ),
{
    let t0 = stored_table(db0, false);
    let fetched = notification_ids(notes);
    lemma_stored_table(db0, false);
    lemma_keys_not_in(t0, fetched);
    let w = notification_writes(notes, t0);
    let ks = keys_not_in(t0, fetched);
    let cs = ks.map_values(|id: Seq<char>| LinearStepView::CloseNotification(id));
    lemma_steps_append(db0, notes, issues, w, cs, fresh);
    lemma_notes_writes(db0, notes, issues, notes.len() as int, fresh);
    assert(w.take(notes.len() as int) =~= w);
    let dbn = apply_linear_steps(db0, notes, issues, w, fresh);
    assert forall|c: int| 0 <= c < ks.len() implies !fetched.contains(#[trigger] ks[c]) by {
        assert(ks.contains(ks[c]));
    }
    lemma_notes_closes(dbn, notes, issues, ks, ks.len() as int, fresh);
    assert(cs.take(ks.len() as int) =~= cs);
    let db1 = apply_linear_steps(dbn, notes, issues, cs, fresh);
    assert(notification_plan_for(notes, t0) == w + cs);
    assert forall|i: int|
        #![trigger notes[i]]
        0 <= i < notes.len() implies exists|j: int|
            0 <= j < db1.len() && #[trigger] mirrors(db1[j], false, notes[i].notification_id) by {
        assert(has_mirror(dbn, false, notes[i].notification_id));
        let j = choose|j: int| 0 <= j < dbn.len() && #[trigger] mirrors(dbn[j], false, notes[i].notification_id);
        assert(db1[j].kind == dbn[j].kind);
        assert(mirrors(db1[j], false, notes[i].notification_id));
    }
    assert forall|j: int, i: int|
        0 <= j < db1.len() && 0 <= i < notes.len() && #[trigger] mirrors(
            db1[j],
            false,
            notes[i].notification_id,
        ) implies refreshed_notification(db1[j], notes[i]) == db1[j] by {
        assert(db1[j] == dbn[j]);
    }
    assert forall|j: int, x: Seq<char>|
        0 <= j < db1.len() && #[trigger] mirrors(db1[j], false, x) && !fetched.contains(x) implies db1[j].status
        != Some("open"@) by {
        assert(dbn[j].kind == db1[j].kind);
        if j < db0.len() {
            assert(mirrors(db0[j], false, x));
            assert(has_key(t0, x));
            assert(ks.contains(x));
            let c = choose|c: int| 0 <= c < ks.len() && ks[c] == x;
            assert(mirrors(db1[j], false, ks[c]));
        } else {
            assert(mirrors_note_before(dbn[j], notes, notes.len() as int));
            let i = choose|i: int|
                0 <= i < notes.len() && #[trigger] mirrors(dbn[j], false, notes[i].notification_id);
            assert(fetched.contains(notes[i].notification_id));
        }
    }
}

proof fn lemma_kinds_differ()
    ensures
        linear_kind(true) != linear_kind(false),
{
    reveal_strlit("linear_issue");
    reveal_strlit("linear_notification");
    assert(linear_kind(true).len() != linear_kind(false).len());
}

/// The row mirrors one of the first `k` fetched issues.
pub open spec fn mirrors_issue_before(r: StoredItem, issues: Seq<IssueView>, k: int) -> bool {
    exists|i: int| 0 <= i < k && #[trigger] mirrors(r, true, issues[i].issue_id)
}

/// Where the rows stand after the writes for the first `k` fetched issues,
/// from `db0`: the old rows keep their kind and issue id and the notification
/// items are untouched, each added row mirrors one of those issues, each of
/// them has a row, its rows share one status, and refreshing them with it
/// changes nothing.
pub open spec fn issues_written(
    db0: Seq<StoredItem>,
    db: Seq<StoredItem>,
    issues: Seq<IssueView>,
    k: int,
) -> bool {
    &&& db0.len() <= db.len()
    &&& forall|j: int|
        #![trigger db[j]]
        0 <= j < db0.len() ==> db[j].kind == db0[j].kind && db[j].linear_issue_id
            == db0[j].linear_issue_id && (db0[j].kind == Some(linear_kind(false)) ==> db[j]
            == db0[j])
    &&& forall|j: int| db0.len() <= j < db.len() ==> mirrors_issue_before(#[trigger] db[j], issues, k)
    &&& forall|i: int| 0 <= i < k ==> has_mirror(db, true, #[trigger] issues[i].issue_id)
    &&& forall|j: int, i: int|
        0 <= j < db.len() && 0 <= i < k && #[trigger] mirrors(db[j], true, issues[i].issue_id)
            ==> db[j].status is Some && refreshed_issue(db[j], issues[i], db[j].status->0) == db[j]
    &&& forall|j1: int, j2: int, i: int|
        0 <= j1 < db.len() && 0 <= j2 < db.len() && 0 <= i < k && #[trigger] mirrors(
            db[j1],
            true,
            issues[i].issue_id,
        ) && #[trigger] mirrors(db[j2], true, issues[i].issue_id) ==> db[j1].status == db[j2].status
}

proof fn lemma_issues_write_step(
    db0: Seq<StoredItem>,
    db: Seq<StoredItem>,
    notes: Seq<NotificationView>,
    issues: Seq<IssueView>,
    k: int,
    fresh: spec_fn(Seq<StoredItem>) -> int,
)
    requires
        issues.len() <= usize::MAX,
        issue_ids_distinct(issues),
        0 <= k < issues.len(),
        issues_written(db0, db, issues, k),
    ensures
        issues_written(
            db0,
            apply_linear_step(db, notes, issues, issue_writes(issues, stored_table(db0, true))[k], fresh),
            issues,
            k + 1,
        ),
{
    let t0 = stored_table(db0, true);
    lemma_stored_table(db0, true);
    lemma_kinds_differ();
    let x = issues[k].issue_id;
    let step = issue_writes(issues, t0)[k];
    let after = apply_linear_step(db, notes, issues, step, fresh);
    if has_key(t0, x) {
        let st = value_at(t0, x);
        assert(step == LinearStepView::UpdateIssue(k as usize, st));
        assert(after.len() == db.len());
        assert forall|j: int| #![trigger after[j]] 0 <= j < db0.len() implies after[j].kind
            == db0[j].kind && after[j].linear_issue_id == db0[j].linear_issue_id && (db0[j].kind
            == Some(linear_kind(false)) ==> after[j] == db0[j]) by {
        }
        assert forall|j: int| db0.len() <= j < after.len() implies mirrors_issue_before(
            #[trigger] after[j],
            issues,
            k + 1,
        ) by {
            assert(mirrors_issue_before(db[j], issues, k));
            let i = choose|i: int| 0 <= i < k && #[trigger] mirrors(db[j], true, issues[i].issue_id);
            assert(mirrors(after[j], true, issues[i].issue_id));
        }
        assert forall|i: int| 0 <= i < k + 1 implies has_mirror(
            after,
            true,
            #[trigger] issues[i].issue_id,
        ) by {
            if i < k {
                assert(has_mirror(db, true, issues[i].issue_id));
                let j = choose|j: int| 0 <= j < db.len() && #[trigger] mirrors(db[j], true, issues[i].issue_id);
                assert(mirrors(after[j], true, issues[i].issue_id));
            } else {
                let j = choose|j: int| 0 <= j < db0.len() && #[trigger] mirrors(db0[j], true, x);
                assert(db[j].kind == db0[j].kind);
                assert(mirrors(after[j], true, x));
            }
        }
        assert forall|j: int, i: int|
            0 <= j < after.len() && 0 <= i < k + 1 && #[trigger] mirrors(after[j], true, issues[i].issue_id)
                implies after[j].status is Some && refreshed_issue(after[j], issues[i], after[j].status->0)
                == after[j] by {
            if i < k {
                assert(issues[i].issue_id != x);
                assert(mirrors(db[j], true, issues[i].issue_id));
                assert(after[j] == db[j]);
            } else {
                assert(mirrors(db[j], true, x));
                assert(after[j] == refreshed_issue(db[j], issues[k], st));
            }
        }
        assert forall|j1: int, j2: int, i: int|
            0 <= j1 < after.len() && 0 <= j2 < after.len() && 0 <= i < k + 1 && #[trigger] mirrors(
                after[j1],
                true,
                issues[i].issue_id,
            ) && #[trigger] mirrors(after[j2], true, issues[i].issue_id) implies after[j1].status
            == after[j2].status by {
            assert(mirrors(db[j1], true, issues[i].issue_id));
            assert(mirrors(db[j2], true, issues[i].issue_id));
            if i < k {
                assert(issues[i].issue_id != x);
                assert(after[j1] == db[j1]);
                assert(after[j2] == db[j2]);
            } else {
                assert(after[j1] == refreshed_issue(db[j1], issues[k], st));
                assert(after[j2] == refreshed_issue(db[j2], issues[k], st));
            }
        }
    } else {
        assert(step == LinearStepView::InsertIssue(k as usize));
        let row = new_issue_row(fresh(db), external_position(db), issues[k]);
        assert(after == db.push(row));
        let n = db.len() as int;
        assert(after[n] == row);
        assert(mirrors(row, true, x));
        // No row before the insert mirrors the issue.
        assert forall|j: int| 0 <= j < db.len() implies !#[trigger] mirrors(db[j], true, x) by {
            if mirrors(db[j], true, x) {
                if j < db0.len() {
                    assert(mirrors(db0[j], true, x));
                    assert(has_key(t0, x));
                } else {
                    assert(mirrors_issue_before(db[j], issues, k));
                    let i2 = choose|i2: int| 0 <= i2 < k && #[trigger] mirrors(db[j], true, issues[i2].issue_id);
                    assert(issues[i2].issue_id != x);
                }
            }
        }
        assert forall|j: int| #![trigger after[j]] 0 <= j < db0.len() implies after[j].kind
            == db0[j].kind && after[j].linear_issue_id == db0[j].linear_issue_id && (db0[j].kind
            == Some(linear_kind(false)) ==> after[j] == db0[j]) by {
            assert(after[j] == db[j]);
        }
        assert forall|j: int| db0.len() <= j < after.len() implies mirrors_issue_before(
            #[trigger] after[j],
            issues,
            k + 1,
        ) by {
            if j < n {
                assert(after[j] == db[j]);
                assert(mirrors_issue_before(db[j], issues, k));
                let i = choose|i: int| 0 <= i < k && #[trigger] mirrors(db[j], true, issues[i].issue_id);
                assert(mirrors(after[j], true, issues[i].issue_id));
            } else {
                assert(mirrors(after[j], true, issues[k].issue_id));
            }
        }
        assert forall|i: int| 0 <= i < k + 1 implies has_mirror(
            after,
            true,
            #[trigger] issues[i].issue_id,
        ) by {
            if i < k {
                assert(has_mirror(db, true, issues[i].issue_id));
                let j = choose|j: int| 0 <= j < db.len() && #[trigger] mirrors(db[j], true, issues[i].issue_id);
                assert(after[j] == db[j]);
            } else {
                assert(mirrors(after[n], true, x));
            }
        }
        assert forall|j: int, i: int|
            0 <= j < after.len() && 0 <= i < k + 1 && #[trigger] mirrors(after[j], true, issues[i].issue_id)
                implies after[j].status is Some && refreshed_issue(after[j], issues[i], after[j].status->0)
                == after[j] by {
            if j < n {
                assert(after[j] == db[j]);
                if i == k {
                    assert(!mirrors(db[j], true, x));
                }
            } else {
                if i < k {
                    assert(issues[i].issue_id != x);
                }
            }
        }
        assert forall|j1: int, j2: int, i: int|
            0 <= j1 < after.len() && 0 <= j2 < after.len() && 0 <= i < k + 1 && #[trigger] mirrors(
                after[j1],
                true,
                issues[i].issue_id,
            ) && #[trigger] mirrors(after[j2], true, issues[i].issue_id) implies after[j1].status
            == after[j2].status by {
            if i < k {
                assert(issues[i].issue_id != x);
                assert(j1 < n && j2 < n);
                assert(after[j1] == db[j1]);
                assert(after[j2] == db[j2]);
                assert(mirrors(db[j1], true, issues[i].issue_id));
                assert(mirrors(db[j2], true, issues[i].issue_id));
            } else {
                if j1 < n {
                    assert(after[j1] == db[j1]);
                    assert(!mirrors(db[j1], true, x));
                }
                if j2 < n {
                    assert(after[j2] == db[j2]);
                    assert(!mirrors(db[j2], true, x));
                }
            }
        }
    }
}

proof fn lemma_issues_writes(
    db0: Seq<StoredItem>,
    notes: Seq<NotificationView>,
    issues: Seq<IssueView>,
    k: int,
    fresh: spec_fn(Seq<StoredItem>) -> int,
)
    requires
        issues.len() <= usize::MAX,
        issue_ids_distinct(issues),
        0 <= k <= issues.len(),
    ensures
        issues_written(
            db0,
            apply_linear_steps(db0, notes, issues, issue_writes(issues, stored_table(db0, true)).take(k), fresh),
            issues,
            k,
        ),
    decreases k,
{
    let w = issue_writes(issues, stored_table(db0, true));
    if k == 0 {
        assert(w.take(0) =~= Seq::<LinearStepView>::empty());
    } else {
        lemma_issues_writes(db0, notes, issues, k - 1, fresh);
        lemma_steps_take(db0, notes, issues, w, k - 1, fresh);
        lemma_issues_write_step(
            db0,
            apply_linear_steps(db0, notes, issues, w.take(k - 1), fresh),
            notes,
            issues,
            k - 1,
            fresh,
        );
    }
}

/// Where the rows stand after the first `m` closes `ks` of the issue sync,
/// from `dbn`: kinds and issue ids are kept, the notification items and the
/// rows of listed issues are untouched, and no row of a closed id is open.
pub open spec fn issues_closed(
    dbn: Seq<StoredItem>,
    db: Seq<StoredItem>,
    issues: Seq<IssueView>,
    ks: Seq<Seq<char>>,
    m: int,
) -> bool {
    &&& db.len() == dbn.len()
    &&& forall|j: int|
        #![trigger db[j]]
        0 <= j < db.len() ==> db[j].kind == dbn[j].kind && db[j].linear_issue_id
            == dbn[j].linear_issue_id && (dbn[j].kind == Some(linear_kind(false)) ==> db[j]
            == dbn[j])
    &&& forall|j: int, i: int|
        0 <= j < db.len() && 0 <= i < issues.len() && #[trigger] mirrors(db[j], true, issues[i].issue_id)
            ==> db[j] == dbn[j]
    &&& forall|j: int, c: int|
        0 <= j < db.len() && 0 <= c < m && #[trigger] mirrors(db[j], true, ks[c]) ==> db[j].status
            != Some("open"@)
}

proof fn lemma_issues_closes(
    dbn: Seq<StoredItem>,
    notes: Seq<NotificationView>,
    issues: Seq<IssueView>,
    ks: Seq<Seq<char>>,
    m: int,
    fresh: spec_fn(Seq<StoredItem>) -> int,
)
    requires
        0 <= m <= ks.len(),
        forall|c: int| 0 <= c < ks.len() ==> !issue_ids(issues).contains(#[trigger] ks[c]),
    ensures
        issues_closed(
            dbn,
            apply_linear_steps(
                dbn,
                notes,
                issues,
                ks.map_values(|id: Seq<char>| LinearStepView::CloseIssue(id)).take(m),
                fresh,
            ),
            issues,
            ks,
            m,
        ),
    decreases m,
{
    let cs = ks.map_values(|id: Seq<char>| LinearStepView::CloseIssue(id));
    if m == 0 {
        assert(cs.take(0) =~= Seq::<LinearStepView>::empty());
    } else {
        lemma_issues_closes(dbn, notes, issues, ks, m - 1, fresh);
        lemma_steps_take(dbn, notes, issues, cs, m - 1, fresh);
        let db = apply_linear_steps(dbn, notes, issues, cs.take(m - 1), fresh);
        let y = ks[m - 1];
        assert(cs[m - 1] == LinearStepView::CloseIssue(y));
        let after = close_mirrors(db, true, y);
        lemma_done_is_not_open();
        lemma_kinds_differ();
        assert forall|j: int| #![trigger after[j]] 0 <= j < after.len() implies after[j].kind
            == dbn[j].kind && after[j].linear_issue_id == dbn[j].linear_issue_id && (dbn[j].kind
            == Some(linear_kind(false)) ==> after[j] == dbn[j]) by {
        }
        assert forall|j: int, i: int|
            0 <= j < after.len() && 0 <= i < issues.len() && #[trigger] mirrors(
                after[j],
                true,
                issues[i].issue_id,
            ) implies after[j] == dbn[j] by {
            assert(issue_ids(issues).contains(issues[i].issue_id));
            assert(issues[i].issue_id != y);
            assert(mirrors(db[j], true, issues[i].issue_id));
        }
        assert forall|j: int, c: int|
            0 <= j < after.len() && 0 <= c < m && #[trigger] mirrors(after[j], true, ks[c]) implies after[j].status
            != Some("open"@) by {
            assert(mirrors(db[j], true, ks[c]));
            if c < m - 1 {
                assert(db[j].status != Some("open"@));
                assert(after[j] == db[j]);
            } else if db[j].status == Some("open"@) {
                assert(after[j] == with_status(db[j], "done"@));
            }
        }
    }
}

/// The issue sync leaves the stored issue items settled, leaves the
/// notification items as they were, and adds only issue items.
pub proof fn lemma_issue_phase(
    db0: Seq<StoredItem>,
    notes: Seq<NotificationView>,
    issues: Seq<IssueView>,
    fresh: spec_fn(Seq<StoredItem>) -> int,
)
    requires
        issues.len() <= usize::MAX,
        issue_ids_distinct(issues),
    ensures
        ({
            let db2 = apply_linear_steps(
                db0,
                notes,
                issues,
                issue_plan_for(issues, stored_table(db0, true)),
                fresh,
            );
            &&& issues_settled(db2, issues)
            &&& db0.len() <= db2.len()
            &&& forall|j: int|
                #![trigger db2[j]]
                0 <= j < db0.len() ==> db2[j].kind == db0[j].kind && (db0[j].kind == Some(
                    linear_kind(false),
                ) ==> db2[j] == db0[j])
            &&& forall|j: int|
                #![trigger db2[j]]
                db0.len() <= j < db2.len() ==> db2[j].kind == Some(linear_kind(true))
        }),
{
    let t0 = stored_table(db0, true);
    let fetched = issue_ids(issues);
    lemma_stored_table(db0, true);
    lemma_keys_not_in(t0, fetched);
    let w = issue_writes(issues, t0);
    let ks = keys_not_in(t0, fetched);
    let cs = ks.map_values(|id: Seq<char>| LinearStepView::CloseIssue(id));
    lemma_steps_append(db0, notes, issues, w, cs, fresh);
    lemma_issues_writes(db0, notes, issues, issues.len() as int, fresh);
    assert(w.take(issues.len() as int) =~= w);
    let dbn = apply_linear_steps(db0, notes, issues, w, fresh);
    assert forall|c: int| 0 <= c < ks.len() implies !fetched.contains(#[trigger] ks[c]) by {
        assert(ks.contains(ks[c]));
    }
    lemma_issues_closes(dbn, notes, issues, ks, ks.len() as int, fresh);
    assert(cs.take(ks.len() as int) =~= cs);
    let db2 = apply_linear_steps(dbn, notes, issues, cs, fresh);
    assert(issue_plan_for(issues, t0) == w + cs);
    assert forall|i: int|
        #![trigger issues[i]]
        0 <= i < issues.len() implies exists|j: int|
            0 <= j < db2.len() && #[trigger] mirrors(db2[j], true, issues[i].issue_id) by {
        assert(has_mirror(dbn, true, issues[i].issue_id));
        let j = choose|j: int| 0 <= j < dbn.len() && #[trigger] mirrors(dbn[j], true, issues[i].issue_id);
        assert(db2[j].kind == dbn[j].kind);
        assert(mirrors(db2[j], true, issues[i].issue_id));
    }
    assert forall|j: int, i: int|
        0 <= j < db2.len() && 0 <= i < issues.len() && #[trigger] mirrors(db2[j], true, issues[i].issue_id)
            implies db2[j].status is Some && refreshed_issue(db2[j], issues[i], db2[j].status->0) == db2[j] by {
        assert(db2[j] == dbn[j]);
    }
    assert forall|j1: int, j2: int, i: int|
        0 <= j1 < db2.len() && 0 <= j2 < db2.len() && 0 <= i < issues.len() && #[trigger] mirrors(
            db2[j1],
            true,
            issues[i].issue_id,
        ) && #[trigger] mirrors(db2[j2], true, issues[i].issue_id) implies db2[j1].status
        == db2[j2].status by {
        assert(db2[j1] == dbn[j1]);
        assert(db2[j2] == dbn[j2]);
    }
    assert forall|j: int, x: Seq<char>|
        0 <= j < db2.len() && #[trigger] mirrors(db2[j], true, x) && !fetched.contains(x) implies db2[j].status
        != Some("open"@) by {
        assert(dbn[j].kind == db2[j].kind);
        if j < db0.len() {
            assert(mirrors(db0[j], true, x));
            assert(has_key(t0, x));
            assert(ks.contains(x));
            let c = choose|c: int| 0 <= c < ks.len() && ks[c] == x;
            assert(mirrors(db2[j], true, ks[c]));
        } else {
            assert(mirrors_issue_before(dbn[j], issues, issues.len() as int));
            let i = choose|i: int| 0 <= i < issues.len() && #[trigger] mirrors(dbn[j], true, issues[i].issue_id);
            assert(fetched.contains(issues[i].issue_id));
        }
    }
    assert forall|j: int|
        #![trigger db2[j]]
        0 <= j < db0.len() implies db2[j].kind == db0[j].kind && (db0[j].kind == Some(linear_kind(false))
            ==> db2[j] == db0[j]) by {
    }
    assert forall|j: int| #![trigger db2[j]] db0.len() <= j < db2.len() implies db2[j].kind == Some(
        linear_kind(true),
    ) by {
        assert(mirrors_issue_before(dbn[j], issues, issues.len() as int));
        assert(db2[j].kind == dbn[j].kind);
    }
}

/// A second Linear sync with the same answers from Linear changes nothing:
/// it inserts no item and changes no column of any item. This holds where the
/// fetched notifications have distinct ids and the kept issues have distinct
/// ids.
pub proof fn lemma_linear_sync_twice(
    db: Seq<StoredItem>,
    notes: Seq<NotificationView>,
    issues: Seq<IssueView>,
    fresh: spec_fn(Seq<StoredItem>) -> int,
)
    requires
        notes.len() <= usize::MAX,
        issues.len() <= usize::MAX,
        notification_ids_distinct(notes),
        issue_ids_distinct(issues),
    ensures
        linear_sync_effect(linear_sync_effect(db, notes, issues, fresh), notes, issues, fresh)
            == linear_sync_effect(db, notes, issues, fresh),
{
    let db1 = apply_linear_steps(
        db,
        notes,
        issues,
        notification_plan_for(notes, stored_table(db, false)),
        fresh,
    );
    lemma_notification_phase(db, notes, issues, fresh);
    let db2 = apply_linear_steps(
        db1,
        notes,
        issues,
        issue_plan_for(issues, stored_table(db1, true)),
        fresh,
    );
    lemma_issue_phase(db1, notes, issues, fresh);
    lemma_kinds_differ();
    assert(db2 == linear_sync_effect(db, notes, issues, fresh));
    assert forall|i: int|
        #![trigger notes[i]]
        0 <= i < notes.len() implies exists|j: int|
            0 <= j < db2.len() && #[trigger] mirrors(db2[j], false, notes[i].notification_id) by {
        let j = choose|j: int| 0 <= j < db1.len() && #[trigger] mirrors(db1[j], false, notes[i].notification_id);
        assert(db2[j] == db1[j]);
    }
    assert forall|j: int, i: int|
        0 <= j < db2.len() && 0 <= i < notes.len() && #[trigger] mirrors(
            db2[j],
            false,
            notes[i].notification_id,
        ) implies refreshed_notification(db2[j], notes[i]) == db2[j] by {
        if j >= db1.len() {
            assert(db2[j].kind == Some(linear_kind(true)));
        }
        assert(db2[j] == db1[j]);
        assert(mirrors(db1[j], false, notes[i].notification_id));
    }
    assert forall|j: int, x: Seq<char>|
        0 <= j < db2.len() && #[trigger] mirrors(db2[j], false, x) && !notification_ids(notes).contains(x)
            implies db2[j].status != Some("open"@) by {
        if j >= db1.len() {
            assert(db2[j].kind == Some(linear_kind(true)));
        }
        assert(db2[j] == db1[j]);
        assert(mirrors(db1[j], false, x));
    }
    lemma_settled_sync_is_fixed(db2, notes, issues, fresh);
}

} // verus!
