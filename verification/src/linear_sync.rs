//! Deciding how the stored Linear items follow the notifications and assigned
//! issues that Linear lists now.
use vstd::prelude::*;
use crate::linear::{
    issue_key, lemma_keys_agree, notification_key, FetchedLinearIssue, FetchedLinearNotification,
    IssueView, NotificationView, Stamped, views_of, lemma_views_push,
};
use crate::table::{
    distinct_keys, has_key, key_index, keys_not_in, lemma_first_index, lemma_key_index,
    lemma_keys_not_in, lemma_upsert_all, lemma_upserted, upsert_all, upserted, value_at,
};
use crate::text::{find_text, opt_text, text_is, text_or, text_or_empty};

verus! {

/// A stored Linear item: the remote id it mirrors (a notification's or an
/// issue's; `None` where the column could not be read) and its status.
#[derive(Clone, Debug, PartialEq, Eq)]
pub struct RemoteRow {
    pub remote_id: Option<String>,
    pub status: Option<String>,
}

/// A row as a table entry: an unreadable id counts as the empty id, a missing
/// status as "open".
pub open spec fn remote_entry(r: RemoteRow) -> (Seq<char>, Seq<char>) {
    (text_or_empty(opt_text(r.remote_id)), text_or(opt_text(r.status), "open"@))
}

/// The status of each stored item by remote id; where an id has several rows
/// the last one counts.
pub open spec fn remote_table(rows: Seq<RemoteRow>) -> Seq<(Seq<char>, Seq<char>)> {
    upsert_all(rows.map_values(|r: RemoteRow| remote_entry(r)))
}

/// One write of the Linear sync.
#[derive(Clone, Debug, PartialEq, Eq)]
pub enum LinearStep {
    /// Refresh the stored item of the fetched notification at this index; it
    /// stays done where it was done and is open otherwise.
    UpdateNotification(usize),
    /// Store the fetched notification at this index as a new open item on top.
    InsertNotification(usize),
    /// Mark the stored notification item with this id done, if it is open.
    CloseNotification(String),
    /// Refresh the stored item of the fetched issue at this index, writing back
    /// the given status.
    UpdateIssue(usize, String),
    /// Store the fetched issue at this index as a new open item on top.
    InsertIssue(usize),
    /// Mark the stored issue item with this id done, if it is open.
    CloseIssue(String),
}

pub enum LinearStepView {
    UpdateNotification(usize),
    InsertNotification(usize),
    CloseNotification(Seq<char>),
    UpdateIssue(usize, Seq<char>),
    InsertIssue(usize),
    CloseIssue(Seq<char>),
}

impl View for LinearStep {
    type V = LinearStepView;

    open spec fn view(&self) -> LinearStepView {
        match self {
            LinearStep::UpdateNotification(i) => LinearStepView::UpdateNotification(*i),
            LinearStep::InsertNotification(i) => LinearStepView::InsertNotification(*i),
            LinearStep::CloseNotification(id) => LinearStepView::CloseNotification(id@),
            LinearStep::UpdateIssue(i, st) => LinearStepView::UpdateIssue(*i, st@),
            LinearStep::InsertIssue(i) => LinearStepView::InsertIssue(*i),
            LinearStep::CloseIssue(id) => LinearStepView::CloseIssue(id@),
        }
    }
}

/// The ids of the fetched notifications.
pub open spec fn notification_ids(notes: Seq<NotificationView>) -> Set<Seq<char>> {
    Set::new(|id: Seq<char>| exists|i: int| 0 <= i < notes.len() && #[trigger] notes[i].notification_id == id)
}

/// The ids of the fetched issues.
pub open spec fn issue_ids(issues: Seq<IssueView>) -> Set<Seq<char>> {
    Set::new(|id: Seq<char>| exists|i: int| 0 <= i < issues.len() && #[trigger] issues[i].issue_id == id)
}

/// An update for each fetched notification that the table of stored ones
/// holds and an insert for each that it does not, in order.
pub open spec fn notification_writes(
    notes: Seq<NotificationView>,
    t: Seq<(Seq<char>, Seq<char>)>,
) -> Seq<LinearStepView> {
    Seq::new(
        notes.len(),
        |i: int|
            if has_key(t, notes[i].notification_id) {
                LinearStepView::UpdateNotification(i as usize)
            } else {
                LinearStepView::InsertNotification(i as usize)
            },
    )
}

/// The writes for the fetched notifications, then a close for each stored
/// one that Linear no longer lists.
pub open spec fn notification_plan_for(
    notes: Seq<NotificationView>,
    t: Seq<(Seq<char>, Seq<char>)>,
) -> Seq<LinearStepView> {
    notification_writes(notes, t) + keys_not_in(t, notification_ids(notes)).map_values(
        |id: Seq<char>| LinearStepView::CloseNotification(id),
    )
}

/// The notification plan for the stored rows read.
pub open spec fn notification_sync_plan(notes: Seq<NotificationView>, rows: Seq<RemoteRow>) -> Seq<
    LinearStepView,
> {
    notification_plan_for(notes, remote_table(rows))
}

/// An update carrying the stored status for each fetched issue that the table
/// of stored ones holds and an insert for each that it does not, in order.
pub open spec fn issue_writes(issues: Seq<IssueView>, t: Seq<(Seq<char>, Seq<char>)>) -> Seq<
    LinearStepView,
> {
    Seq::new(
        issues.len(),
        |i: int|
            if has_key(t, issues[i].issue_id) {
                LinearStepView::UpdateIssue(i as usize, value_at(t, issues[i].issue_id))
            } else {
                LinearStepView::InsertIssue(i as usize)
            },
    )
}

/// The writes for the fetched issues, then a close for each stored one that
/// is no longer listed.
pub open spec fn issue_plan_for(issues: Seq<IssueView>, t: Seq<(Seq<char>, Seq<char>)>) -> Seq<
    LinearStepView,
> {
    issue_writes(issues, t) + keys_not_in(t, issue_ids(issues)).map_values(
        |id: Seq<char>| LinearStepView::CloseIssue(id),
    )
}

/// The issue plan for the stored rows read.
pub open spec fn issue_sync_plan(issues: Seq<IssueView>, rows: Seq<RemoteRow>) -> Seq<
    LinearStepView,
> {
    issue_plan_for(issues, remote_table(rows))
}

/// Some notification shares the issue's key, so the issue shows through it.
pub open spec fn covered_by_notification(notes: Seq<NotificationView>, i: IssueView) -> bool {
    exists|k: int|
        0 <= k < notes.len() && #[trigger] FetchedLinearNotification::key_view(notes[k])
            == issue_key(i.identifier, i.issue_id)
}

/// The issues that no notification covers, in order.
pub open spec fn uncovered_issues(notes: Seq<NotificationView>, issues: Seq<IssueView>) -> Seq<
    IssueView,
>
    decreases issues.len(),
{
    if issues.len() == 0 {
        Seq::empty()
    } else {
        let p = uncovered_issues(notes, issues.drop_last());
        if covered_by_notification(notes, issues.last()) {
            p
        } else {
            p.push(issues.last())
        }
    }
}

struct RemoteTable {
    keys: Vec<String>,
    statuses: Vec<String>,
}

impl RemoteTable {
    spec fn entries(&self) -> Seq<(Seq<char>, Seq<char>)> {
        Seq::new(self.keys@.len(), |i: int| (self.keys@[i]@, self.statuses@[i]@))
    }

    fn lookup(&self, id: &str) -> (r: Option<usize>)
        requires
            self.keys@.len() == self.statuses@.len(),
        ensures
            match r {
                Some(j) => key_index(self.entries(), id@) == Some(j as int) && j
                    < self.statuses@.len(),
                None => key_index(self.entries(), id@) is None,
            },
    {
        let found = find_text(&self.keys, id);
        proof {
            let t = self.entries();
            match found {
                Some(j) => {
                    assert forall|i: int| 0 <= i < j implies #[trigger] t[i].0 != id@ by {
                        assert(t[i].0 == self.keys@[i]@);
                    }
                    lemma_first_index(t, id@, j as int);
                },
                None => {
                    lemma_key_index(t, id@);
                    if key_index(t, id@) is Some {
                        let j = key_index(t, id@)->0;
                        assert(t[j].0 == self.keys@[j]@);
                    }
                },
            }
        }
        found
    }
}

fn build_remote_table(rows: &Vec<RemoteRow>) -> (t: RemoteTable)
    ensures
        t.keys@.len() == t.statuses@.len(),
        t.entries() == remote_table(rows@),
{
    let ghost entries = rows@.map_values(|r: RemoteRow| remote_entry(r));
    let mut t = RemoteTable { keys: Vec::new(), statuses: Vec::new() };
    let n = rows.len();
    let mut i: usize = 0;
    assert(entries.take(0) =~= Seq::<(Seq<char>, Seq<char>)>::empty());
    assert(t.entries() =~= Seq::<(Seq<char>, Seq<char>)>::empty());
    while i < n
        invariant
            i <= n,
            n == rows@.len(),
            entries == rows@.map_values(|r: RemoteRow| remote_entry(r)),
            t.keys@.len() == t.statuses@.len(),
            t.entries() == upsert_all(entries.take(i as int)),
        decreases n - i,
    {
        assert(entries.take(i + 1).drop_last() =~= entries.take(i as int));
        let key = match &rows[i].remote_id {
            Some(s) => s.clone(),
            None => String::new(),
        };
        let status = match &rows[i].status {
            Some(s) => s.clone(),
            None => String::from_str("open"),
        };
        assert(entries[i as int] == (key@, status@));
        let ghost t0 = t.entries();
        match t.lookup(key.as_str()) {
            Some(j) => {
                proof {
                    lemma_key_index(t0, key@);
                }
                t.statuses.set(j, status);
                assert(t.entries() =~= t0.update(j as int, (key@, status@)));
            },
            None => {
                t.keys.push(key);
                t.statuses.push(status);
                assert(t.entries() =~= t0.push((key@, status@)));
            },
        }
        i = i + 1;
    }
    assert(entries.take(n as int) =~= entries);
    t
}

fn holds_notification_id(notes: &Vec<FetchedLinearNotification>, id: &str) -> (r: bool)
    ensures
        r == notification_ids(views_of(notes@)).contains(id@),
{
    let n = notes.len();
    let mut i: usize = 0;
    while i < n
        invariant
            i <= n,
            n == notes@.len(),
            forall|k: int| 0 <= k < i ==> #[trigger] notes@[k].notification_id@ != id@,
        decreases n - i,
    {
        if text_is(notes[i].notification_id.as_str(), id) {
            assert(views_of(notes@)[i as int].notification_id == id@);
            return true;
        }
        i = i + 1;
    }
    assert forall|k: int| 0 <= k < views_of(notes@).len() implies #[trigger] views_of(
        notes@,
    )[k].notification_id != id@ by {
        assert(notes@[k].notification_id@ != id@);
    }
    false
}

fn holds_issue_id(issues: &Vec<FetchedLinearIssue>, id: &str) -> (r: bool)
    ensures
        r == issue_ids(views_of(issues@)).contains(id@),
{
    let n = issues.len();
    let mut i: usize = 0;
    while i < n
        invariant
            i <= n,
            n == issues@.len(),
            forall|k: int| 0 <= k < i ==> #[trigger] issues@[k].issue_id@ != id@,
        decreases n - i,
    {
        if text_is(issues[i].issue_id.as_str(), id) {
            assert(views_of(issues@)[i as int].issue_id == id@);
            return true;
        }
        i = i + 1;
    }
    assert forall|k: int| 0 <= k < views_of(issues@).len() implies #[trigger] views_of(
        issues@,
    )[k].issue_id != id@ by {
        assert(issues@[k].issue_id@ != id@);
    }
    false
}

/// The writes that bring the stored notification items in line with the
/// notifications Linear lists now: each fetched notification is updated where
/// it is stored and inserted where it is not; each stored one that is no longer
/// listed is closed.
pub fn plan_notification_sync(notes: &Vec<FetchedLinearNotification>, rows: &Vec<RemoteRow>) -> (plan:
    Vec<LinearStep>)
    ensures
        views_of(plan@) == notification_sync_plan(views_of(notes@), rows@),
{
    let t = build_remote_table(rows);
    let ghost tv = t.entries();
    let ghost nv = views_of(notes@);
    let ghost ups = Seq::new(
        nv.len(),
        |i: int|
            if has_key(tv, nv[i].notification_id) {
                LinearStepView::UpdateNotification(i as usize)
            } else {
                LinearStepView::InsertNotification(i as usize)
            },
    );
    let mut plan: Vec<LinearStep> = Vec::new();
    let n = notes.len();
    let mut i: usize = 0;
    while i < n
        invariant
            i <= n,
            n == notes@.len(),
            t.keys@.len() == t.statuses@.len(),
            tv == t.entries(),
            nv == views_of(notes@),
            ups.len() == nv.len(),
            forall|k: int| 0 <= k < nv.len() ==> #[trigger] ups[k] == (if has_key(tv, nv[k].notification_id) {
                LinearStepView::UpdateNotification(k as usize)
            } else {
                LinearStepView::InsertNotification(k as usize)
            }),
            views_of(plan@) == ups.take(i as int),
        decreases n - i,
    {
        proof {
            lemma_key_index(tv, nv[i as int].notification_id);
        }
        let ghost before = plan@;
        let step = match t.lookup(notes[i].notification_id.as_str()) {
            Some(_) => LinearStep::UpdateNotification(i),
            None => LinearStep::InsertNotification(i),
        };
        plan.push(step);
        proof {
            lemma_views_push(before, step);
        }
        assert(views_of(plan@) =~= ups.take(i + 1));
        i = i + 1;
    }
    assert(ups.take(n as int) =~= ups);
    let ghost fetched = notification_ids(nv);
    let ghost closes = keys_not_in(tv, fetched).map_values(
        |id: Seq<char>| LinearStepView::CloseNotification(id),
    );
    let m = t.keys.len();
    let mut k: usize = 0;
    assert(tv.take(0) =~= Seq::<(Seq<char>, Seq<char>)>::empty());
    assert(views_of(plan@) =~= ups + keys_not_in(tv.take(0), fetched).map_values(
        |id: Seq<char>| LinearStepView::CloseNotification(id),
    ));
    while k < m
        invariant
            k <= m,
            m == t.keys@.len(),
            t.keys@.len() == t.statuses@.len(),
            tv == t.entries(),
            nv == views_of(notes@),
            fetched == notification_ids(nv),
            views_of(plan@) == ups + keys_not_in(tv.take(k as int), fetched).map_values(
                |id: Seq<char>| LinearStepView::CloseNotification(id),
            ),
        decreases m - k,
    {
        assert(tv.take(k + 1).drop_last() =~= tv.take(k as int));
        assert(tv.take(k + 1).last() == tv[k as int]);
        let ghost before = plan@;
        if !holds_notification_id(notes, t.keys[k].as_str()) {
            let step = LinearStep::CloseNotification(t.keys[k].clone());
            plan.push(step);
            proof {
                lemma_views_push(before, step);
            }
        }
        assert(views_of(plan@) =~= ups + keys_not_in(tv.take(k + 1), fetched).map_values(
            |id: Seq<char>| LinearStepView::CloseNotification(id),
        ));
        k = k + 1;
    }
    assert(tv.take(m as int) =~= tv);
    plan
}

/// The writes that bring the stored issue items in line with the issues that
/// are assigned now: each fetched issue is updated, keeping its stored status,
/// where it is stored and inserted where it is not; each stored one that is no
/// longer listed is closed.
pub fn plan_issue_sync(issues: &Vec<FetchedLinearIssue>, rows: &Vec<RemoteRow>) -> (plan: Vec<
    LinearStep,
>)
    ensures
        views_of(plan@) == issue_sync_plan(views_of(issues@), rows@),
{
    let t = build_remote_table(rows);
    let ghost tv = t.entries();
    let ghost iv = views_of(issues@);
    let ghost ups = Seq::new(
        iv.len(),
        |i: int|
            if has_key(tv, iv[i].issue_id) {
                LinearStepView::UpdateIssue(i as usize, value_at(tv, iv[i].issue_id))
            } else {
                LinearStepView::InsertIssue(i as usize)
            },
    );
    let mut plan: Vec<LinearStep> = Vec::new();
    let n = issues.len();
    let mut i: usize = 0;
    while i < n
        invariant
            i <= n,
            n == issues@.len(),
            t.keys@.len() == t.statuses@.len(),
            tv == t.entries(),
            iv == views_of(issues@),
            ups.len() == iv.len(),
            forall|k: int| 0 <= k < iv.len() ==> #[trigger] ups[k] == (if has_key(tv, iv[k].issue_id) {
                LinearStepView::UpdateIssue(k as usize, value_at(tv, iv[k].issue_id))
            } else {
                LinearStepView::InsertIssue(k as usize)
            }),
            views_of(plan@) == ups.take(i as int),
        decreases n - i,
    {
        proof {
            lemma_key_index(tv, iv[i as int].issue_id);
        }
        let ghost before = plan@;
        let step = match t.lookup(issues[i].issue_id.as_str()) {
            Some(j) => LinearStep::UpdateIssue(i, t.statuses[j].clone()),
            None => LinearStep::InsertIssue(i),
        };
        plan.push(step);
        proof {
            lemma_views_push(before, step);
        }
        assert(views_of(plan@) =~= ups.take(i + 1));
        i = i + 1;
    }
    assert(ups.take(n as int) =~= ups);
    let ghost fetched = issue_ids(iv);
    let m = t.keys.len();
    let mut k: usize = 0;
    assert(tv.take(0) =~= Seq::<(Seq<char>, Seq<char>)>::empty());
    assert(views_of(plan@) =~= ups + keys_not_in(tv.take(0), fetched).map_values(
        |id: Seq<char>| LinearStepView::CloseIssue(id),
    ));
    while k < m
        invariant
            k <= m,
            m == t.keys@.len(),
            t.keys@.len() == t.statuses@.len(),
            tv == t.entries(),
            iv == views_of(issues@),
            fetched == issue_ids(iv),
            views_of(plan@) == ups + keys_not_in(tv.take(k as int), fetched).map_values(
                |id: Seq<char>| LinearStepView::CloseIssue(id),
            ),
        decreases m - k,
    {
        assert(tv.take(k + 1).drop_last() =~= tv.take(k as int));
        assert(tv.take(k + 1).last() == tv[k as int]);
        let ghost before = plan@;
        if !holds_issue_id(issues, t.keys[k].as_str()) {
            let step = LinearStep::CloseIssue(t.keys[k].clone());
            plan.push(step);
            proof {
                lemma_views_push(before, step);
            }
        }
        assert(views_of(plan@) =~= ups + keys_not_in(tv.take(k + 1), fetched).map_values(
            |id: Seq<char>| LinearStepView::CloseIssue(id),
        ));
        k = k + 1;
    }
    assert(tv.take(m as int) =~= tv);
    plan
}

/// The assigned issues that no fetched notification covers, in order: an
/// issue covered by a notification shows through that notification only.
pub fn issues_without_notification(
    notes: &Vec<FetchedLinearNotification>,
    issues: &Vec<FetchedLinearIssue>,
) -> (r: Vec<FetchedLinearIssue>)
    ensures
        views_of(r@) == uncovered_issues(views_of(notes@), views_of(issues@)),
{
    let ghost nv = views_of(notes@);
    let ghost iv = views_of(issues@);
    let mut keys: Vec<String> = Vec::new();
    let n = notes.len();
    let mut i: usize = 0;
    while i < n
        invariant
            i <= n,
            n == notes@.len(),
            nv == views_of(notes@),
            keys@.len() == i,
            forall|k: int| 0 <= k < i ==> #[trigger] keys@[k]@ == FetchedLinearNotification::key_view(
                nv[k],
            ),
        decreases n - i,
    {
        keys.push(notes[i].key());
        i = i + 1;
    }
    let mut r: Vec<FetchedLinearIssue> = Vec::new();
    let m = issues.len();
    let mut j: usize = 0;
    assert(iv.take(0) =~= Seq::<IssueView>::empty());
    assert(views_of(r@) =~= Seq::<IssueView>::empty());
    while j < m
        invariant
            j <= m,
            m == issues@.len(),
            nv == views_of(notes@),
            iv == views_of(issues@),
            keys@.len() == nv.len(),
            forall|k: int| 0 <= k < nv.len() ==> #[trigger] keys@[k]@ == FetchedLinearNotification::key_view(
                nv[k],
            ),
            views_of(r@) == uncovered_issues(nv, iv.take(j as int)),
        decreases m - j,
    {
        assert(iv.take(j + 1).drop_last() =~= iv.take(j as int));
        assert(iv.take(j + 1).last() == iv[j as int]);
        let key = issues[j].key();
        match find_text(&keys, key.as_str()) {
            Some(w) => {
                assert(FetchedLinearNotification::key_view(nv[w as int]) == key@);
                assert(covered_by_notification(nv, iv[j as int]));
            },
            None => {
                assert forall|k: int| 0 <= k < nv.len() implies #[trigger] FetchedLinearNotification::key_view(nv[k])
                    != issue_key(iv[j as int].identifier, iv[j as int].issue_id) by {
                    assert(keys@[k]@ != key@);
                }
                let c = issues[j].copied();
                r.push(c);
                assert(views_of(r@) =~= uncovered_issues(nv, iv.take(j as int)).push(iv[j as int]));
            },
        }
        j = j + 1;
    }
    assert(iv.take(m as int) =~= iv);
    r
}

/// A remote id has an entry in the table exactly when some row carries it,
/// and the entry holds the status of the last such row.
pub proof fn lemma_remote_table(rows: Seq<RemoteRow>)
    ensures
        distinct_keys(remote_table(rows)),
        forall|id: Seq<char>|
            has_key(remote_table(rows), id) <==> exists|r: int|
                0 <= r < rows.len() && #[trigger] remote_entry(rows[r]).0 == id,
        forall|id: Seq<char>|
            has_key(remote_table(rows), id) ==> exists|r: int|
                0 <= r < rows.len() && #[trigger] remote_entry(rows[r]).0 == id && value_at(
                    remote_table(rows),
                    id,
                ) == remote_entry(rows[r]).1 && forall|u: int|
                    r < u < rows.len() ==> #[trigger] remote_entry(rows[u]).0 != id,
{
    let e = rows.map_values(|r: RemoteRow| remote_entry(r));
    lemma_upsert_all(e);
    assert forall|id: Seq<char>|
        has_key(remote_table(rows), id) <==> exists|r: int|
            0 <= r < rows.len() && #[trigger] remote_entry(rows[r]).0 == id by {
        if has_key(remote_table(rows), id) {
            let r = choose|r: int| 0 <= r < e.len() && #[trigger] e[r].0 == id;
            assert(remote_entry(rows[r]).0 == id);
        }
        if exists|r: int| 0 <= r < rows.len() && #[trigger] remote_entry(rows[r]).0 == id {
            let r = choose|r: int| 0 <= r < rows.len() && #[trigger] remote_entry(rows[r]).0 == id;
            assert(e[r].0 == id);
        }
    }
    assert forall|id: Seq<char>| has_key(remote_table(rows), id) implies exists|r: int|
        0 <= r < rows.len() && #[trigger] remote_entry(rows[r]).0 == id && value_at(
            remote_table(rows),
            id,
        ) == remote_entry(rows[r]).1 && forall|u: int|
            r < u < rows.len() ==> #[trigger] remote_entry(rows[u]).0 != id by {
        let r = choose|r: int|
            0 <= r < e.len() && #[trigger] e[r].0 == id && value_at(upsert_all(e), id) == e[r].1
                && forall|j: int| r < j < e.len() ==> #[trigger] e[j].0 != id;
        assert(remote_entry(rows[r]) == e[r]);
        assert forall|u: int| r < u < rows.len() implies #[trigger] remote_entry(rows[u]).0 != id by {
            assert(e[u] == remote_entry(rows[u]));
        }
    }
}

/// The notification sync updates each fetched notification that some stored
/// row carries and inserts each other one, once each and in order; after that
/// it closes, once each, exactly the stored notifications that Linear no
/// longer lists. A listed notification is never closed.
pub proof fn lemma_notification_sync_plan(notes: Seq<NotificationView>, rows: Seq<RemoteRow>)
    ensures
        notification_sync_plan(notes, rows).len() >= notes.len(),
        forall|i: int|
            0 <= i < notes.len() ==> #[trigger] notification_sync_plan(notes, rows)[i] == (if exists|r: int|
                0 <= r < rows.len() && #[trigger] remote_entry(rows[r]).0 == notes[i].notification_id {
                LinearStepView::UpdateNotification(i as usize)
            } else {
                LinearStepView::InsertNotification(i as usize)
            }),
        forall|id: Seq<char>|
            (exists|k: int|
                notes.len() <= k < notification_sync_plan(notes, rows).len()
                    && #[trigger] notification_sync_plan(notes, rows)[k]
                    == LinearStepView::CloseNotification(id)) <==> ((exists|r: int|
                0 <= r < rows.len() && #[trigger] remote_entry(rows[r]).0 == id)
                && !notification_ids(notes).contains(id)),
        forall|k: int|
            notes.len() <= k < notification_sync_plan(notes, rows).len() ==> (
            #[trigger] notification_sync_plan(notes, rows)[k]) is CloseNotification,
        forall|i: int, j: int|
            notes.len() <= i < notification_sync_plan(notes, rows).len() && notes.len() <= j
                < notification_sync_plan(notes, rows).len() && i != j ==> #[trigger] notification_sync_plan(
                notes,
                rows,
            )[i] != #[trigger] notification_sync_plan(notes, rows)[j],
{
    let t = remote_table(rows);
    lemma_remote_table(rows);
    let f = notification_ids(notes);
    lemma_keys_not_in(t, f);
    let c = keys_not_in(t, f);
    let plan = notification_sync_plan(notes, rows);
    let m = notes.len();
    let closes = c.map_values(|id: Seq<char>| LinearStepView::CloseNotification(id));
    assert(plan == notification_writes(notes, t) + closes);
    assert forall|k: int| m <= k < plan.len() implies #[trigger] plan[k]
        == LinearStepView::CloseNotification(c[k - m]) by {
        assert(plan[k] == closes[k - m]);
    }
    assert forall|id: Seq<char>|
        (exists|k: int| m <= k < notification_sync_plan(notes, rows).len() && #[trigger] notification_sync_plan(notes, rows)[k] == LinearStepView::CloseNotification(id))
            <==> ((exists|r: int| 0 <= r < rows.len() && #[trigger] remote_entry(rows[r]).0 == id)
            && !notification_ids(notes).contains(id)) by {
        if exists|k: int| m <= k < notification_sync_plan(notes, rows).len() && #[trigger] notification_sync_plan(notes, rows)[k] == LinearStepView::CloseNotification(id) {
            let k = choose|k: int| m <= k < notification_sync_plan(notes, rows).len() && #[trigger] notification_sync_plan(notes, rows)[k] == LinearStepView::CloseNotification(id);
            assert(plan[k] == LinearStepView::CloseNotification(c[k - m]));
            assert(c[k - m] == id);
            assert(0 <= k - m < c.len());
            assert(c.contains(id));
            assert(has_key(t, id) && !f.contains(id));
        }
        if (exists|r: int| 0 <= r < rows.len() && #[trigger] remote_entry(rows[r]).0 == id) && !notification_ids(notes).contains(id) {
            assert(has_key(t, id));
            assert(c.contains(id));
            let q = choose|q: int| 0 <= q < c.len() && c[q] == id;
            assert(notification_sync_plan(notes, rows)[q + m] == LinearStepView::CloseNotification(id));
        }
    }
    assert forall|i: int, j: int| m <= i < plan.len() && m <= j < plan.len() && i != j implies #[trigger] plan[i]
        != #[trigger] plan[j] by {
        assert(c[i - m] != c[j - m]);
    }
}

/// The issue sync updates each fetched issue that some stored row carries,
/// writing back the status of the last such row, and inserts each other one,
/// once each and in order; after that it closes, once each, exactly the stored
/// issues that are no longer listed.
pub proof fn lemma_issue_sync_plan(issues: Seq<IssueView>, rows: Seq<RemoteRow>)
    ensures
        issue_sync_plan(issues, rows).len() >= issues.len(),
        forall|i: int|
            0 <= i < issues.len() ==> ((exists|r: int|
                0 <= r < rows.len() && #[trigger] remote_entry(rows[r]).0 == issues[i].issue_id)
                ==> exists|r: int|
                0 <= r < rows.len() && #[trigger] remote_entry(rows[r]).0 == issues[i].issue_id
                    && #[trigger] issue_sync_plan(issues, rows)[i] == LinearStepView::UpdateIssue(
                    i as usize,
                    remote_entry(rows[r]).1,
                ) && forall|u: int|
                    r < u < rows.len() ==> #[trigger] remote_entry(rows[u]).0 != issues[i].issue_id),
        forall|i: int|
            0 <= i < issues.len() ==> (!(exists|r: int|
                0 <= r < rows.len() && #[trigger] remote_entry(rows[r]).0 == issues[i].issue_id)
                ==> #[trigger] issue_sync_plan(issues, rows)[i] == LinearStepView::InsertIssue(
                i as usize,
            )),
        forall|id: Seq<char>|
            (exists|k: int|
                issues.len() <= k < issue_sync_plan(issues, rows).len() && #[trigger] issue_sync_plan(
                    issues,
                    rows,
                )[k] == LinearStepView::CloseIssue(id)) <==> ((exists|r: int|
                0 <= r < rows.len() && #[trigger] remote_entry(rows[r]).0 == id) && !issue_ids(
                issues,
            ).contains(id)),
        forall|k: int|
            issues.len() <= k < issue_sync_plan(issues, rows).len() ==> (#[trigger] issue_sync_plan(
                issues,
                rows,
            )[k]) is CloseIssue,
        forall|i: int, j: int|
            issues.len() <= i < issue_sync_plan(issues, rows).len() && issues.len() <= j
                < issue_sync_plan(issues, rows).len() && i != j ==> #[trigger] issue_sync_plan(
                issues,
                rows,
            )[i] != #[trigger] issue_sync_plan(issues, rows)[j],
{
    let t = remote_table(rows);
    lemma_remote_table(rows);
    let f = issue_ids(issues);
    lemma_keys_not_in(t, f);
    let c = keys_not_in(t, f);
    let plan = issue_sync_plan(issues, rows);
    let m = issues.len();
    assert forall|i: int|
        0 <= i < m implies ((exists|r: int|
            0 <= r < rows.len() && #[trigger] remote_entry(rows[r]).0 == issues[i].issue_id) ==> exists|r: int|
            0 <= r < rows.len() && #[trigger] remote_entry(rows[r]).0 == issues[i].issue_id
                && #[trigger] plan[i] == LinearStepView::UpdateIssue(i as usize, remote_entry(rows[r]).1)
                && forall|u: int| r < u < rows.len() ==> #[trigger] remote_entry(rows[u]).0 != issues[i].issue_id) by {
        if exists|r: int| 0 <= r < rows.len() && #[trigger] remote_entry(rows[r]).0 == issues[i].issue_id {
            assert(has_key(t, issues[i].issue_id));
            let r = choose|r: int|
                0 <= r < rows.len() && #[trigger] remote_entry(rows[r]).0 == issues[i].issue_id && value_at(t, issues[i].issue_id)
                    == remote_entry(rows[r]).1 && forall|u: int|
                    r < u < rows.len() ==> #[trigger] remote_entry(rows[u]).0 != issues[i].issue_id;
            assert(plan[i] == LinearStepView::UpdateIssue(i as usize, remote_entry(rows[r]).1));
        }
    }
    assert forall|k: int| m <= k < plan.len() implies #[trigger] plan[k]
        == LinearStepView::CloseIssue(c[k - m]) by {}
    assert forall|id: Seq<char>|
        (exists|k: int| m <= k < plan.len() && #[trigger] plan[k] == LinearStepView::CloseIssue(id))
            <==> ((exists|r: int| 0 <= r < rows.len() && #[trigger] remote_entry(rows[r]).0 == id)
            && !f.contains(id)) by {
        if exists|k: int| m <= k < plan.len() && #[trigger] plan[k] == LinearStepView::CloseIssue(id) {
            let k = choose|k: int| m <= k < plan.len() && #[trigger] plan[k] == LinearStepView::CloseIssue(id);
            assert(c[k - m] == id);
            assert(c.contains(id));
        }
        if (exists|r: int| 0 <= r < rows.len() && #[trigger] remote_entry(rows[r]).0 == id) && !f.contains(id) {
            assert(has_key(t, id));
            assert(c.contains(id));
            let q = choose|q: int| 0 <= q < c.len() && c[q] == id;
            assert(plan[q + m] == LinearStepView::CloseIssue(id));
        }
    }
    assert forall|i: int, j: int| m <= i < plan.len() && m <= j < plan.len() && i != j implies #[trigger] plan[i]
        != #[trigger] plan[j] by {
        assert(c[i - m] != c[j - m]);
    }
}

/// An assigned issue is listed on its own exactly when no fetched
/// notification names the same issue (the same non-empty identifier or, where
/// neither has one, the same non-empty issue id); the listed ones keep their
/// order.
pub proof fn lemma_uncovered_issues(notes: Seq<NotificationView>, issues: Seq<IssueView>)
    ensures
        forall|x: IssueView|
            #![trigger uncovered_issues(notes, issues).contains(x)]
            uncovered_issues(notes, issues).contains(x) ==> issues.contains(x)
                && !covered_by_notification(notes, x),
        forall|k: int|
            0 <= k < issues.len() && !covered_by_notification(notes, #[trigger] issues[k])
                ==> uncovered_issues(notes, issues).contains(issues[k]),
        forall|x: IssueView|
            covered_by_notification(notes, x) <==> exists|k: int|
                0 <= k < notes.len() && {
                    ||| (#[trigger] notes[k]).identifier is Some && notes[k].identifier->0.len() > 0
                        && notes[k].identifier->0 == x.identifier
                    ||| !(notes[k].identifier is Some && notes[k].identifier->0.len() > 0)
                        && notes[k].issue_id is Some && notes[k].issue_id->0.len() > 0
                        && x.identifier.len() == 0 && notes[k].issue_id->0 == x.issue_id
                },
    decreases issues.len(),
{
    assert forall|x: IssueView|
        covered_by_notification(notes, x) <==> exists|k: int|
            0 <= k < notes.len() && {
                ||| (#[trigger] notes[k]).identifier is Some && notes[k].identifier->0.len() > 0
                    && notes[k].identifier->0 == x.identifier
                ||| !(notes[k].identifier is Some && notes[k].identifier->0.len() > 0)
                    && notes[k].issue_id is Some && notes[k].issue_id->0.len() > 0
                    && x.identifier.len() == 0 && notes[k].issue_id->0 == x.issue_id
            } by {
        assert forall|k: int| 0 <= k < notes.len() implies (FetchedLinearNotification::key_view(
            #[trigger] notes[k],
        ) == issue_key(x.identifier, x.issue_id) <==> {
            ||| notes[k].identifier is Some && notes[k].identifier->0.len() > 0
                && notes[k].identifier->0 == x.identifier
            ||| !(notes[k].identifier is Some && notes[k].identifier->0.len() > 0)
                && notes[k].issue_id is Some && notes[k].issue_id->0.len() > 0
                && x.identifier.len() == 0 && notes[k].issue_id->0 == x.issue_id
        }) by {
            lemma_keys_agree(
                notes[k].identifier,
                notes[k].issue_id,
                notes[k].notification_id,
                x.identifier,
                x.issue_id,
            );
        }
        if covered_by_notification(notes, x) {
            let k = choose|k: int|
                0 <= k < notes.len() && #[trigger] FetchedLinearNotification::key_view(notes[k])
                    == issue_key(x.identifier, x.issue_id);
            assert(notes[k] == notes[k]);
        }
    }
    if issues.len() > 0 {
        let d = issues.drop_last();
        lemma_uncovered_issues(notes, d);
        let p = uncovered_issues(notes, d);
        let u = uncovered_issues(notes, issues);
        let n = issues.len() - 1;
        assert forall|x: IssueView| u.contains(x) implies issues.contains(x) && !covered_by_notification(notes, x) by {
            let i = choose|i: int| 0 <= i < u.len() && u[i] == x;
            if i < p.len() {
                assert(p[i] == u[i]);
                assert(p.contains(x));
                let j = choose|j: int| 0 <= j < d.len() && d[j] == x;
                assert(issues[j] == x);
            } else {
                assert(issues[n] == x);
            }
        }
        assert forall|k: int| 0 <= k < issues.len() && !covered_by_notification(notes, #[trigger] issues[k])
            implies u.contains(issues[k]) by {
            if k < n {
                assert(d[k] == issues[k]);
                assert(p.contains(d[k]));
                let i = choose|i: int| 0 <= i < p.len() && p[i] == d[k];
                assert(u[i] == p[i]);
            } else {
                assert(u[p.len() as int] == issues[k]);
            }
        }
    }
}

} // verus!
