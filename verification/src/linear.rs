//! Linear notifications and assigned issues: the keys that identify the issue
//! an entry is about, and reading the API's lists into one entry per issue,
//! the most recently updated.
use vstd::prelude::*;
use crate::table::{key_index, lemma_first_index, lemma_key_index};
use crate::text::{
    copy_opt_text, find_text, opt_as_str, opt_str, opt_text, text_at_least, text_ge, text_is_empty, text_lt,
    text_of, text_or_empty, trim_text, trimmed,
};

verus! {

/// The key under which a notification is merged with others about the same
/// issue: the issue's identifier where it has one, else the issue's id, else
/// the notification's own id. Empty values count as missing.
pub open spec fn notification_key(
    identifier: Option<Seq<char>>,
    issue_id: Option<Seq<char>>,
    notification_id: Seq<char>,
) -> Seq<char> {
    if identifier is Some && identifier->0.len() > 0 {
        "issue:"@ + identifier->0
    } else if issue_id is Some && issue_id->0.len() > 0 {
        "issue-id:"@ + issue_id->0
    } else {
        "notification:"@ + notification_id
    }
}

/// The key of an assigned issue: its identifier, or its id where the
/// identifier is empty.
pub open spec fn issue_key(identifier: Seq<char>, issue_id: Seq<char>) -> Seq<char> {
    if identifier.len() > 0 {
        "issue:"@ + identifier
    } else {
        "issue-id:"@ + issue_id
    }
}

/// The key that merges a notification with others about the same issue.
pub fn linear_notification_dedup_key(
    identifier: Option<&str>,
    issue_id: Option<&str>,
    notification_id: &str,
) -> (key: String)
    ensures
        key@ == notification_key(opt_str(identifier), opt_str(issue_id), notification_id@),
{
    if let Some(v) = identifier {
        if !text_is_empty(v) {
            let mut key = String::from_str("issue:");
            key.append(v);
            return key;
        }
    }
    if let Some(v) = issue_id {
        if !text_is_empty(v) {
            let mut key = String::from_str("issue-id:");
            key.append(v);
            return key;
        }
    }
    let mut key = String::from_str("notification:");
    key.append(notification_id);
    key
}

/// The key of an assigned issue.
pub fn linear_issue_dedup_key(identifier: &str, issue_id: &str) -> (key: String)
    ensures
        key@ == issue_key(identifier@, issue_id@),
{
    if !text_is_empty(identifier) {
        let mut key = String::from_str("issue:");
        key.append(identifier);
        key
    } else {
        let mut key = String::from_str("issue-id:");
        key.append(issue_id);
        key
    }
}

/// A notification's key and an issue's key agree exactly when both name the
/// same issue: by the same non-empty identifier, or, where neither carries an
/// identifier, by the same non-empty issue id.
pub proof fn lemma_keys_agree(
    identifier: Option<Seq<char>>,
    issue_id: Option<Seq<char>>,
    notification_id: Seq<char>,
    issue_identifier: Seq<char>,
    issue_issue_id: Seq<char>,
)
    ensures
        notification_key(identifier, issue_id, notification_id) == issue_key(
            issue_identifier,
            issue_issue_id,
        ) <==> {
            ||| identifier is Some && identifier->0.len() > 0 && identifier->0 == issue_identifier
            ||| !(identifier is Some && identifier->0.len() > 0) && issue_id is Some
                && issue_id->0.len() > 0 && issue_identifier.len() == 0 && issue_id->0
                == issue_issue_id
        },
{
    reveal_strlit("issue:");
    reveal_strlit("issue-id:");
    reveal_strlit("notification:");
    let nk = notification_key(identifier, issue_id, notification_id);
    let ik = issue_key(issue_identifier, issue_issue_id);
    if nk == ik {
        assert(nk[0] == ik[0]);
        if identifier is Some && identifier->0.len() > 0 {
            assert(nk[5] == ':');
            if issue_identifier.len() == 0 {
                assert(ik[5] == '-');
            }
            assert(identifier->0 =~= nk.subrange(6, nk.len() as int));
            assert(issue_identifier =~= ik.subrange(6, ik.len() as int));
        } else if issue_id is Some && issue_id->0.len() > 0 {
            assert(nk[5] == '-');
            if issue_identifier.len() > 0 {
                assert(ik[5] == ':');
            }
            assert(issue_id->0 =~= nk.subrange(9, nk.len() as int));
            assert(issue_issue_id =~= ik.subrange(9, ik.len() as int));
        } else {
            assert(nk[0] == 'n');
            assert(ik[0] == 'i');
        }
    }
}

/// Entries that carry a key and a time stamp: what the "keep the latest"
/// merge goes by.
pub trait Stamped: View + Sized {
    /// The key of an entry.
    spec fn key_view(v: Self::V) -> Seq<char>;

    /// When the entry was last updated, as an ISO 8601 text.
    spec fn stamp_view(v: Self::V) -> Seq<char>;

    fn key(&self) -> (k: String)
        ensures
            k@ == Self::key_view(self@),
    ;

    fn stamp(&self) -> (s: &str)
        ensures
            s@ == Self::stamp_view(self@),
    ;
}

/// `t` after `v` is offered to it: `v` becomes the entry of its key where the
/// key is new or where the stored entry was updated strictly earlier (by text
/// order of the time stamps); otherwise the stored entry stays.
pub open spec fn offered<T: Stamped>(t: Seq<(Seq<char>, T::V)>, v: T::V) -> Seq<(Seq<char>, T::V)> {
    let k = T::key_view(v);
    match key_index(t, k) {
        Some(j) => if text_ge(T::stamp_view(t[j].1), T::stamp_view(v)) {
            t
        } else {
            t.update(j, (k, v))
        },
        None => t.push((k, v)),
    }
}

/// The entries of `s` offered in order: one per key, in the order the keys
/// first occur.
pub open spec fn latest_table<T: Stamped>(s: Seq<T::V>) -> Seq<(Seq<char>, T::V)>
    decreases s.len(),
{
    if s.len() == 0 {
        Seq::empty()
    } else {
        offered::<T>(latest_table::<T>(s.drop_last()), s.last())
    }
}

/// The entries that `latest_table` keeps.
pub open spec fn latest_values<T: Stamped>(s: Seq<T::V>) -> Seq<T::V> {
    latest_table::<T>(s).map_values(|e: (Seq<char>, T::V)| e.1)
}

pub open spec fn views_of<T: View>(s: Seq<T>) -> Seq<T::V> {
    s.map_values(|x: T| x@)
}

pub proof fn lemma_views_push<T: View>(s: Seq<T>, x: T)
    ensures
        views_of(s.push(x)) == views_of(s).push(x@),
{
    assert(views_of(s.push(x)) =~= views_of(s).push(x@));
}

/// Merges entries so that one per key is kept, the latest.
struct Latest<T> {
    keys: Vec<String>,
    items: Vec<T>,
}

impl<T: Stamped> Latest<T> {
    spec fn table(&self) -> Seq<(Seq<char>, T::V)> {
        Seq::new(self.items@.len(), |i: int| (self.keys@[i]@, self.items@[i]@))
    }

    spec fn wf(&self) -> bool {
        &&& self.keys@.len() == self.items@.len()
        &&& forall|i: int|
            0 <= i < self.keys@.len() ==> #[trigger] self.keys@[i]@ == T::key_view(self.items@[i]@)
    }

    fn new() -> (r: Self)
        ensures
            r.wf(),
            r.table() == Seq::<(Seq<char>, T::V)>::empty(),
    {
        let r = Latest { keys: Vec::new(), items: Vec::new() };
        assert(r.table() =~= Seq::<(Seq<char>, T::V)>::empty());
        r
    }

    fn offer(&mut self, item: T)
        requires
            old(self).wf(),
        ensures
            final(self).wf(),
            final(self).table() == offered::<T>(old(self).table(), item@),
    {
        let ghost t0 = self.table();
        let k = item.key();
        match find_text(&self.keys, k.as_str()) {
            Some(j) => {
                proof {
                    assert(t0[j as int].0 == k@);
                    assert forall|i: int| 0 <= i < j implies #[trigger] t0[i].0 != k@ by {
                        assert(t0[i].0 == self.keys@[i]@);
                    }
                    lemma_first_index(t0, k@, j as int);
                }
                let newer = !text_at_least(self.items[j].stamp(), item.stamp());
                if newer {
                    self.items.set(j, item);
                    assert(self.table() =~= t0.update(j as int, (k@, item@)));
                }
            },
            None => {
                proof {
                    lemma_key_index(t0, k@);
                    if key_index(t0, k@) is Some {
                        let j = key_index(t0, k@)->0;
                        assert(t0[j].0 == self.keys@[j]@);
                    }
                }
                self.keys.push(k);
                self.items.push(item);
                assert(self.table() =~= t0.push((k@, item@)));
            },
        }
    }

    fn into_items(self) -> (r: Vec<T>)
        requires
            self.wf(),
        ensures
            views_of(r@) == self.table().map_values(|e: (Seq<char>, T::V)| e.1),
    {
        let r = self.items;
        assert(views_of(r@) =~= self.table().map_values(|e: (Seq<char>, T::V)| e.1));
        r
    }
}

/// One entry of Linear's notification list, as far as the sync reads it.
/// `archived` and `snoozed` say whether `archivedAt` and `snoozedUntilAt` are
/// set; a text field is `None` where the entry has no text there.
#[derive(Clone, Debug, PartialEq, Eq)]
pub struct RawNotification {
    pub archived: bool,
    pub snoozed: bool,
    pub id: Option<String>,
    pub title: Option<String>,
    pub subtitle: Option<String>,
    pub url: Option<String>,
    pub inbox_url: Option<String>,
    pub issue_id: Option<String>,
    pub issue_identifier: Option<String>,
    pub issue_state: Option<String>,
    pub updated_at: Option<String>,
}

/// A notification as the sync stores it.
#[derive(Clone, Debug, PartialEq, Eq)]
pub struct FetchedLinearNotification {
    pub notification_id: String,
    pub text: String,
    pub subtitle: Option<String>,
    pub url: String,
    pub identifier: Option<String>,
    pub state: Option<String>,
    pub issue_id: Option<String>,
    pub updated_at: String,
}

pub struct NotificationView {
    pub notification_id: Seq<char>,
    pub text: Seq<char>,
    pub subtitle: Option<Seq<char>>,
    pub url: Seq<char>,
    pub identifier: Option<Seq<char>>,
    pub state: Option<Seq<char>>,
    pub issue_id: Option<Seq<char>>,
    pub updated_at: Seq<char>,
}

impl View for FetchedLinearNotification {
    type V = NotificationView;

    open spec fn view(&self) -> NotificationView {
        NotificationView {
            notification_id: self.notification_id@,
            text: self.text@,
            subtitle: opt_text(self.subtitle),
            url: self.url@,
            identifier: opt_text(self.identifier),
            state: opt_text(self.state),
            issue_id: opt_text(self.issue_id),
            updated_at: self.updated_at@,
        }
    }
}

impl Stamped for FetchedLinearNotification {
    open spec fn key_view(v: NotificationView) -> Seq<char> {
        notification_key(v.identifier, v.issue_id, v.notification_id)
    }

    open spec fn stamp_view(v: NotificationView) -> Seq<char> {
        v.updated_at
    }

    fn key(&self) -> (k: String) {
        linear_notification_dedup_key(
            opt_as_str(&self.identifier),
            opt_as_str(&self.issue_id),
            self.notification_id.as_str(),
        )
    }

    fn stamp(&self) -> (s: &str) {
        self.updated_at.as_str()
    }
}

/// The link of a notification: its inbox URL where that is non-empty, else
/// its URL.
pub open spec fn notification_link(r: RawNotification) -> Seq<char> {
    if opt_text(r.inbox_url) is Some && opt_text(r.inbox_url)->0.len() > 0 {
        opt_text(r.inbox_url)->0
    } else {
        text_or_empty(opt_text(r.url))
    }
}

/// The subtitle trimmed, where that leaves any text.
pub open spec fn trimmed_subtitle(s: Option<Seq<char>>) -> Option<Seq<char>> {
    match s {
        Some(t) => if trimmed(t).len() > 0 {
            Some(trimmed(t))
        } else {
            None
        },
        None => None,
    }
}

/// The notification an entry stands for: none where it is archived or
/// snoozed, or where its trimmed title or its link is empty.
pub open spec fn notification_of_raw(r: RawNotification) -> Option<NotificationView> {
    let title = trimmed(text_or_empty(opt_text(r.title)));
    let url = notification_link(r);
    if r.archived || r.snoozed || title.len() == 0 || url.len() == 0 {
        None
    } else {
        Some(
            NotificationView {
                notification_id: text_or_empty(opt_text(r.id)),
                text: title,
                subtitle: trimmed_subtitle(opt_text(r.subtitle)),
                url: url,
                identifier: opt_text(r.issue_identifier),
                state: opt_text(r.issue_state),
                issue_id: opt_text(r.issue_id),
                updated_at: text_or_empty(opt_text(r.updated_at)),
            },
        )
    }
}

/// The notifications that the entries stand for, in order.
pub open spec fn notification_candidates(raws: Seq<RawNotification>) -> Seq<NotificationView>
    decreases raws.len(),
{
    if raws.len() == 0 {
        Seq::empty()
    } else {
        let p = notification_candidates(raws.drop_last());
        match notification_of_raw(raws.last()) {
            Some(v) => p.push(v),
            None => p,
        }
    }
}

pub open spec fn raw_list<R>(o: Option<Vec<R>>) -> Seq<R> {
    match o {
        Some(v) => v@,
        None => Seq::empty(),
    }
}

/// The notifications the sync keeps: of those the entries stand for, one per
/// key, the latest.
pub open spec fn collected_notifications(nodes: Option<Vec<RawNotification>>) -> Seq<
    NotificationView,
> {
    latest_values::<FetchedLinearNotification>(notification_candidates(raw_list(nodes)))
}

/// The notification an entry of Linear's list stands for, if any.
pub fn notification_from_raw(raw: &RawNotification) -> (r: Option<FetchedLinearNotification>)
    ensures
        match r {
            Some(n) => notification_of_raw(*raw) == Some(n@),
            None => notification_of_raw(*raw) is None,
        },
{
    if raw.archived || raw.snoozed {
        return None;
    }
    let title_text = text_of(&raw.title);
    let title = trim_text(title_text.as_str());
    if text_is_empty(title.as_str()) {
        return None;
    }
    let url = match &raw.inbox_url {
        Some(u) => if !text_is_empty(u.as_str()) {
            u.clone()
        } else {
            text_of(&raw.url)
        },
        None => text_of(&raw.url),
    };
    if text_is_empty(url.as_str()) {
        return None;
    }
    let subtitle = match &raw.subtitle {
        Some(s) => {
            let t = trim_text(s.as_str());
            if text_is_empty(t.as_str()) {
                None
            } else {
                Some(t)
            }
        },
        None => None,
    };
    let n = FetchedLinearNotification {
        notification_id: text_of(&raw.id),
        text: title,
        subtitle: subtitle,
        url: url,
        identifier: copy_opt_text(&raw.issue_identifier),
        state: copy_opt_text(&raw.issue_state),
        issue_id: copy_opt_text(&raw.issue_id),
        updated_at: text_of(&raw.updated_at),
    };
    Some(n)
}

/// The notifications of Linear's list that the sync keeps: unarchived,
/// unsnoozed ones with a title and a link, one per issue (or per notification
/// where it names no issue), the most recently updated; where two are equally
/// recent the earlier in the list stays. They come in the order their keys
/// first occur.
pub fn collect_linear_notifications(nodes: &Option<Vec<RawNotification>>) -> (r: Vec<
    FetchedLinearNotification,
>)
    ensures
        views_of(r@) == collected_notifications(*nodes),
{
    let mut latest: Latest<FetchedLinearNotification> = Latest::new();
    match nodes {
        Some(v) => {
            let n = v.len();
            let mut i: usize = 0;
            assert(v@.take(0) =~= Seq::<RawNotification>::empty());
            while i < n
                invariant
                    i <= n,
                    n == v@.len(),
                    latest.wf(),
                    latest.table() == latest_table::<FetchedLinearNotification>(
                        notification_candidates(v@.take(i as int)),
                    ),
                decreases n - i,
            {
                assert(v@.take(i + 1).drop_last() =~= v@.take(i as int));
                match notification_from_raw(&v[i]) {
                    Some(note) => {
                        let ghost c = notification_candidates(v@.take(i as int));
                        assert(notification_candidates(v@.take(i + 1)).drop_last() =~= c);
                        latest.offer(note);
                    },
                    None => {},
                }
                i = i + 1;
            }
            assert(v@.take(n as int) =~= v@);
        },
        None => {},
    }
    latest.into_items()
}

/// One entry of the user's assigned issues, as far as the sync reads it.
/// `archived`, `canceled` and `completed` say whether `archivedAt`,
/// `canceledAt` and `completedAt` are set.
#[derive(Clone, Debug, PartialEq, Eq)]
pub struct RawIssue {
    pub archived: bool,
    pub canceled: bool,
    pub completed: bool,
    pub id: Option<String>,
    pub identifier: Option<String>,
    pub title: Option<String>,
    pub url: Option<String>,
    pub state: Option<String>,
    pub updated_at: Option<String>,
}

/// An assigned issue as the sync stores it.
#[derive(Clone, Debug, PartialEq, Eq)]
pub struct FetchedLinearIssue {
    pub issue_id: String,
    pub identifier: String,
    pub title: String,
    pub url: String,
    pub state: Option<String>,
    pub updated_at: String,
}

pub struct IssueView {
    pub issue_id: Seq<char>,
    pub identifier: Seq<char>,
    pub title: Seq<char>,
    pub url: Seq<char>,
    pub state: Option<Seq<char>>,
    pub updated_at: Seq<char>,
}

impl View for FetchedLinearIssue {
    type V = IssueView;

    open spec fn view(&self) -> IssueView {
        IssueView {
            issue_id: self.issue_id@,
            identifier: self.identifier@,
            title: self.title@,
            url: self.url@,
            state: opt_text(self.state),
            updated_at: self.updated_at@,
        }
    }
}

impl FetchedLinearIssue {
    /// A copy of the issue.
    pub fn copied(&self) -> (r: FetchedLinearIssue)
        ensures
            r@ == self@,
    {
        FetchedLinearIssue {
            issue_id: self.issue_id.clone(),
            identifier: self.identifier.clone(),
            title: self.title.clone(),
            url: self.url.clone(),
            state: copy_opt_text(&self.state),
            updated_at: self.updated_at.clone(),
        }
    }
}

impl Stamped for FetchedLinearIssue {
    open spec fn key_view(v: IssueView) -> Seq<char> {
        issue_key(v.identifier, v.issue_id)
    }

    open spec fn stamp_view(v: IssueView) -> Seq<char> {
        v.updated_at
    }

    fn key(&self) -> (k: String) {
        linear_issue_dedup_key(self.identifier.as_str(), self.issue_id.as_str())
    }

    fn stamp(&self) -> (s: &str) {
        self.updated_at.as_str()
    }
}

/// The issue an entry stands for: none where it is archived, canceled or
/// completed, or where its trimmed id, identifier, title or URL is empty.
pub open spec fn issue_of_raw(r: RawIssue) -> Option<IssueView> {
    let id = trimmed(text_or_empty(opt_text(r.id)));
    let identifier = trimmed(text_or_empty(opt_text(r.identifier)));
    let title = trimmed(text_or_empty(opt_text(r.title)));
    let url = trimmed(text_or_empty(opt_text(r.url)));
    if r.archived || r.canceled || r.completed || id.len() == 0 || identifier.len() == 0
        || title.len() == 0 || url.len() == 0 {
        None
    } else {
        Some(
            IssueView {
                issue_id: id,
                identifier: identifier,
                title: title,
                url: url,
                state: opt_text(r.state),
                updated_at: text_or_empty(opt_text(r.updated_at)),
            },
        )
    }
}

/// The issues that the entries stand for, in order.
pub open spec fn issue_candidates(raws: Seq<RawIssue>) -> Seq<IssueView>
    decreases raws.len(),
{
    if raws.len() == 0 {
        Seq::empty()
    } else {
        let p = issue_candidates(raws.drop_last());
        match issue_of_raw(raws.last()) {
            Some(v) => p.push(v),
            None => p,
        }
    }
}

/// The issues the sync keeps: one per key, the latest.
pub open spec fn collected_issues(nodes: Option<Vec<RawIssue>>) -> Seq<IssueView> {
    latest_values::<FetchedLinearIssue>(issue_candidates(raw_list(nodes)))
}

/// The issue an entry of the assigned-issue list stands for, if any.
pub fn issue_from_raw(raw: &RawIssue) -> (r: Option<FetchedLinearIssue>)
    ensures
        match r {
            Some(i) => issue_of_raw(*raw) == Some(i@),
            None => issue_of_raw(*raw) is None,
        },
{
    if raw.archived || raw.canceled || raw.completed {
        return None;
    }
    let id = trim_text(text_of(&raw.id).as_str());
    let identifier = trim_text(text_of(&raw.identifier).as_str());
    let title = trim_text(text_of(&raw.title).as_str());
    let url = trim_text(text_of(&raw.url).as_str());
    if text_is_empty(id.as_str()) || text_is_empty(identifier.as_str()) || text_is_empty(
        title.as_str(),
    ) || text_is_empty(url.as_str()) {
        return None;
    }
    Some(
        FetchedLinearIssue {
            issue_id: id,
            identifier: identifier,
            title: title,
            url: url,
            state: copy_opt_text(&raw.state),
            updated_at: text_of(&raw.updated_at),
        },
    )
}

/// The assigned issues the sync keeps: open ones (not archived, canceled or
/// completed) with an id, identifier, title and URL, one per key, the most
/// recently updated; where two are equally recent the earlier stays.
pub fn collect_linear_issues(nodes: &Option<Vec<RawIssue>>) -> (r: Vec<FetchedLinearIssue>)
    ensures
        views_of(r@) == collected_issues(*nodes),
{
    let mut latest: Latest<FetchedLinearIssue> = Latest::new();
    match nodes {
        Some(v) => {
            let n = v.len();
            let mut i: usize = 0;
            assert(v@.take(0) =~= Seq::<RawIssue>::empty());
            while i < n
                invariant
                    i <= n,
                    n == v@.len(),
                    latest.wf(),
                    latest.table() == latest_table::<FetchedLinearIssue>(
                        issue_candidates(v@.take(i as int)),
                    ),
                decreases n - i,
            {
                assert(v@.take(i + 1).drop_last() =~= v@.take(i as int));
                match issue_from_raw(&v[i]) {
                    Some(issue) => {
                        let ghost c = issue_candidates(v@.take(i as int));
                        assert(issue_candidates(v@.take(i + 1)).drop_last() =~= c);
                        latest.offer(issue);
                    },
                    None => {},
                }
                i = i + 1;
            }
            assert(v@.take(n as int) =~= v@);
        },
        None => {},
    }
    latest.into_items()
}

/// Some position of `s` witnesses that `v` is the latest entry of its key.
pub open spec fn is_latest_of<T: Stamped>(s: Seq<T::V>, v: T::V) -> bool {
    exists|w: int| latest_witness::<T>(s, v, w)
}

/// `v`, the entry at position `w` of `s`, is updated strictly later than every
/// entry with its key before it and at least as late as every one after it.
pub open spec fn latest_witness<T: Stamped>(s: Seq<T::V>, v: T::V, w: int) -> bool {
    &&& 0 <= w < s.len()
    &&& s[w] == v
    &&& forall|i: int|
        0 <= i < s.len() && #[trigger] T::key_view(s[i]) == T::key_view(v) ==> (i < w ==> text_lt(
            T::stamp_view(s[i]),
            T::stamp_view(v),
        )) && (w <= i ==> text_ge(T::stamp_view(v), T::stamp_view(s[i])))
}

proof fn lemma_witness_extend<T: Stamped>(s: Seq<T::V>, v: T::V, w: int)
    requires
        s.len() > 0,
        latest_witness::<T>(s.drop_last(), v, w),
        T::key_view(s.last()) == T::key_view(v) ==> text_ge(
            T::stamp_view(v),
            T::stamp_view(s.last()),
        ),
    ensures
        latest_witness::<T>(s, v, w),
{
    let d = s.drop_last();
    assert forall|i: int|
        0 <= i < s.len() && #[trigger] T::key_view(s[i]) == T::key_view(v) implies (i < w ==> text_lt(
        T::stamp_view(s[i]),
        T::stamp_view(v),
    )) && (w <= i ==> text_ge(T::stamp_view(v), T::stamp_view(s[i]))) by {
        if i < s.len() - 1 {
            assert(s[i] == d[i]);
            assert(T::key_view(d[i]) == T::key_view(v));
        }
    }
}

proof fn lemma_witness_replace<T: Stamped>(s: Seq<T::V>, old_v: T::V, w0: int)
    requires
        s.len() > 0,
        latest_witness::<T>(s.drop_last(), old_v, w0),
        T::key_view(s.last()) == T::key_view(old_v),
        text_lt(T::stamp_view(old_v), T::stamp_view(s.last())),
    ensures
        latest_witness::<T>(s, s.last(), s.len() - 1),
{
    let d = s.drop_last();
    let v = s.last();
    let n = s.len() - 1;
    assert forall|i: int|
        0 <= i < s.len() && #[trigger] T::key_view(s[i]) == T::key_view(v) implies (i < n ==> text_lt(
        T::stamp_view(s[i]),
        T::stamp_view(v),
    )) && (n <= i ==> text_ge(T::stamp_view(v), T::stamp_view(s[i]))) by {
        crate::text::lemma_text_lt_order(T::stamp_view(s[i]), T::stamp_view(old_v), T::stamp_view(v));
        crate::text::lemma_text_lt_order(T::stamp_view(old_v), T::stamp_view(s[i]), T::stamp_view(v));
        crate::text::lemma_text_lt_order(T::stamp_view(v), T::stamp_view(v), T::stamp_view(v));
        if i < n {
            assert(s[i] == d[i]);
            assert(T::key_view(d[i]) == T::key_view(old_v));
        }
    }
}

/// The merge that keeps the latest entry per key keeps exactly one entry for
/// each key that occurs, stored under its own key, and that entry is one of the
/// inputs: updated strictly later than every input with its key before it, and
/// at least as late as every one after it. So it is the most recently updated
/// entry of its key, the earliest such where several tie.
pub proof fn lemma_latest_table<T: Stamped>(s: Seq<T::V>)
    ensures
        crate::table::distinct_keys(latest_table::<T>(s)),
        forall|j: int|
            0 <= j < latest_table::<T>(s).len() ==> (#[trigger] latest_table::<T>(s)[j]).0
                == T::key_view(latest_table::<T>(s)[j].1),
        forall|k: Seq<char>|
            crate::table::has_key(latest_table::<T>(s), k) <==> exists|i: int|
                0 <= i < s.len() && #[trigger] T::key_view(s[i]) == k,
        forall|j: int|
            0 <= j < latest_table::<T>(s).len() ==> is_latest_of::<T>(s, (#[trigger] latest_table::<T>(s)[j]).1),
    decreases s.len(),
{
    if s.len() > 0 {
        let d = s.drop_last();
        lemma_latest_table::<T>(d);
        let t0 = latest_table::<T>(d);
        let v = s.last();
        let k = T::key_view(v);
        let n = s.len() - 1;
        let t = latest_table::<T>(s);
        assert(t == offered::<T>(t0, v));
        lemma_key_index(t0, k);
        assert forall|i: int| 0 <= i < n implies #[trigger] s[i] == d[i] by {}
        assert forall|j: int| 0 <= j < t0.len() && t0[j].0 != k implies is_latest_of::<T>(s, (#[trigger] t0[j]).1) by {
            assert(is_latest_of::<T>(d, t0[j].1));
            let w = choose|w: int| latest_witness::<T>(d, t0[j].1, w);
            lemma_witness_extend::<T>(s, t0[j].1, w);
        }
        assert forall|k2: Seq<char>|
            crate::table::has_key(t0, k2) <==> exists|i: int|
                0 <= i < n && #[trigger] T::key_view(s[i]) == k2 by {
            if exists|i: int| 0 <= i < n && #[trigger] T::key_view(s[i]) == k2 {
                let i = choose|i: int| 0 <= i < n && #[trigger] T::key_view(s[i]) == k2;
                assert(T::key_view(d[i]) == k2);
            }
            if crate::table::has_key(t0, k2) {
                let i = choose|i: int| 0 <= i < d.len() && #[trigger] T::key_view(d[i]) == k2;
                assert(T::key_view(s[i]) == k2);
            }
        }
        match key_index(t0, k) {
            Some(j0) => {
                let old_v = t0[j0].1;
                assert(is_latest_of::<T>(d, t0[j0].1));
                let w0 = choose|w: int| latest_witness::<T>(d, t0[j0].1, w);
                if text_ge(T::stamp_view(old_v), T::stamp_view(v)) {
                    assert(t == t0);
                    lemma_witness_extend::<T>(s, old_v, w0);
                    assert forall|j: int| 0 <= j < t.len() implies is_latest_of::<T>(s, (#[trigger] t[j]).1) by {
                        if j == j0 {
                            assert(latest_witness::<T>(s, t[j].1, w0));
                        } else {
                            assert(t[j].0 != k);
                        }
                    }
                                    } else {
                    assert(t == t0.update(j0, (k, v)));
                    lemma_witness_replace::<T>(s, old_v, w0);
                    assert forall|j: int| 0 <= j < t.len() implies is_latest_of::<T>(s, (#[trigger] t[j]).1) by {
                        if j == j0 {
                            assert(latest_witness::<T>(s, t[j].1, n));
                        } else {
                            assert(t[j] == t0[j]);
                            assert(t0[j].0 != k);
                        }
                    }
                                        assert forall|j: int| 0 <= j < t.len() implies (#[trigger] t[j]).0 == T::key_view(
                        t[j].1,
                    ) by {
                        if j != j0 {
                            assert(t[j] == t0[j]);
                        }
                    }
                    assert forall|j1: int, j2: int|
                        0 <= j1 < t.len() && 0 <= j2 < t.len() && j1 != j2 implies #[trigger] t[j1].0
                        != #[trigger] t[j2].0 by {
                        if j1 != j0 && j2 != j0 {
                            assert(t[j1] == t0[j1] && t[j2] == t0[j2]);
                        } else if j1 == j0 {
                            assert(t[j2] == t0[j2]);
                            assert(t0[j2].0 != t0[j0].0);
                        } else {
                            assert(t[j1] == t0[j1]);
                            assert(t0[j1].0 != t0[j0].0);
                        }
                    }
                }
                assert forall|k2: Seq<char>|
                    crate::table::has_key(t, k2) <==> exists|i: int|
                        0 <= i < s.len() && #[trigger] T::key_view(s[i]) == k2 by {
                    if crate::table::has_key(t, k2) {
                        let j = choose|j: int| 0 <= j < t.len() && #[trigger] t[j].0 == k2;
                        if j == j0 {
                            assert(T::key_view(s[n]) == k2);
                        } else {
                            assert(t[j].0 == t0[j].0);
                            assert(crate::table::has_key(t0, k2));
                        }
                    }
                    if exists|i: int| 0 <= i < s.len() && #[trigger] T::key_view(s[i]) == k2 {
                        let i = choose|i: int| 0 <= i < s.len() && #[trigger] T::key_view(s[i]) == k2;
                        if i < n {
                            assert(crate::table::has_key(t0, k2));
                            let j = choose|j: int| 0 <= j < t0.len() && #[trigger] t0[j].0 == k2;
                            assert(t[j].0 == t0[j].0);
                        } else {
                            assert(t[j0].0 == k2);
                        }
                    }
                }
            },
            None => {
                assert(t == t0.push((k, v)));
                assert forall|i: int| 0 <= i < n implies #[trigger] T::key_view(s[i]) != k by {
                    if T::key_view(s[i]) == k {
                        assert(crate::table::has_key(t0, k));
                    }
                }
                assert(latest_witness::<T>(s, v, n)) by {
                    crate::text::lemma_text_lt_order(T::stamp_view(v), T::stamp_view(v), T::stamp_view(v));
                }
                assert forall|j: int| 0 <= j < t.len() implies is_latest_of::<T>(s, (#[trigger] t[j]).1) by {
                    if j == t0.len() {
                        assert(t[j] == (k, v));
                        assert(latest_witness::<T>(s, t[j].1, n));
                    } else {
                        assert(t[j] == t0[j]);
                        assert(t0[j].0 != k);
                    }
                }
                assert forall|j: int| 0 <= j < t.len() implies (#[trigger] t[j]).0 == T::key_view(
                    t[j].1,
                ) by {
                    if j < t0.len() {
                        assert(t[j] == t0[j]);
                    }
                }
                assert forall|j1: int, j2: int|
                    0 <= j1 < t.len() && 0 <= j2 < t.len() && j1 != j2 implies #[trigger] t[j1].0
                    != #[trigger] t[j2].0 by {
                    if j1 < t0.len() && j2 < t0.len() {
                        assert(t[j1] == t0[j1] && t[j2] == t0[j2]);
                    } else if j1 < t0.len() {
                        assert(t[j1] == t0[j1]);
                    } else {
                        assert(t[j2] == t0[j2]);
                    }
                }
                assert forall|k2: Seq<char>|
                    crate::table::has_key(t, k2) <==> exists|i: int|
                        0 <= i < s.len() && #[trigger] T::key_view(s[i]) == k2 by {
                    if crate::table::has_key(t, k2) {
                        let j = choose|j: int| 0 <= j < t.len() && #[trigger] t[j].0 == k2;
                        if j == t0.len() {
                            assert(T::key_view(s[n]) == k2);
                        } else {
                            assert(t[j].0 == t0[j].0);
                            assert(crate::table::has_key(t0, k2));
                        }
                    }
                    if exists|i: int| 0 <= i < s.len() && #[trigger] T::key_view(s[i]) == k2 {
                        let i = choose|i: int| 0 <= i < s.len() && #[trigger] T::key_view(s[i]) == k2;
                        if i < n {
                            assert(crate::table::has_key(t0, k2));
                            let j = choose|j: int| 0 <= j < t0.len() && #[trigger] t0[j].0 == k2;
                            assert(t[j].0 == t0[j].0);
                        } else {
                            assert(t[t0.len() as int].0 == k2);
                        }
                    }
                }
            },
        }
    }
}

/// An archived, canceled or completed issue is never listed, nor one whose
/// trimmed id, identifier, title or URL is empty; an issue that is listed
/// carries those four trimmed, its state as given, and its time stamp.
pub proof fn lemma_issue_of_raw(r: RawIssue)
    ensures
        r.archived ==> issue_of_raw(r) is None,
        r.canceled ==> issue_of_raw(r) is None,
        r.completed ==> issue_of_raw(r) is None,
        issue_of_raw(r) is Some ==> {
            let v = issue_of_raw(r)->0;
            &&& !r.archived && !r.canceled && !r.completed
            &&& v.issue_id == trimmed(text_or_empty(opt_text(r.id))) && v.issue_id.len() > 0
            &&& v.identifier == trimmed(text_or_empty(opt_text(r.identifier))) && v.identifier.len() > 0
            &&& v.title == trimmed(text_or_empty(opt_text(r.title))) && v.title.len() > 0
            &&& v.url == trimmed(text_or_empty(opt_text(r.url))) && v.url.len() > 0
            &&& v.state == opt_text(r.state)
            &&& v.updated_at == text_or_empty(opt_text(r.updated_at))
        },
        !r.archived && !r.canceled && !r.completed && trimmed(text_or_empty(opt_text(r.id))).len() > 0
            && trimmed(text_or_empty(opt_text(r.identifier))).len() > 0 && trimmed(
            text_or_empty(opt_text(r.title)),
        ).len() > 0 && trimmed(text_or_empty(opt_text(r.url))).len() > 0 ==> issue_of_raw(r) is Some,
{
}

/// An archived or snoozed notification is never listed, nor one whose
/// trimmed title or link is empty; a listed one carries its id, its trimmed
/// title, its link and the issue it is about as given.
pub proof fn lemma_notification_of_raw(r: RawNotification)
    ensures
        r.archived ==> notification_of_raw(r) is None,
        r.snoozed ==> notification_of_raw(r) is None,
        notification_of_raw(r) is Some ==> {
            let v = notification_of_raw(r)->0;
            &&& !r.archived && !r.snoozed
            &&& v.notification_id == text_or_empty(opt_text(r.id))
            &&& v.text == trimmed(text_or_empty(opt_text(r.title))) && v.text.len() > 0
            &&& v.url == notification_link(r) && v.url.len() > 0
            &&& v.identifier == opt_text(r.issue_identifier)
            &&& v.issue_id == opt_text(r.issue_id)
            &&& v.state == opt_text(r.issue_state)
            &&& v.subtitle == trimmed_subtitle(opt_text(r.subtitle))
            &&& v.updated_at == text_or_empty(opt_text(r.updated_at))
        },
        opt_text(r.inbox_url) is Some && opt_text(r.inbox_url)->0.len() > 0 ==> notification_link(r)
            == opt_text(r.inbox_url)->0,
        !(opt_text(r.inbox_url) is Some && opt_text(r.inbox_url)->0.len() > 0) ==> notification_link(r)
            == text_or_empty(opt_text(r.url)),
        forall|t: Seq<char>|
            #[trigger] trimmed_subtitle(Some(t)) == (if trimmed(t).len() > 0 {
                Some(trimmed(t))
            } else {
                None
            }),
        trimmed_subtitle(None) is None,
{
}

/// `v` is the issue of one of the entries.
pub open spec fn issue_from_entry(raws: Seq<RawIssue>, v: IssueView) -> bool {
    exists|k: int| 0 <= k < raws.len() && #[trigger] issue_of_raw(raws[k]) == Some(v)
}

/// `v` is the issue of one of the entries that is neither archived, canceled
/// nor completed.
pub open spec fn issue_from_open_entry(raws: Seq<RawIssue>, v: IssueView) -> bool {
    exists|k: int|
        0 <= k < raws.len() && #[trigger] issue_of_raw(raws[k]) == Some(v) && !raws[k].archived
            && !raws[k].canceled && !raws[k].completed
}

/// `v` is the notification of one of the entries.
pub open spec fn notification_from_entry(raws: Seq<RawNotification>, v: NotificationView) -> bool {
    exists|k: int| 0 <= k < raws.len() && #[trigger] notification_of_raw(raws[k]) == Some(v)
}

/// `v` is the notification of one of the entries that is neither archived nor
/// snoozed.
pub open spec fn notification_from_open_entry(raws: Seq<RawNotification>, v: NotificationView) -> bool {
    exists|k: int|
        0 <= k < raws.len() && #[trigger] notification_of_raw(raws[k]) == Some(v) && !raws[k].archived
            && !raws[k].snoozed
}

proof fn lemma_issue_candidates_from(raws: Seq<RawIssue>)
    ensures
        forall|i: int|
            0 <= i < issue_candidates(raws).len() ==> issue_from_entry(raws, #[trigger] issue_candidates(raws)[i]),
    decreases raws.len(),
{
    if raws.len() > 0 {
        let d = raws.drop_last();
        lemma_issue_candidates_from(d);
        let p = issue_candidates(d);
        let c = issue_candidates(raws);
        assert forall|i: int| 0 <= i < c.len() implies issue_from_entry(raws, #[trigger] c[i]) by {
            if i < p.len() {
                assert(c[i] == p[i]);
                assert(issue_from_entry(d, p[i]));
                let k = choose|k: int| 0 <= k < d.len() && #[trigger] issue_of_raw(d[k]) == Some(p[i]);
                assert(raws[k] == d[k]);
            } else {
                assert(issue_of_raw(raws[raws.len() - 1]) == Some(c[i]));
            }
        }
    }
}

proof fn lemma_notification_candidates_from(raws: Seq<RawNotification>)
    ensures
        forall|i: int|
            0 <= i < notification_candidates(raws).len() ==> notification_from_entry(
                raws,
                #[trigger] notification_candidates(raws)[i],
            ),
    decreases raws.len(),
{
    if raws.len() > 0 {
        let d = raws.drop_last();
        lemma_notification_candidates_from(d);
        let p = notification_candidates(d);
        let c = notification_candidates(raws);
        assert forall|i: int| 0 <= i < c.len() implies notification_from_entry(raws, #[trigger] c[i]) by {
            if i < p.len() {
                assert(c[i] == p[i]);
                assert(notification_from_entry(d, p[i]));
                let k = choose|k: int| 0 <= k < d.len() && #[trigger] notification_of_raw(d[k]) == Some(p[i]);
                assert(raws[k] == d[k]);
            } else {
                assert(notification_of_raw(raws[raws.len() - 1]) == Some(c[i]));
            }
        }
    }
}

/// Each issue that the sync keeps stands for an entry of Linear's list that
/// is neither archived, canceled nor completed.
pub proof fn lemma_collected_issues_listed(nodes: Option<Vec<RawIssue>>)
    ensures
        forall|i: int|
            0 <= i < collected_issues(nodes).len() ==> issue_from_open_entry(
                raw_list(nodes),
                #[trigger] collected_issues(nodes)[i],
            ),
{
    let raws = raw_list(nodes);
    let s = issue_candidates(raws);
    lemma_issue_candidates_from(raws);
    lemma_latest_table::<FetchedLinearIssue>(s);
    let t = latest_table::<FetchedLinearIssue>(s);
    assert forall|i: int| 0 <= i < collected_issues(nodes).len() implies issue_from_open_entry(
        raws,
        #[trigger] collected_issues(nodes)[i],
    ) by {
        let v = t[i].1;
        assert(collected_issues(nodes)[i] == v);
        assert(is_latest_of::<FetchedLinearIssue>(s, t[i].1));
        let w = choose|w: int| latest_witness::<FetchedLinearIssue>(s, v, w);
        assert(issue_from_entry(raws, s[w]));
        let k = choose|k: int| 0 <= k < raws.len() && #[trigger] issue_of_raw(raws[k]) == Some(s[w]);
        lemma_issue_of_raw(raws[k]);
    }
}

/// Each notification that the sync keeps stands for an entry of Linear's
/// list that is neither archived nor snoozed.
pub proof fn lemma_collected_notifications_listed(nodes: Option<Vec<RawNotification>>)
    ensures
        forall|i: int|
            0 <= i < collected_notifications(nodes).len() ==> notification_from_open_entry(
                raw_list(nodes),
                #[trigger] collected_notifications(nodes)[i],
            ),
{
    let raws = raw_list(nodes);
    let s = notification_candidates(raws);
    lemma_notification_candidates_from(raws);
    lemma_latest_table::<FetchedLinearNotification>(s);
    let t = latest_table::<FetchedLinearNotification>(s);
    assert forall|i: int| 0 <= i < collected_notifications(nodes).len() implies notification_from_open_entry(
        raws,
        #[trigger] collected_notifications(nodes)[i],
    ) by {
        let v = t[i].1;
        assert(collected_notifications(nodes)[i] == v);
        assert(is_latest_of::<FetchedLinearNotification>(s, t[i].1));
        let w = choose|w: int| latest_witness::<FetchedLinearNotification>(s, v, w);
        assert(notification_from_entry(raws, s[w]));
        let k = choose|k: int| 0 <= k < raws.len() && #[trigger] notification_of_raw(raws[k]) == Some(s[w]);
        lemma_notification_of_raw(raws[k]);
    }
}

} // verus!
