//! The items of the list as the app shows them, and the choices behind the
//! list's queries and edits.
use vstd::prelude::*;
use crate::text::{opt_text, text_or, text_or_empty};

verus! {

/// One item of the list: a task of the user's, or a mirrored pull request,
/// Linear notification or Linear issue.
#[derive(Clone, Debug, PartialEq, Eq)]
pub struct Item {
    pub id: i64,
    pub text: String,
    pub position: i64,
    pub status: String,
    pub snoozed_until: Option<i64>,
    pub kind: String,
    pub pr_url: Option<String>,
    pub pr_repo: Option<String>,
    pub pr_number: Option<i64>,
    pub pr_role: Option<String>,
    pub pr_draft: Option<bool>,
    pub pr_checks_status: Option<String>,
    pub linear_url: Option<String>,
    pub linear_subtitle: Option<String>,
    pub linear_identifier: Option<String>,
    pub linear_state: Option<String>,
    pub linear_notification_id: Option<String>,
    pub linear_issue_id: Option<String>,
}

/// The columns of a stored item as read from the database: the four that
/// every item has, each with the error of reading it, and the others, `None`
/// where they are null or unreadable.
#[derive(Debug, PartialEq, Eq)]
pub struct ItemColumns {
    pub id: Result<i64, String>,
    pub text: Result<String, String>,
    pub position: Result<i64, String>,
    pub status: Result<String, String>,
    pub snoozed_until: Option<i64>,
    pub kind: Option<String>,
    pub pr_url: Option<String>,
    pub pr_repo: Option<String>,
    pub pr_number: Option<i64>,
    pub pr_role: Option<String>,
    pub pr_draft: Option<i64>,
    pub pr_checks_status: Option<String>,
    pub linear_url: Option<String>,
    pub linear_subtitle: Option<String>,
    pub linear_identifier: Option<String>,
    pub linear_state: Option<String>,
    pub linear_notification_id: Option<String>,
    pub linear_issue_id: Option<String>,
}

/// The optional columns of an item carry over as they are, but for a missing
/// kind, which is "task", and the draft flag, which is stored as an integer
/// and is set where that integer is not 0.
pub open spec fn item_matches_columns(item: Item, c: ItemColumns) -> bool {
    &&& item.snoozed_until == c.snoozed_until
    &&& item.kind@ == text_or(opt_text(c.kind), "task"@)
    &&& opt_text(item.pr_url) == opt_text(c.pr_url)
    &&& opt_text(item.pr_repo) == opt_text(c.pr_repo)
    &&& item.pr_number == c.pr_number
    &&& opt_text(item.pr_role) == opt_text(c.pr_role)
    &&& item.pr_draft == match c.pr_draft {
        Some(v) => Some(v != 0),
        None => None,
    }
    &&& opt_text(item.pr_checks_status) == opt_text(c.pr_checks_status)
    &&& opt_text(item.linear_url) == opt_text(c.linear_url)
    &&& opt_text(item.linear_subtitle) == opt_text(c.linear_subtitle)
    &&& opt_text(item.linear_identifier) == opt_text(c.linear_identifier)
    &&& opt_text(item.linear_state) == opt_text(c.linear_state)
    &&& opt_text(item.linear_notification_id) == opt_text(c.linear_notification_id)
    &&& opt_text(item.linear_issue_id) == opt_text(c.linear_issue_id)
}

/// Two optional texts are both missing, or both present with the same text.
pub open spec fn same_text(a: Option<String>, b: Option<String>) -> bool {
    (a is None <==> b is None) && (a is Some ==> a->0@ == b->0@)
}

/// An item read from a row carries each optional column of the row
/// unchanged: a text column is missing exactly where the column is null and
/// holds the column's text otherwise, so the checks status, the links, the
/// Linear ids and the pull request's role, repository and number are the
/// stored ones. The kind is the stored one, "task" where none is stored, and
/// the draft flag is set exactly where the stored integer is not 0.
pub proof fn lemma_item_carries_columns(item: Item, c: ItemColumns)
    requires
        item_matches_columns(item, c),
    ensures
        same_text(item.pr_checks_status, c.pr_checks_status),
        same_text(item.pr_url, c.pr_url),
        same_text(item.pr_repo, c.pr_repo),
        same_text(item.pr_role, c.pr_role),
        same_text(item.linear_url, c.linear_url),
        same_text(item.linear_subtitle, c.linear_subtitle),
        same_text(item.linear_identifier, c.linear_identifier),
        same_text(item.linear_state, c.linear_state),
        same_text(item.linear_notification_id, c.linear_notification_id),
        same_text(item.linear_issue_id, c.linear_issue_id),
        item.pr_number == c.pr_number,
        item.snoozed_until == c.snoozed_until,
        c.kind is Some ==> item.kind@ == c.kind->0@,
        c.kind is None ==> item.kind@ == "task"@,
        c.pr_draft is None ==> item.pr_draft is None,
        c.pr_draft == Some(0i64) ==> item.pr_draft == Some(false),
        c.pr_draft is Some && c.pr_draft->0 != 0 ==> item.pr_draft == Some(true),
{
}

/// The item a stored row holds. Reading fails with the error of the first of
/// id, text, position and status that could not be read.
pub fn item_from_columns(c: ItemColumns) -> (r: Result<Item, String>)
    ensures
        c.id is Err ==> r == Err::<Item, String>(c.id->Err_0),
        c.id is Ok && c.text is Err ==> r == Err::<Item, String>(c.text->Err_0),
        c.id is Ok && c.text is Ok && c.position is Err ==> r == Err::<Item, String>(
            c.position->Err_0,
        ),
        c.id is Ok && c.text is Ok && c.position is Ok && c.status is Err ==> r == Err::<
            Item,
            String,
        >(c.status->Err_0),
        c.id is Ok && c.text is Ok && c.position is Ok && c.status is Ok ==> (r matches Ok(item) && {
            &&& item.id == c.id->Ok_0
            &&& item.text@ == c.text->Ok_0@
            &&& item.position == c.position->Ok_0
            &&& item.status@ == c.status->Ok_0@
            &&& item_matches_columns(item, c)
        }),
{
    let ghost c0 = c;
    let id = match c.id {
        Ok(v) => v,
        Err(e) => return Err(e),
    };
    let text = match c.text {
        Ok(v) => v,
        Err(e) => return Err(e),
    };
    let position = match c.position {
        Ok(v) => v,
        Err(e) => return Err(e),
    };
    let status = match c.status {
        Ok(v) => v,
        Err(e) => return Err(e),
    };
    let kind = match c.kind {
        Some(k) => k,
        None => String::from_str("task"),
    };
    let pr_draft = match c.pr_draft {
        Some(v) => Some(v != 0),
        None => None,
    };
    let item = Item {
        id,
        text,
        position,
        status,
        snoozed_until: c.snoozed_until,
        kind,
        pr_url: c.pr_url,
        pr_repo: c.pr_repo,
        pr_number: c.pr_number,
        pr_role: c.pr_role,
        pr_draft,
        pr_checks_status: c.pr_checks_status,
        linear_url: c.linear_url,
        linear_subtitle: c.linear_subtitle,
        linear_identifier: c.linear_identifier,
        linear_state: c.linear_state,
        linear_notification_id: c.linear_notification_id,
        linear_issue_id: c.linear_issue_id,
    };
    assert(item_matches_columns(item, c0));
    Ok(item)
}

/// A new task: open, of kind "task", with nothing mirrored.
pub fn new_task_item(id: i64, text: String, position: i64) -> (item: Item)
    ensures
        item.id == id,
        item.text@ == text@,
        item.position == position,
        item.status@ == "open"@,
        item.kind@ == "task"@,
        item.snoozed_until is None,
        item.pr_url is None && item.pr_repo is None && item.pr_number is None,
        item.pr_role is None && item.pr_draft is None && item.pr_checks_status is None,
        item.linear_url is None && item.linear_subtitle is None && item.linear_identifier is None,
        item.linear_state is None && item.linear_notification_id is None && item.linear_issue_id is None,
{
    Item {
        id,
        text,
        position,
        status: String::from_str("open"),
        snoozed_until: None,
        kind: String::from_str("task"),
        pr_url: None,
        pr_repo: None,
        pr_number: None,
        pr_role: None,
        pr_draft: None,
        pr_checks_status: None,
        linear_url: None,
        linear_subtitle: None,
        linear_identifier: None,
        linear_state: None,
        linear_notification_id: None,
        linear_issue_id: None,
    }
}

/// Which items the list shows, and in which order.
#[derive(Clone, Copy, Debug, PartialEq, Eq, Structural)]
pub enum ItemsQuery {
    /// Every matching item: the open ones first, each group by position.
    Everything,
    /// The open matching items, those snoozed until later last, each group by
    /// position.
    OpenSnoozedLast,
    /// The open matching items that are not snoozed until later, by position.
    OpenAwake,
}

/// The query for the list: with done items it shows everything; without, it
/// shows open items, snoozed ones last where those are wanted, else none of them.
pub fn items_query(include_done: bool, include_snoozed: bool) -> (q: ItemsQuery)
    ensures
        q == (if include_done {
            ItemsQuery::Everything
        } else if include_snoozed {
            ItemsQuery::OpenSnoozedLast
        } else {
            ItemsQuery::OpenAwake
        }),
{
    if include_done {
        ItemsQuery::Everything
    } else if include_snoozed {
        ItemsQuery::OpenSnoozedLast
    } else {
        ItemsQuery::OpenAwake
    }
}

/// The `LIKE` pattern that matches texts containing the search text.
pub fn search_pattern(query: &str) -> (p: String)
    ensures
        p@ == "%"@ + query@ + "%"@,
{
    let mut p = String::from_str("%");
    p.append(query);
    p.append("%");
    p
}

/// The positions that a reordering gives: each item of `ids` gets its index
/// in `ids` as its position. Pairs are (position, id).
pub fn reorder_positions(ids: &Vec<i64>) -> (r: Vec<(i64, i64)>)
    requires
        ids@.len() <= i64::MAX,
    ensures
        r@.len() == ids@.len(),
        forall|i: int| 0 <= i < ids@.len() ==> #[trigger] r@[i] == (i as i64, ids@[i]),
{
    let mut r: Vec<(i64, i64)> = Vec::new();
    let n = ids.len();
    let mut i: usize = 0;
    while i < n
        invariant
            i <= n,
            n == ids@.len(),
            n <= i64::MAX,
            r@.len() == i,
            forall|k: int| 0 <= k < i ==> #[trigger] r@[k] == (k as i64, ids@[k]),
        decreases n - i,
    {
        r.push((i as i64, ids[i]));
        i = i + 1;
    }
    r
}

/// Where the database lives: `.avidhd/data.db` under the home directory, or
/// under the current directory where no home is known.
pub fn db_path(home: &Option<String>) -> (p: String)
    ensures
        p@ == text_or(opt_text(*home), "."@) + "/.avidhd/data.db"@,
{
    let mut p = match home {
        Some(h) => h.clone(),
        None => String::from_str("."),
    };
    p.append("/.avidhd/data.db");
    p
}

} // verus!
