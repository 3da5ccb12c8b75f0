//! Closing and reopening items that mirror Linear notifications, and reading
//! the answers of Linear's and GitHub's APIs.
use vstd::prelude::*;
use crate::text::{
    contains_text, has_infix, join_texts, joined, opt_text, text_is, text_is_empty, text_of,
    text_or_empty, trim_text, trimmed,
};

verus! {

/// What the close of an item reads from its stored row: its kind (`None`
/// where it could not be read) and the Linear ids it mirrors.
#[derive(Clone, Debug, PartialEq, Eq)]
pub struct CloseRow {
    pub kind: Option<String>,
    pub notification_id: Option<String>,
    pub identifier: Option<String>,
    pub issue_id: Option<String>,
}

/// What has to be archived on Linear's side before an item is closed.
#[derive(Clone, Debug, PartialEq, Eq)]
pub enum RemoteArchive {
    Nothing,
    /// Archive every notification about the issue with this id.
    AllForIssue(String),
    /// Archive the notification with this id.
    Notification(String),
}

/// Which stored items a close marks done.
#[derive(Clone, Debug, PartialEq, Eq)]
pub enum LocalClose {
    /// The notification items about the issue with this id.
    ByIssue(String),
    /// The notification items about the issue with this identifier.
    ByIdentifier(String),
    /// The item itself.
    ById,
}

/// How an item is closed: whether a Linear token is needed, what is archived
/// on Linear, and which items are marked done.
#[derive(Clone, Debug, PartialEq, Eq)]
pub struct ClosePlan {
    pub needs_linear: bool,
    pub archive: RemoteArchive,
    pub local: LocalClose,
}

pub enum RemoteArchiveView {
    Nothing,
    AllForIssue(Seq<char>),
    Notification(Seq<char>),
}

pub enum LocalCloseView {
    ByIssue(Seq<char>),
    ByIdentifier(Seq<char>),
    ById,
}

pub struct ClosePlanView {
    pub needs_linear: bool,
    pub archive: RemoteArchiveView,
    pub local: LocalCloseView,
}

impl View for ClosePlan {
    type V = ClosePlanView;

    open spec fn view(&self) -> ClosePlanView {
        ClosePlanView {
            needs_linear: self.needs_linear,
            archive: match self.archive {
                RemoteArchive::Nothing => RemoteArchiveView::Nothing,
                RemoteArchive::AllForIssue(s) => RemoteArchiveView::AllForIssue(s@),
                RemoteArchive::Notification(s) => RemoteArchiveView::Notification(s@),
            },
            local: match self.local {
                LocalClose::ByIssue(s) => LocalCloseView::ByIssue(s@),
                LocalClose::ByIdentifier(s) => LocalCloseView::ByIdentifier(s@),
                LocalClose::ById => LocalCloseView::ById,
            },
        }
    }
}

/// The value is present and not empty.
pub open spec fn present(o: Option<Seq<char>>) -> bool {
    o is Some && o->0.len() > 0
}

/// The row is one of a Linear notification.
pub open spec fn mirrors_notification(kind: Option<Seq<char>>) -> bool {
    text_or_empty(kind) == "linear_notification"@
}

/// How an item is closed, given its stored kind and Linear ids. A Linear
/// notification is archived on Linear (all notifications of its issue where the
/// issue id is known, else the notification itself where its id is known), and
/// then every notification item of the same issue is marked done, found by
/// issue id or else by identifier; without either, and for every other item,
/// the item alone is marked done.
pub open spec fn close_plan_for(
    kind: Option<Seq<char>>,
    notification_id: Option<Seq<char>>,
    identifier: Option<Seq<char>>,
    issue_id: Option<Seq<char>>,
) -> ClosePlanView {
    if mirrors_notification(kind) {
        ClosePlanView {
            needs_linear: true,
            archive: if present(issue_id) {
                RemoteArchiveView::AllForIssue(issue_id->0)
            } else if notification_id is Some {
                RemoteArchiveView::Notification(notification_id->0)
            } else {
                RemoteArchiveView::Nothing
            },
            local: if present(issue_id) {
                LocalCloseView::ByIssue(issue_id->0)
            } else if present(identifier) {
                LocalCloseView::ByIdentifier(identifier->0)
            } else {
                LocalCloseView::ById
            },
        }
    } else {
        ClosePlanView {
            needs_linear: false,
            archive: RemoteArchiveView::Nothing,
            local: LocalCloseView::ById,
        }
    }
}

/// How the item whose stored row is `row` is closed; an item without a row
/// is closed like a task.
pub open spec fn close_plan_of(row: Option<CloseRow>) -> ClosePlanView {
    match row {
        Some(r) => close_plan_for(
            opt_text(r.kind),
            opt_text(r.notification_id),
            opt_text(r.identifier),
            opt_text(r.issue_id),
        ),
        None => close_plan_for(None, None, None, None),
    }
}

/// The notification to unarchive when an item of this kind and notification
/// id is reopened.
pub open spec fn reopen_for(kind: Option<Seq<char>>, notification_id: Option<Seq<char>>) -> Option<
    Seq<char>,
> {
    if mirrors_notification(kind) {
        notification_id
    } else {
        None
    }
}

/// How a stored row is closed, case by case. A row that is not a Linear
/// notification (or no row at all) is closed alone, with nothing sent to
/// Linear. A Linear notification needs Linear: where it names an issue, every
/// notification of the issue is archived and every notification item of the
/// issue is closed; else its own notification is archived where its id is
/// known (whatever the identifier), and the notification items of its
/// identifier are closed where it has one, else the item alone.
pub proof fn lemma_close_plan(row: Option<CloseRow>)
    ensures
        row is None ==> close_plan_of(row) == (ClosePlanView {
            needs_linear: false,
            archive: RemoteArchiveView::Nothing,
            local: LocalCloseView::ById,
        }),
        row is Some && opt_text(row->0.kind) != Some("linear_notification"@) ==> close_plan_of(row)
            == (ClosePlanView {
            needs_linear: false,
            archive: RemoteArchiveView::Nothing,
            local: LocalCloseView::ById,
        }),
        row is Some && opt_text(row->0.kind) == Some("linear_notification"@) ==> close_plan_of(
            row,
        ).needs_linear,
        row is Some && opt_text(row->0.kind) == Some("linear_notification"@) && row->0.issue_id is Some
            && row->0.issue_id->0@.len() > 0 ==> close_plan_of(row).archive
            == RemoteArchiveView::AllForIssue(row->0.issue_id->0@) && close_plan_of(row).local
            == LocalCloseView::ByIssue(row->0.issue_id->0@),
        row is Some && opt_text(row->0.kind) == Some("linear_notification"@) && (row->0.issue_id is None
            || row->0.issue_id->0@.len() == 0) ==> {
            &&& row->0.notification_id is Some ==> close_plan_of(row).archive
                == RemoteArchiveView::Notification(row->0.notification_id->0@)
            &&& row->0.notification_id is None ==> close_plan_of(row).archive
                == RemoteArchiveView::Nothing
            &&& (row->0.identifier is Some && row->0.identifier->0@.len() > 0) ==> close_plan_of(
                row,
            ).local == LocalCloseView::ByIdentifier(row->0.identifier->0@)
            &&& (row->0.identifier is None || row->0.identifier->0@.len() == 0) ==> close_plan_of(
                row,
            ).local == LocalCloseView::ById
        },
{
    reveal_strlit("linear_notification");
    assert("linear_notification"@.len() > 0);
}

/// Reopening unarchives on Linear exactly the notification of a Linear
/// notification item whose id is known, and nothing for any other item.
pub proof fn lemma_reopen_plan(kind: Option<Seq<char>>, notification_id: Option<Seq<char>>)
    ensures
        kind == Some("linear_notification"@) ==> reopen_for(kind, notification_id) == notification_id,
        kind != Some("linear_notification"@) ==> reopen_for(kind, notification_id) is None,
{
    reveal_strlit("linear_notification");
    assert("linear_notification"@.len() > 0);
}

fn nonempty_copy(o: &Option<String>) -> (r: Option<String>)
    ensures
        present(opt_text(*o)) ==> r is Some && r->0@ == opt_text(*o)->0,
        !present(opt_text(*o)) ==> r is None,
{
    match o {
        Some(s) => if text_is_empty(s.as_str()) {
            None
        } else {
            Some(s.clone())
        },
        None => None,
    }
}

/// How the item whose stored row is `row` (`None` where there is no such
/// row) is closed.
pub fn plan_close(row: &Option<CloseRow>) -> (p: ClosePlan)
    ensures
        p@ == close_plan_of(*row),
{
    if let Some(r) = row {
        let kind = text_of(&r.kind);
        if text_is(kind.as_str(), "linear_notification") {
            let issue = nonempty_copy(&r.issue_id);
            let ident = nonempty_copy(&r.identifier);
            let archive = match &issue {
                Some(i) => RemoteArchive::AllForIssue(i.clone()),
                None => match &r.notification_id {
                    Some(n) => RemoteArchive::Notification(n.clone()),
                    None => RemoteArchive::Nothing,
                },
            };
            let local = match issue {
                Some(i) => LocalClose::ByIssue(i),
                None => match ident {
                    Some(x) => LocalClose::ByIdentifier(x),
                    None => LocalClose::ById,
                },
            };
            return ClosePlan { needs_linear: true, archive, local };
        }
    }
    proof {
        reveal_strlit("linear_notification");
        assert("linear_notification"@.len() > 0);
        assert(!mirrors_notification(None));
    }
    ClosePlan { needs_linear: false, archive: RemoteArchive::Nothing, local: LocalClose::ById }
}

/// What reopening an item reads from its stored row.
#[derive(Clone, Debug, PartialEq, Eq)]
pub struct ReopenRow {
    pub kind: Option<String>,
    pub notification_id: Option<String>,
}

/// The notification to unarchive on Linear before an item is reopened: the
/// item's notification id where the item mirrors a Linear notification and
/// the id is known. The item itself is reopened in any case.
pub fn plan_reopen(row: &Option<ReopenRow>) -> (r: Option<String>)
    ensures
        opt_text(r) == match *row {
            Some(x) => reopen_for(opt_text(x.kind), opt_text(x.notification_id)),
            None => None,
        },
{
    match row {
        Some(x) => {
            let kind = text_of(&x.kind);
            if text_is(kind.as_str(), "linear_notification") {
                match &x.notification_id {
                    Some(n) => Some(n.clone()),
                    None => None,
                }
            } else {
                None
            }
        },
        None => None,
    }
}

/// Work on Linear's side needs a token: an empty one means Linear is not
/// connected.
pub fn require_linear_token(token: &str) -> (r: Result<(), String>)
    ensures
        token@.len() == 0 ==> (r matches Err(e) && e@ == "Linear is not connected"@),
        token@.len() > 0 ==> r is Ok,
{
    if text_is_empty(token) {
        Err(String::from_str("Linear is not connected"))
    } else {
        Ok(())
    }
}

/// The mutations the app sends to Linear.
#[derive(Clone, Copy, Debug, PartialEq, Eq, Structural)]
pub enum LinearMutation {
    ArchiveNotification,
    ArchiveNotificationsForIssue,
    UnarchiveNotification,
}

pub open spec fn mutation_failure(m: LinearMutation) -> Seq<char> {
    match m {
        LinearMutation::ArchiveNotification => "Failed to archive Linear notification"@,
        LinearMutation::ArchiveNotificationsForIssue => "Failed to archive Linear notifications for issue"@,
        LinearMutation::UnarchiveNotification => "Failed to unarchive Linear notification"@,
    }
}

/// The outcome of a mutation, given Linear's reply: the error of the request,
/// or the `success` flag of the answer (`None` where it is missing or not a
/// boolean). An archive that fails because the entity no longer exists counts
/// as done; a mutation whose answer does not report success fails.
pub open spec fn mutation_result(m: LinearMutation, reply: Result<Option<bool>, String>) -> Result<
    (),
    Seq<char>,
> {
    match reply {
        Err(e) => if m != LinearMutation::UnarchiveNotification && has_infix(
            e@,
            "Entity not found"@,
        ) {
            Ok(())
        } else {
            Err(e@)
        },
        Ok(Some(true)) => Ok(()),
        Ok(_) => Err(mutation_failure(m)),
    }
}

/// What a mutation's reply comes to: a reply that reports success succeeds;
/// an archive whose request failed because the entity is gone succeeds too,
/// while an unarchive never excuses a failed request; any other failed request
/// fails with its own error; and an answer that does not report success
/// fails with the mutation's own message.
pub proof fn lemma_mutation_result(m: LinearMutation, reply: Result<Option<bool>, String>)
    ensures
        reply == Ok::<Option<bool>, String>(Some(true)) ==> mutation_result(m, reply) == Ok::<
            (),
            Seq<char>,
        >(()),
        reply is Ok && reply->Ok_0 != Some(true) ==> mutation_result(m, reply) == Err::<(), Seq<char>>(
            mutation_failure(m),
        ),
        reply is Err && m != LinearMutation::UnarchiveNotification && has_infix(
            reply->Err_0@,
            "Entity not found"@,
        ) ==> mutation_result(m, reply) is Ok,
        reply is Err && (m == LinearMutation::UnarchiveNotification || !has_infix(
            reply->Err_0@,
            "Entity not found"@,
        )) ==> mutation_result(m, reply) == Err::<(), Seq<char>>(reply->Err_0@),
        mutation_result(m, reply) is Err ==> mutation_result(m, reply)->Err_0.len() > 0 || (reply is Err
            && reply->Err_0@.len() == 0),
{
    reveal_strlit("Failed to archive Linear notification");
    reveal_strlit("Failed to archive Linear notifications for issue");
    reveal_strlit("Failed to unarchive Linear notification");
}

pub open spec fn error_text(r: Result<(), String>) -> Result<(), Seq<char>> {
    match r {
        Ok(()) => Ok(()),
        Err(e) => Err(e@),
    }
}

/// The outcome of a Linear mutation, given its reply.
pub fn mutation_outcome(m: LinearMutation, reply: Result<Option<bool>, String>) -> (r: Result<
    (),
    String,
>)
    ensures
        error_text(r) == mutation_result(m, reply),
{
    match reply {
        Err(e) => {
            let tolerant = match m {
                LinearMutation::UnarchiveNotification => false,
                _ => true,
            };
            if tolerant && contains_text(e.as_str(), "Entity not found") {
                Ok(())
            } else {
                Err(e)
            }
        },
        Ok(Some(true)) => Ok(()),
        Ok(_) => {
            let msg = match m {
                LinearMutation::ArchiveNotification => "Failed to archive Linear notification",
                LinearMutation::ArchiveNotificationsForIssue => "Failed to archive Linear notifications for issue",
                LinearMutation::UnarchiveNotification => "Failed to unarchive Linear notification",
            };
            Err(String::from_str(msg))
        },
    }
}

/// The data of a GraphQL answer: the errors it reports, joined with "; ",
/// take precedence; an answer without errors and without data fails too.
pub fn graphql_outcome<D>(errors: Option<Vec<String>>, data: Option<D>) -> (r: Result<D, String>)
    ensures
        errors is Some ==> (r matches Err(e) && e@ == joined(
            errors->0@.map_values(|s: String| s@),
            "; "@,
        )),
        errors is None && data is Some ==> (r matches Ok(d) && d == data->0),
        errors is None && data is None ==> (r matches Err(e) && e@ == "Linear returned no data"@),
{
    match errors {
        Some(es) => Err(join_texts(&es, "; ")),
        None => match data {
            Some(d) => Ok(d),
            None => Err(String::from_str("Linear returned no data")),
        },
    }
}

/// How a Linear user is shown: the trimmed name, else the trimmed email, else
/// "Linear user".
pub open spec fn viewer_label(name: Option<Seq<char>>, email: Option<Seq<char>>) -> Seq<char> {
    if trimmed(text_or_empty(name)).len() > 0 {
        trimmed(text_or_empty(name))
    } else if trimmed(text_or_empty(email)).len() > 0 {
        trimmed(text_or_empty(email))
    } else {
        "Linear user"@
    }
}

/// How the Linear user a token belongs to is shown.
pub fn linear_viewer_label(name: &Option<String>, email: &Option<String>) -> (r: String)
    ensures
        r@ == viewer_label(opt_text(*name), opt_text(*email)),
{
    let n = trim_text(text_of(name).as_str());
    if !text_is_empty(n.as_str()) {
        return n;
    }
    let e = trim_text(text_of(email).as_str());
    if !text_is_empty(e.as_str()) {
        return e;
    }
    String::from_str("Linear user")
}

/// The GitHub login a token belongs to, "unknown" where the answer has none.
pub fn github_login(login: &Option<String>) -> (r: String)
    ensures
        r@ == match opt_text(*login) {
            Some(l) => l,
            None => "unknown"@,
        },
{
    match login {
        Some(l) => l.clone(),
        None => String::from_str("unknown"),
    }
}

} // verus!
