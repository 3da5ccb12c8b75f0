use avidhd::actions::{
    github_login, graphql_outcome, linear_viewer_label, mutation_outcome, plan_close,
    plan_reopen, require_linear_token, ClosePlan, CloseRow, LinearMutation, LocalClose,
    RemoteArchive, ReopenRow,
};
use avidhd::items::{
    db_path, item_from_columns, items_query, new_task_item, reorder_positions, search_pattern,
    ItemColumns, ItemsQuery,
};
use avidhd::tokens::{
    lookup_token, remember_saved_token, token_cleared, token_from_keyring, KeyringDelete,
    KeyringRead, TokenLookup,
};

fn s(v: &str) -> Option<String> {
    Some(v.to_string())
}

fn close_row(kind: &str, nid: Option<&str>, ident: Option<&str>, issue: Option<&str>) -> Option<CloseRow> {
    Some(CloseRow {
        kind: s(kind),
        notification_id: nid.map(str::to_string),
        identifier: ident.map(str::to_string),
        issue_id: issue.map(str::to_string),
    })
}

#[test]
fn closing_plain_items() {
    let plain = ClosePlan { needs_linear: false, archive: RemoteArchive::Nothing, local: LocalClose::ById };
    assert_eq!(plan_close(&None), plain);
    assert_eq!(plan_close(&close_row("task", Some("n"), Some("E-1"), Some("i"))), plain);
    let no_kind = Some(CloseRow { kind: None, notification_id: s("n"), identifier: None, issue_id: None });
    assert_eq!(plan_close(&no_kind), plain);
}

#[test]
fn closing_notifications() {
    assert_eq!(
        plan_close(&close_row("linear_notification", Some("n1"), Some("E-1"), Some("iss"))),
        ClosePlan {
            needs_linear: true,
            archive: RemoteArchive::AllForIssue("iss".to_string()),
            local: LocalClose::ByIssue("iss".to_string()),
        }
    );
    assert_eq!(
        plan_close(&close_row("linear_notification", Some("n1"), Some("E-1"), Some(""))),
        ClosePlan {
            needs_linear: true,
            archive: RemoteArchive::Notification("n1".to_string()),
            local: LocalClose::ByIdentifier("E-1".to_string()),
        }
    );
    assert_eq!(
        plan_close(&close_row("linear_notification", None, Some(""), None)),
        ClosePlan { needs_linear: true, archive: RemoteArchive::Nothing, local: LocalClose::ById }
    );
}

#[test]
fn reopening() {
    let row = |kind: &str, nid: Option<&str>| Some(ReopenRow { kind: s(kind), notification_id: nid.map(str::to_string) });
    assert_eq!(plan_reopen(&row("linear_notification", Some("n1"))), s("n1"));
    assert_eq!(plan_reopen(&row("linear_notification", None)), None);
    assert_eq!(plan_reopen(&row("pr", Some("n1"))), None);
    assert_eq!(plan_reopen(&None), None);
}

#[test]
fn linear_token_required() {
    assert_eq!(require_linear_token(""), Err("Linear is not connected".to_string()));
    assert_eq!(require_linear_token("lin_api_x"), Ok(()));
}

#[test]
fn mutation_outcomes() {
    assert_eq!(mutation_outcome(LinearMutation::ArchiveNotification, Ok(Some(true))), Ok(()));
    assert_eq!(
        mutation_outcome(LinearMutation::ArchiveNotification, Ok(Some(false))),
        Err("Failed to archive Linear notification".to_string())
    );
    assert_eq!(
        mutation_outcome(LinearMutation::ArchiveNotificationsForIssue, Ok(None)),
        Err("Failed to archive Linear notifications for issue".to_string())
    );
    assert_eq!(
        mutation_outcome(LinearMutation::UnarchiveNotification, Ok(None)),
        Err("Failed to unarchive Linear notification".to_string())
    );
    assert_eq!(mutation_outcome(LinearMutation::ArchiveNotification, Err("Entity not found: x".to_string())), Ok(()));
    assert_eq!(mutation_outcome(LinearMutation::ArchiveNotificationsForIssue, Err("Entity not found".to_string())), Ok(()));
    assert_eq!(
        mutation_outcome(LinearMutation::UnarchiveNotification, Err("Entity not found".to_string())),
        Err("Entity not found".to_string())
    );
    assert_eq!(
        mutation_outcome(LinearMutation::ArchiveNotification, Err("Linear returned 500".to_string())),
        Err("Linear returned 500".to_string())
    );
}

#[test]
fn graphql_answers() {
    assert_eq!(graphql_outcome(None, Some(5)), Ok(5));
    assert_eq!(graphql_outcome::<i32>(None, None), Err("Linear returned no data".to_string()));
    assert_eq!(
        graphql_outcome(Some(vec!["bad".to_string(), "worse".to_string()]), Some(5)),
        Err("bad; worse".to_string())
    );
    assert_eq!(graphql_outcome::<i32>(Some(vec![]), None), Err(String::new()));
}

#[test]
fn viewer_labels() {
    assert_eq!(linear_viewer_label(&s("  Ada "), &s("ada@x")), "Ada");
    assert_eq!(linear_viewer_label(&s("   "), &s(" ada@x ")), "ada@x");
    assert_eq!(linear_viewer_label(&None, &None), "Linear user");
    assert_eq!(github_login(&s("octocat")), "octocat");
    assert_eq!(github_login(&None), "unknown");
}

fn columns() -> ItemColumns {
    ItemColumns {
        id: Ok(3),
        text: Ok("Buy milk".to_string()),
        position: Ok(-2),
        status: Ok("open".to_string()),
        snoozed_until: Some(100),
        kind: None,
        pr_url: None,
        pr_repo: None,
        pr_number: Some(12),
        pr_role: s("authored"),
        pr_draft: Some(0),
        pr_checks_status: s("pending"),
        linear_url: None,
        linear_subtitle: None,
        linear_identifier: None,
        linear_state: None,
        linear_notification_id: None,
        linear_issue_id: None,
    }
}

#[test]
fn items_from_rows() {
    let item = item_from_columns(columns()).unwrap();
    assert_eq!(item.id, 3);
    assert_eq!(item.kind, "task");
    assert_eq!(item.pr_draft, Some(false));
    assert_eq!(item.snoozed_until, Some(100));
    let mut c = columns();
    c.pr_draft = Some(7);
    c.kind = s("pr");
    let item = item_from_columns(c).unwrap();
    assert_eq!(item.pr_draft, Some(true));
    assert_eq!(item.kind, "pr");
    let mut c = columns();
    c.text = Err("bad text".to_string());
    c.status = Err("bad status".to_string());
    assert_eq!(item_from_columns(c), Err("bad text".to_string()));
}

#[test]
fn new_tasks() {
    let item = new_task_item(8, "Write tests".to_string(), 4);
    assert_eq!(item.status, "open");
    assert_eq!(item.kind, "task");
    assert_eq!(item.position, 4);
    assert_eq!(item.linear_issue_id, None);
}

#[test]
fn list_queries() {
    assert_eq!(items_query(true, false), ItemsQuery::Everything);
    assert_eq!(items_query(true, true), ItemsQuery::Everything);
    assert_eq!(items_query(false, true), ItemsQuery::OpenSnoozedLast);
    assert_eq!(items_query(false, false), ItemsQuery::OpenAwake);
    assert_eq!(search_pattern("milk"), "%milk%");
    assert_eq!(search_pattern(""), "%%");
}

#[test]
fn reordering() {
    assert_eq!(reorder_positions(&vec![9, 4, 7]), vec![(0, 9), (1, 4), (2, 7)]);
    assert_eq!(reorder_positions(&vec![]), vec![]);
}

#[test]
fn database_location() {
    assert_eq!(db_path(&s("/home/ada")), "/home/ada/.avidhd/data.db");
    assert_eq!(db_path(&None), "./.avidhd/data.db");
}

#[test]
fn token_lookup_order() {
    assert_eq!(lookup_token(&s("env"), &s("cached")), TokenLookup::Found("env".to_string()));
    assert_eq!(lookup_token(&s(""), &s("cached")), TokenLookup::Found("cached".to_string()));
    assert_eq!(lookup_token(&None, &s("")), TokenLookup::Found(String::new()));
    assert_eq!(lookup_token(&None, &None), TokenLookup::AskKeyring);
}

#[test]
fn keyring_reads_are_remembered() {
    let mut cache = None;
    assert_eq!(token_from_keyring(&mut cache, KeyringRead::Found("t1".to_string())), Ok("t1".to_string()));
    assert_eq!(lookup_token(&None, &cache), TokenLookup::Found("t1".to_string()));
    let mut cache = None;
    assert_eq!(token_from_keyring(&mut cache, KeyringRead::NoEntry), Ok(String::new()));
    assert_eq!(cache, s(""));
    let mut cache = None;
    assert_eq!(token_from_keyring(&mut cache, KeyringRead::Failed("locked".to_string())), Err("locked".to_string()));
    assert_eq!(cache, None);
}

#[test]
fn saving_and_clearing_tokens() {
    let mut cache = None;
    remember_saved_token(&mut cache, &"saved".to_string());
    assert_eq!(lookup_token(&None, &cache), TokenLookup::Found("saved".to_string()));
    assert_eq!(token_cleared(&mut cache, KeyringDelete::NoEntry), Ok(()));
    assert_eq!(lookup_token(&None, &cache), TokenLookup::Found(String::new()));
    let mut cache = s("kept");
    assert_eq!(token_cleared(&mut cache, KeyringDelete::Failed("denied".to_string())), Err("denied".to_string()));
    assert_eq!(cache, s("kept"));
    assert_eq!(token_cleared(&mut cache, KeyringDelete::Deleted), Ok(()));
    assert_eq!(cache, s(""));
}

#[test]
fn syncing_needs_a_token() {
    assert!(!avidhd::tokens::can_sync(""));
    assert!(avidhd::tokens::can_sync("ghp_x"));
}

#[test]
fn closing_then_reopening_a_task_stays_local() {
    for kind in ["task", "pr", "linear_issue"] {
        let closed = plan_close(&close_row(kind, Some("n1"), Some("E-1"), Some("iss")));
        assert_eq!(
            closed,
            ClosePlan { needs_linear: false, archive: RemoteArchive::Nothing, local: LocalClose::ById }
        );
        let reopen = Some(ReopenRow { kind: s(kind), notification_id: s("n1") });
        assert_eq!(plan_reopen(&reopen), None);
    }
}
