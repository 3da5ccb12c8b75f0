use avidhd::linear::{
    collect_linear_issues, collect_linear_notifications, linear_issue_dedup_key,
    linear_notification_dedup_key, notification_from_raw, FetchedLinearIssue,
    FetchedLinearNotification, RawIssue, RawNotification,
};
use avidhd::linear_sync::{
    issues_without_notification, plan_issue_sync, plan_notification_sync, LinearStep, RemoteRow,
};

fn s(v: &str) -> Option<String> {
    Some(v.to_string())
}

fn note(id: &str, title: &str, identifier: Option<&str>, updated: &str) -> RawNotification {
    RawNotification {
        archived: false,
        snoozed: false,
        id: s(id),
        title: s(title),
        subtitle: None,
        url: s("https://linear.app/n"),
        inbox_url: None,
        issue_id: identifier.map(|i| format!("uuid-{}", i)),
        issue_identifier: identifier.map(str::to_string),
        issue_state: s("Todo"),
        updated_at: s(updated),
    }
}

fn issue(id: &str, identifier: &str, title: &str, updated: &str) -> RawIssue {
    RawIssue {
        archived: false,
        canceled: false,
        completed: false,
        id: s(id),
        identifier: s(identifier),
        title: s(title),
        url: s("https://linear.app/i"),
        state: s("In Progress"),
        updated_at: s(updated),
    }
}

#[test]
fn notification_keys() {
    assert_eq!(linear_notification_dedup_key(Some("ENG-1"), Some("abc"), "n1"), "issue:ENG-1");
    assert_eq!(linear_notification_dedup_key(Some(""), Some("abc"), "n1"), "issue-id:abc");
    assert_eq!(linear_notification_dedup_key(None, Some("abc"), "n1"), "issue-id:abc");
    assert_eq!(linear_notification_dedup_key(None, Some(""), "n1"), "notification:n1");
    assert_eq!(linear_notification_dedup_key(None, None, "n1"), "notification:n1");
}

#[test]
fn issue_keys() {
    assert_eq!(linear_issue_dedup_key("ENG-1", "abc"), "issue:ENG-1");
    assert_eq!(linear_issue_dedup_key("", "abc"), "issue-id:abc");
    assert_eq!(
        linear_issue_dedup_key("ENG-1", "x"),
        linear_notification_dedup_key(Some("ENG-1"), None, "n")
    );
}

#[test]
fn notification_filters() {
    let mut archived = note("a", "t", None, "1");
    archived.archived = true;
    assert_eq!(notification_from_raw(&archived), None);
    let mut snoozed = note("a", "t", None, "1");
    snoozed.snoozed = true;
    assert_eq!(notification_from_raw(&snoozed), None);
    assert_eq!(notification_from_raw(&note("a", "   ", None, "1")), None);
    let mut no_link = note("a", "t", None, "1");
    no_link.url = None;
    assert_eq!(notification_from_raw(&no_link), None);
    no_link.inbox_url = s("");
    assert_eq!(notification_from_raw(&no_link), None);
}

#[test]
fn notification_fields() {
    let mut raw = note("n1", "  Title  ", Some("ENG-2"), "2024-05-01");
    raw.inbox_url = s("https://linear.app/inbox/n1");
    raw.subtitle = s("  sub  ");
    let n = notification_from_raw(&raw).unwrap();
    assert_eq!(n.notification_id, "n1");
    assert_eq!(n.text, "Title");
    assert_eq!(n.subtitle, s("sub"));
    assert_eq!(n.url, "https://linear.app/inbox/n1");
    assert_eq!(n.identifier, s("ENG-2"));
    assert_eq!(n.issue_id, s("uuid-ENG-2"));
    assert_eq!(n.state, s("Todo"));
    assert_eq!(n.updated_at, "2024-05-01");
    raw.subtitle = s("   ");
    raw.inbox_url = s("");
    let n = notification_from_raw(&raw).unwrap();
    assert_eq!(n.subtitle, None);
    assert_eq!(n.url, "https://linear.app/n");
}

#[test]
fn notifications_keep_latest_per_issue() {
    let nodes = Some(vec![
        note("n1", "first", Some("ENG-1"), "2024-01-01"),
        note("n2", "other", None, "2024-01-01"),
        note("n3", "second", Some("ENG-1"), "2024-03-01"),
        note("n4", "older", Some("ENG-1"), "2024-02-01"),
        note("n5", "tie", Some("ENG-1"), "2024-03-01"),
    ]);
    let kept = collect_linear_notifications(&nodes);
    let ids: Vec<&str> = kept.iter().map(|n| n.notification_id.as_str()).collect();
    assert_eq!(ids, vec!["n3", "n2"]);
    assert!(collect_linear_notifications(&None).is_empty());
}

#[test]
fn issue_filters_and_trims() {
    let mut done = issue("i1", "ENG-1", "t", "1");
    done.completed = true;
    let mut blank = issue("i2", "  ", "t", "1");
    blank.state = None;
    let nodes = Some(vec![done, blank, issue(" i3 ", " ENG-3 ", " Title ", "2")]);
    let kept = collect_linear_issues(&nodes);
    assert_eq!(kept.len(), 1);
    assert_eq!(kept[0].issue_id, "i3");
    assert_eq!(kept[0].identifier, "ENG-3");
    assert_eq!(kept[0].title, "Title");
    assert_eq!(kept[0].state, s("In Progress"));
}

#[test]
fn issues_keep_latest() {
    let nodes = Some(vec![
        issue("i1", "ENG-1", "old", "2024-01-01"),
        issue("i2", "ENG-2", "b", "2024-01-01"),
        issue("i1b", "ENG-1", "new", "2024-06-01"),
    ]);
    let kept = collect_linear_issues(&nodes);
    let titles: Vec<&str> = kept.iter().map(|i| i.title.as_str()).collect();
    assert_eq!(titles, vec!["new", "b"]);
}

fn fetched_note(id: &str, identifier: Option<&str>) -> FetchedLinearNotification {
    FetchedLinearNotification {
        notification_id: id.to_string(),
        text: "t".to_string(),
        subtitle: None,
        url: "u".to_string(),
        identifier: identifier.map(str::to_string),
        state: None,
        issue_id: None,
        updated_at: "1".to_string(),
    }
}

fn fetched_issue(id: &str, identifier: &str) -> FetchedLinearIssue {
    FetchedLinearIssue {
        issue_id: id.to_string(),
        identifier: identifier.to_string(),
        title: "t".to_string(),
        url: "u".to_string(),
        state: None,
        updated_at: "1".to_string(),
    }
}

#[test]
fn issues_covered_by_notifications_are_dropped() {
    let notes = vec![fetched_note("n1", Some("ENG-1")), fetched_note("n2", None)];
    let issues = vec![fetched_issue("a", "ENG-1"), fetched_issue("b", "ENG-2")];
    let shown = issues_without_notification(&notes, &issues);
    assert_eq!(shown, vec![fetched_issue("b", "ENG-2")]);
}

fn remote(id: Option<&str>, status: Option<&str>) -> RemoteRow {
    RemoteRow { remote_id: id.map(str::to_string), status: status.map(str::to_string) }
}

#[test]
fn notification_sync_plan() {
    let notes = vec![fetched_note("n1", None), fetched_note("n2", None)];
    let rows = vec![
        remote(Some("n1"), Some("done")),
        remote(Some("old"), Some("open")),
        remote(Some("old"), Some("done")),
        remote(None, None),
    ];
    assert_eq!(
        plan_notification_sync(&notes, &rows),
        vec![
            LinearStep::UpdateNotification(0),
            LinearStep::InsertNotification(1),
            LinearStep::CloseNotification("old".to_string()),
            LinearStep::CloseNotification(String::new()),
        ]
    );
}

#[test]
fn issue_sync_plan_keeps_status() {
    let issues = vec![fetched_issue("a", "ENG-1"), fetched_issue("b", "ENG-2")];
    let rows = vec![
        remote(Some("a"), Some("open")),
        remote(Some("gone"), None),
        remote(Some("a"), Some("done")),
    ];
    assert_eq!(
        plan_issue_sync(&issues, &rows),
        vec![
            LinearStep::UpdateIssue(0, "done".to_string()),
            LinearStep::InsertIssue(1),
            LinearStep::CloseIssue("gone".to_string()),
        ]
    );
}

#[test]
fn second_sync_only_refreshes() {
    let notes = vec![fetched_note("n1", None), fetched_note("n2", None)];
    // The rows as the first sync left them: both notifications stored, the
    // one Linear no longer lists already done.
    let rows = vec![
        remote(Some("n1"), Some("done")),
        remote(Some("old"), Some("done")),
        remote(Some("n2"), Some("open")),
    ];
    assert_eq!(
        plan_notification_sync(&notes, &rows),
        vec![
            LinearStep::UpdateNotification(0),
            LinearStep::UpdateNotification(1),
            LinearStep::CloseNotification("old".to_string()),
        ]
    );
    let issues = vec![fetched_issue("a", "ENG-1")];
    let rows = vec![remote(Some("a"), Some("done")), remote(Some("a"), Some("done"))];
    assert_eq!(plan_issue_sync(&issues, &rows), vec![LinearStep::UpdateIssue(0, "done".to_string())]);
}
