use avidhd::pulls::{
    check_runs_url, pr_api_url,
    check_status_targets, collect_pull_requests, plan_pr_sync, pr_from_raw, pr_search_url,
    repo_from_url, search_role_text, summarize_check_runs, CheckRun, FetchedPr, PrRow, PrSearch,
    PrSyncStep, RawPullRequest,
};

fn raw(id: i64, url: &str, title: &str) -> RawPullRequest {
    RawPullRequest {
        id: Some(id),
        html_url: Some(url.to_string()),
        title: Some(title.to_string()),
        number: Some(id * 10),
        draft: Some(false),
    }
}

fn splitn_repo(url: &str) -> String {
    let parts: Vec<&str> = url.splitn(8, '/').collect();
    if parts.len() >= 5 {
        format!("{}/{}", parts[3], parts[4])
    } else {
        String::new()
    }
}

#[test]
fn repo_is_owner_and_name() {
    assert_eq!(repo_from_url("https://github.com/rust-lang/rust/pull/123"), "rust-lang/rust");
    assert_eq!(repo_from_url("https://github.com/owner"), "");
    assert_eq!(repo_from_url("https://github.com/owner/"), "owner/");
    assert_eq!(repo_from_url(""), "");
    let samples = [
        "https://github.com/a/b/pull/1",
        "a/b/c/d/e/f/g/h/i/j",
        "////",
        "///",
        "https://github.com/ü/ñ/pull/9",
    ];
    for s in samples {
        assert_eq!(repo_from_url(s), splitn_repo(s), "url {:?}", s);
    }
}

#[test]
fn search_urls() {
    assert_eq!(
        pr_search_url(PrSearch::Authored),
        "https://api.github.com/search/issues?q=is:open+is:pr+author:@me+archived:false&per_page=50&sort=updated"
    );
    assert_eq!(
        pr_search_url(PrSearch::ReviewRequested),
        "https://api.github.com/search/issues?q=is:open+is:pr+review-requested:@me+archived:false&per_page=50&sort=updated"
    );
    assert_eq!(search_role_text(PrSearch::Authored), "authored");
    assert_eq!(search_role_text(PrSearch::ReviewRequested), "review_requested");
}

#[test]
fn raw_entry_defaults() {
    let empty = RawPullRequest { id: None, html_url: None, title: None, number: None, draft: None };
    let pr = pr_from_raw(&empty, "authored");
    assert_eq!(pr.github_id, 0);
    assert_eq!(pr.title, "");
    assert_eq!(pr.url, "");
    assert_eq!(pr.repo, "");
    assert_eq!(pr.number, 0);
    assert_eq!(pr.role, "authored");
    assert!(!pr.draft);
    assert_eq!(pr.checks_status, None);
}

#[test]
fn prs_from_both_searches_once_each() {
    let authored = Some(vec![
        raw(1, "https://github.com/o/a/pull/10", "first"),
        raw(2, "https://github.com/o/b/pull/20", "second"),
        raw(1, "https://github.com/o/a/pull/10", "first again"),
    ]);
    let review = Some(vec![
        raw(2, "https://github.com/o/b/pull/20", "second for review"),
        raw(3, "https://github.com/o/c/pull/30", "third"),
    ]);
    let prs = collect_pull_requests(&authored, &review);
    let ids: Vec<i64> = prs.iter().map(|p| p.github_id).collect();
    assert_eq!(ids, vec![1, 2, 3]);
    assert_eq!(prs[0].title, "first");
    assert_eq!(prs[1].role, "authored");
    assert_eq!(prs[1].title, "second");
    assert_eq!(prs[2].role, "review_requested");
    assert_eq!(prs[2].repo, "o/c");
    assert_eq!(prs[2].number, 30);
}

#[test]
fn missing_search_results_give_nothing() {
    assert!(collect_pull_requests(&None, &None).is_empty());
    let review = Some(vec![raw(7, "https://github.com/x/y/pull/1", "t")]);
    let prs = collect_pull_requests(&None, &review);
    assert_eq!(prs.len(), 1);
    assert_eq!(prs[0].role, "review_requested");
}

fn run(conclusion: Option<&str>, status: Option<&str>) -> CheckRun {
    CheckRun { conclusion: conclusion.map(str::to_string), status: status.map(str::to_string) }
}

#[test]
fn check_summaries() {
    assert_eq!(summarize_check_runs(&vec![]), None);
    assert_eq!(
        summarize_check_runs(&vec![run(Some("success"), Some("completed"))]),
        Some("success".to_string())
    );
    assert_eq!(
        summarize_check_runs(&vec![run(Some("success"), Some("completed")), run(None, Some("in_progress"))]),
        Some("pending".to_string())
    );
    assert_eq!(
        summarize_check_runs(&vec![run(None, None)]),
        Some("pending".to_string())
    );
    for bad in ["failure", "timed_out", "cancelled"] {
        assert_eq!(
            summarize_check_runs(&vec![run(None, Some("queued")), run(Some(bad), Some("completed"))]),
            Some("failure".to_string())
        );
    }
    assert_eq!(
        summarize_check_runs(&vec![run(Some("skipped"), Some("completed")), run(Some("neutral"), Some("completed"))]),
        Some("success".to_string())
    );
}

fn fetched(id: i64, repo: &str) -> FetchedPr {
    FetchedPr {
        github_id: id,
        title: format!("pr {}", id),
        url: String::new(),
        repo: repo.to_string(),
        number: id,
        role: "authored".to_string(),
        draft: false,
        checks_status: None,
    }
}

#[test]
fn checks_only_where_repo_known() {
    let prs = vec![fetched(1, "o/a"), fetched(2, ""), fetched(3, "o/c")];
    assert_eq!(check_status_targets(&prs), vec![0, 2]);
}

fn row(id: Option<i64>, status: Option<&str>) -> PrRow {
    PrRow { pr_id: id, status: status.map(str::to_string) }
}

#[test]
fn pr_sync_updates_inserts_and_closes() {
    let prs = vec![fetched(1, "o/a"), fetched(5, "o/e")];
    let rows = vec![
        row(Some(1), Some("open")),
        row(Some(2), Some("open")),
        row(Some(3), Some("done")),
        row(None, Some("open")),
        row(Some(4), None),
    ];
    let plan = plan_pr_sync(&prs, &rows);
    assert_eq!(
        plan,
        vec![
            PrSyncStep::Update(0),
            PrSyncStep::Insert(1),
            PrSyncStep::MarkDone(2),
            PrSyncStep::MarkDone(4),
        ]
    );
}

#[test]
fn pr_sync_last_row_wins() {
    let rows = vec![row(Some(9), Some("open")), row(Some(9), Some("done"))];
    assert_eq!(plan_pr_sync(&vec![], &rows), vec![]);
    let rows = vec![row(Some(9), Some("done")), row(Some(9), Some("open"))];
    assert_eq!(plan_pr_sync(&vec![], &rows), vec![PrSyncStep::MarkDone(9)]);
}

#[test]
fn listed_pr_is_never_closed() {
    let prs = vec![fetched(2, "o/b")];
    let rows = vec![row(Some(2), Some("open")), row(Some(2), Some("open"))];
    assert_eq!(plan_pr_sync(&prs, &rows), vec![PrSyncStep::Update(0)]);
}

#[test]
fn api_urls_of_a_pull_request() {
    for n in [0i64, 7, 10, 1234, -5, i64::MAX, i64::MIN] {
        assert_eq!(
            pr_api_url("octo/repo", n),
            format!("https://api.github.com/repos/{}/pulls/{}", "octo/repo", n)
        );
    }
    assert_eq!(pr_api_url("a/b", 42), "https://api.github.com/repos/a/b/pulls/42");
    assert_eq!(
        check_runs_url("octo/repo", "abc123"),
        "https://api.github.com/repos/octo/repo/commits/abc123/check-runs?per_page=100"
    );
}

#[test]
fn second_pr_sync_only_refreshes() {
    let prs = vec![fetched(1, "o/a"), fetched(5, "o/e")];
    // The rows as the first sync left them: both fetched pull requests stored,
    // the ones GitHub no longer lists done.
    let rows = vec![
        row(Some(1), Some("open")),
        row(Some(2), Some("done")),
        row(Some(3), Some("done")),
        row(Some(4), Some("done")),
        row(Some(5), Some("open")),
    ];
    assert_eq!(plan_pr_sync(&prs, &rows), vec![PrSyncStep::Update(0), PrSyncStep::Update(1)]);
}
