//! GitHub pull requests: reading search results, summarising check runs and
//! deciding how the stored pull-request items follow what GitHub lists.
use vstd::prelude::*;
use crate::table::{
    value_at, distinct_keys, has_key, key_index, keyed_by, keyed_entries, last_keyed, lemma_first_index,
    lemma_key_index, lemma_keyed_table, lemma_upserted, upsert_all, upserted,
};
use crate::text::{lemma_split_after, lemma_split_on, text_is, text_is_empty, text_or, opt_text, plus_for_spaces, spaces_to_plus, split_on, text_of, text_or_empty};

verus! {

/// One entry of a GitHub issue search, as far as the sync reads it. Each field
/// is `None` where the entry lacks it or holds a value of another JSON type.
#[derive(Clone, Debug, PartialEq, Eq)]
pub struct RawPullRequest {
    pub id: Option<i64>,
    pub html_url: Option<String>,
    pub title: Option<String>,
    pub number: Option<i64>,
    pub draft: Option<bool>,
}

/// A pull request as the sync stores it.
#[derive(Clone, Debug, PartialEq, Eq)]
pub struct FetchedPr {
    pub github_id: i64,
    pub title: String,
    pub url: String,
    pub repo: String,
    pub number: i64,
    pub role: String,
    pub draft: bool,
    pub checks_status: Option<String>,
}

/// The value of a `FetchedPr`, its texts as character sequences.
pub struct PrView {
    pub github_id: i64,
    pub title: Seq<char>,
    pub url: Seq<char>,
    pub repo: Seq<char>,
    pub number: i64,
    pub role: Seq<char>,
    pub draft: bool,
    pub checks_status: Option<Seq<char>>,
}

impl View for FetchedPr {
    type V = PrView;

    open spec fn view(&self) -> PrView {
        PrView {
            github_id: self.github_id,
            title: self.title@,
            url: self.url@,
            repo: self.repo@,
            number: self.number,
            role: self.role@,
            draft: self.draft,
            checks_status: opt_text(self.checks_status),
        }
    }
}

pub open spec fn pr_views(s: Seq<FetchedPr>) -> Seq<PrView> {
    s.map_values(|p: FetchedPr| p@)
}

/// The two searches that find the user's open pull requests.
#[derive(Clone, Copy, Debug, PartialEq, Eq, Structural)]
pub enum PrSearch {
    Authored,
    ReviewRequested,
}

pub open spec fn search_query(s: PrSearch) -> Seq<char> {
    match s {
        PrSearch::Authored => "is:open is:pr author:@me archived:false"@,
        PrSearch::ReviewRequested => "is:open is:pr review-requested:@me archived:false"@,
    }
}

pub open spec fn search_role(s: PrSearch) -> Seq<char> {
    match s {
        PrSearch::Authored => "authored"@,
        PrSearch::ReviewRequested => "review_requested"@,
    }
}

/// The search API URL for a search: its query with spaces as `+`, the
/// 50 most recently updated results.
pub open spec fn search_url(s: PrSearch) -> Seq<char> {
    "https://api.github.com/search/issues?q="@ + plus_for_spaces(search_query(s))
        + "&per_page=50&sort=updated"@
}

/// `owner/name` of the repository in a pull request's web URL
/// (`https://github.com/owner/name/pull/1`): the fourth and fifth pieces
/// between slashes, or the empty text where the URL has fewer pieces.
pub open spec fn repo_of(url: Seq<char>) -> Seq<char> {
    let p = split_on(url, '/');
    if p.len() >= 5 {
        p[3] + seq!['/'] + p[4]
    } else {
        Seq::empty()
    }
}

/// A search entry as a stored pull request: missing numbers are 0, missing
/// texts empty, a missing draft flag false; the checks are not known yet.
pub open spec fn pr_of_raw(r: RawPullRequest, role: Seq<char>) -> PrView {
    let url = text_or_empty(opt_text(r.html_url));
    PrView {
        github_id: match r.id {
            Some(v) => v,
            None => 0,
        },
        title: text_or_empty(opt_text(r.title)),
        url: url,
        repo: repo_of(url),
        number: match r.number {
            Some(v) => v,
            None => 0,
        },
        role: role,
        draft: match r.draft {
            Some(b) => b,
            None => false,
        },
        checks_status: None,
    }
}

pub open spec fn raw_items(o: Option<Vec<RawPullRequest>>) -> Seq<RawPullRequest> {
    match o {
        Some(v) => v@,
        None => Seq::empty(),
    }
}

pub open spec fn prs_of_raw(raws: Seq<RawPullRequest>, role: Seq<char>) -> Seq<PrView> {
    raws.map_values(|r: RawPullRequest| pr_of_raw(r, role))
}

/// Some pull request in `s` has GitHub id `id`.
pub open spec fn has_pr_id(s: Seq<PrView>, id: i64) -> bool {
    exists|k: int| 0 <= k < s.len() && #[trigger] s[k].github_id == id
}

/// `s` without the pull requests whose id occurred earlier in `s`.
pub open spec fn first_by_id(s: Seq<PrView>) -> Seq<PrView>
    decreases s.len(),
{
    if s.len() == 0 {
        Seq::empty()
    } else {
        let p = first_by_id(s.drop_last());
        if has_pr_id(p, s.last().github_id) {
            p
        } else {
            p.push(s.last())
        }
    }
}

/// The pull requests of both searches, authored ones first, each id once.
pub open spec fn collected_prs(
    authored: Option<Vec<RawPullRequest>>,
    review_requested: Option<Vec<RawPullRequest>>,
) -> Seq<PrView> {
    first_by_id(
        prs_of_raw(raw_items(authored), search_role(PrSearch::Authored)) + prs_of_raw(
            raw_items(review_requested),
            search_role(PrSearch::ReviewRequested),
        ),
    )
}

/// The role under which the results of a search are stored.
pub fn search_role_text(s: PrSearch) -> (r: String)
    ensures
        r@ == search_role(s),
{
    match s {
        PrSearch::Authored => String::from_str("authored"),
        PrSearch::ReviewRequested => String::from_str("review_requested"),
    }
}

/// The URL that runs a search.
pub fn pr_search_url(s: PrSearch) -> (r: String)
    ensures
        r@ == search_url(s),
{
    let query = match s {
        PrSearch::Authored => "is:open is:pr author:@me archived:false",
        PrSearch::ReviewRequested => "is:open is:pr review-requested:@me archived:false",
    };
    let mut r = String::from_str("https://api.github.com/search/issues?q=");
    let q = spaces_to_plus(query);
    r.append(q.as_str());
    r.append("&per_page=50&sort=updated");
    r
}

/// The decimal digits of `n`, most significant first, without leading zeros.
pub open spec fn decimal_digits(n: nat) -> Seq<char>
    decreases n,
{
    if n < 10 {
        seq!["0123456789"@[n as int]]
    } else {
        decimal_digits(n / 10).push("0123456789"@[(n % 10) as int])
    }
}

/// The number that decimal digits stand for.
pub open spec fn digits_value(s: Seq<char>) -> int
    decreases s.len(),
{
    if s.len() == 0 {
        0
    } else {
        digits_value(s.drop_last()) * 10 + ((s.last() as int) - ('0' as int))
    }
}

proof fn lemma_digit_chars()
    ensures
        forall|d: int| 0 <= d < 10 ==> (#[trigger] "0123456789"@[d] as int) == ('0' as int) + d,
{
    reveal_strlit("0123456789");
    assert("0123456789"@[0] == '0');
    assert("0123456789"@[1] == '1');
    assert("0123456789"@[2] == '2');
    assert("0123456789"@[3] == '3');
    assert("0123456789"@[4] == '4');
    assert("0123456789"@[5] == '5');
    assert("0123456789"@[6] == '6');
    assert("0123456789"@[7] == '7');
    assert("0123456789"@[8] == '8');
    assert("0123456789"@[9] == '9');
}

/// The decimal digits of `n` are digits, stand for `n`, and have no leading
/// zero (but for `n` = 0, which is the single digit `0`).
pub proof fn lemma_decimal_digits(n: nat)
    ensures
        decimal_digits(n).len() > 0,
        forall|i: int|
            0 <= i < decimal_digits(n).len() ==> '0' <= #[trigger] decimal_digits(n)[i] && decimal_digits(
                n,
            )[i] <= '9',
        digits_value(decimal_digits(n)) == n,
        decimal_digits(n)[0] == '0' ==> n == 0 && decimal_digits(n).len() == 1,
    decreases n,
{
    lemma_digit_chars();
    if n >= 10 {
        let q = n / 10;
        let r = n % 10;
        lemma_decimal_digits(q);
        let d = decimal_digits(q);
        let s = decimal_digits(n);
        assert(s == d.push("0123456789"@[r as int]));
        assert(s.drop_last() =~= d);
        assert(q * 10 + r == n) by (nonlinear_arith)
            requires
                q == n / 10,
                r == n % 10,
        ;
        assert(s[0] == d[0]);
        assert forall|i: int| 0 <= i < s.len() implies '0' <= #[trigger] s[i] && s[i] <= '9' by {
            if i < d.len() {
                assert(s[i] == d[i]);
            }
        }
        assert(q > 0);
        assert(("0123456789"@[r as int] as int) == ('0' as int) + r);
        assert(digits_value(s) == digits_value(d) * 10 + (("0123456789"@[r as int] as int) - ('0' as int)));
        assert(digits_value(d) == q);
        assert(digits_value(s) == n);
    } else {
        let s = decimal_digits(n);
        assert(s.drop_last() =~= Seq::<char>::empty());
        assert((s.last() as int) == ('0' as int) + n);
        assert(digits_value(s) == digits_value(s.drop_last()) * 10 + ((s.last() as int) - ('0' as int)));
        assert(digits_value(s) == n);
    }
}

/// `n` written in decimal, with a leading `-` where it is negative.
pub open spec fn decimal(n: int) -> Seq<char> {
    if n < 0 {
        "-"@ + decimal_digits((-n) as nat)
    } else {
        decimal_digits(n as nat)
    }
}

/// The API URL of pull request `number` of the repository `repo`
/// (`owner/name`).
pub open spec fn pull_request_api_url(repo: Seq<char>, number: int) -> Seq<char> {
    "https://api.github.com/repos/"@ + repo + "/pulls/"@ + decimal(number)
}

/// The API URL of the check runs of commit `sha` in `repo`, up to 100 of them.
pub open spec fn check_runs_api_url(repo: Seq<char>, sha: Seq<char>) -> Seq<char> {
    "https://api.github.com/repos/"@ + repo + "/commits/"@ + sha + "/check-runs?per_page=100"@
}

fn append_decimal_digits(s: &mut String, m: u64)
    ensures
        final(s)@ == old(s)@ + decimal_digits(m as nat),
    decreases m,
{
    let ghost start = s@;
    if m >= 10 {
        append_decimal_digits(s, m / 10);
    }
    let d = (m % 10) as usize;
    let digits = "0123456789";
    proof {
        reveal_strlit("0123456789");
    }
    s.append(digits.substring_char(d, d + 1));
    assert(digits@.subrange(d as int, d + 1) =~= seq![digits@[d as int]]);
    assert(s@ =~= start + decimal_digits(m as nat));
}

/// The API URL of a pull request, from which its head commit is read.
pub fn pr_api_url(repo: &str, number: i64) -> (r: String)
    ensures
        r@ == pull_request_api_url(repo@, number as int),
{
    let mut r = String::from_str("https://api.github.com/repos/");
    r.append(repo);
    r.append("/pulls/");
    let magnitude: u64 = if number < 0 {
        r.append("-");
        if number == i64::MIN {
            9223372036854775808u64
        } else {
            (-number) as u64
        }
    } else {
        number as u64
    };
    append_decimal_digits(&mut r, magnitude);
    assert(r@ =~= pull_request_api_url(repo@, number as int));
    r
}

/// The API URL of the check runs of a pull request's head commit.
pub fn check_runs_url(repo: &str, sha: &str) -> (r: String)
    ensures
        r@ == check_runs_api_url(repo@, sha@),
{
    let mut r = String::from_str("https://api.github.com/repos/");
    r.append(repo);
    r.append("/commits/");
    r.append(sha);
    r.append("/check-runs?per_page=100");
    assert(r@ =~= check_runs_api_url(repo@, sha@));
    r
}

/// The `owner/name` part of a pull request's web URL.
pub fn repo_from_url(url: &str) -> (r: String)
    ensures
        r@ == repo_of(url@),
{
    let n = url.unicode_len();
    let mut count: usize = 0;
    let mut owner = String::new();
    let mut name = String::new();
    let mut i: usize = 0;
    assert(url@.take(0) =~= Seq::<char>::empty());
    while i < n
        invariant
            i <= n,
            n == url@.len(),
            count <= i,
            split_on(url@.take(i as int), '/').len() == count + 1,
            owner@ == (if count >= 3 {
                split_on(url@.take(i as int), '/')[3]
            } else {
                Seq::<char>::empty()
            }),
            name@ == (if count >= 4 {
                split_on(url@.take(i as int), '/')[4]
            } else {
                Seq::<char>::empty()
            }),
        decreases n - i,
    {
        let ghost before = url@.take(i as int);
        assert(url@.take(i + 1).drop_last() =~= before);
        let c = url.get_char(i);
        if c == '/' {
            count = count + 1;
        } else if count == 3 {
            owner.append(url.substring_char(i, i + 1));
            assert(owner@ =~= split_on(url@.take(i + 1), '/')[3]);
        } else if count == 4 {
            name.append(url.substring_char(i, i + 1));
            assert(name@ =~= split_on(url@.take(i + 1), '/')[4]);
        }
        i = i + 1;
    }
    assert(url@.take(n as int) =~= url@);
    if count >= 4 {
        let mut r = owner;
        r.append("/");
        proof {
            reveal_strlit("/");
        }
        r.append(name.as_str());
        assert(r@ =~= repo_of(url@));
        r
    } else {
        String::new()
    }
}

/// A search entry as a stored pull request under `role`.
/// A search entry read as a pull request keeps what the entry says: its id,
/// number, title and URL (0 or empty where missing), its draft flag (false
/// only where the entry has none), the repository named in its URL, and the
/// search's role; its checks are not known yet.
pub proof fn lemma_pr_of_raw(r: RawPullRequest, role: Seq<char>)
    ensures
        r.draft == Some(true) ==> pr_of_raw(r, role).draft,
        r.draft != Some(true) ==> !pr_of_raw(r, role).draft,
        r.id is Some ==> pr_of_raw(r, role).github_id == r.id->0,
        r.id is None ==> pr_of_raw(r, role).github_id == 0,
        r.number is Some ==> pr_of_raw(r, role).number == r.number->0,
        r.number is None ==> pr_of_raw(r, role).number == 0,
        r.title is Some ==> pr_of_raw(r, role).title == r.title->0@,
        r.title is None ==> pr_of_raw(r, role).title.len() == 0,
        r.html_url is Some ==> pr_of_raw(r, role).url == r.html_url->0@,
        r.html_url is None ==> pr_of_raw(r, role).url.len() == 0,
        pr_of_raw(r, role).repo == repo_of(pr_of_raw(r, role).url),
        pr_of_raw(r, role).role == role,
        pr_of_raw(r, role).checks_status is None,
{
}

pub fn pr_from_raw(raw: &RawPullRequest, role: &str) -> (pr: FetchedPr)
    ensures
        pr@ == pr_of_raw(*raw, role@),
{
    let url = text_of(&raw.html_url);
    let repo = repo_from_url(url.as_str());
    FetchedPr {
        github_id: match raw.id {
            Some(v) => v,
            None => 0,
        },
        title: text_of(&raw.title),
        url: url,
        repo: repo,
        number: match raw.number {
            Some(v) => v,
            None => 0,
        },
        role: String::from_str(role),
        draft: match raw.draft {
            Some(b) => b,
            None => false,
        },
        checks_status: None,
    }
}

fn holds_pr_id(prs: &Vec<FetchedPr>, id: i64) -> (r: bool)
    ensures
        r == has_pr_id(pr_views(prs@), id),
{
    let n = prs.len();
    let mut i: usize = 0;
    while i < n
        invariant
            i <= n,
            n == prs@.len(),
            forall|k: int| 0 <= k < i ==> prs@[k].github_id != id,
        decreases n - i,
    {
        if prs[i].github_id == id {
            assert(pr_views(prs@)[i as int].github_id == id);
            return true;
        }
        i = i + 1;
    }
    assert forall|k: int| 0 <= k < pr_views(prs@).len() implies #[trigger] pr_views(prs@)[k].github_id
        != id by {
        assert(prs@[k].github_id != id);
    }
    false
}

fn add_new_prs(
    out: &mut Vec<FetchedPr>,
    raws: &Option<Vec<RawPullRequest>>,
    role: &str,
    Ghost(before): Ghost<Seq<PrView>>,
)
    requires
        pr_views(old(out)@) == first_by_id(before),
    ensures
        pr_views(final(out)@) == first_by_id(before + prs_of_raw(raw_items(*raws), role@)),
{
    match raws {
        None => {
            assert(before + prs_of_raw(raw_items(*raws), role@) =~= before);
        },
        Some(v) => {
            let n = v.len();
            let mut i: usize = 0;
            while i < n
                invariant
                    i <= n,
                    n == v@.len(),
                    raw_items(*raws) == v@,
                    pr_views(out@) == first_by_id(before + prs_of_raw(v@.take(i as int), role@)),
                decreases n - i,
            {
                let pr = pr_from_raw(&v[i], role);
                let ghost prefix = before + prs_of_raw(v@.take(i as int), role@);
                let ghost longer = before + prs_of_raw(v@.take(i + 1), role@);
                assert(longer =~= prefix.push(pr@));
                assert(longer.drop_last() =~= prefix);
                if !holds_pr_id(out, pr.github_id) {
                    out.push(pr);
                    assert(pr_views(out@) =~= first_by_id(prefix).push(pr@));
                }
                i = i + 1;
            }
            assert(v@.take(n as int) =~= v@);
        },
    }
}

/// The pull requests that the two searches returned, in order, authored ones
/// first, each GitHub id kept once (where both searches list a pull request,
/// it stays with the role "authored").
pub fn collect_pull_requests(
    authored: &Option<Vec<RawPullRequest>>,
    review_requested: &Option<Vec<RawPullRequest>>,
) -> (prs: Vec<FetchedPr>)
    ensures
        pr_views(prs@) == collected_prs(*authored, *review_requested),
{
    let mut out: Vec<FetchedPr> = Vec::new();
    assert(pr_views(out@) =~= first_by_id(Seq::empty()));
    let role_a = search_role_text(PrSearch::Authored);
    let role_r = search_role_text(PrSearch::ReviewRequested);
    add_new_prs(&mut out, authored, role_a.as_str(), Ghost(Seq::empty()));
    let ghost first = Seq::<PrView>::empty() + prs_of_raw(
        raw_items(*authored),
        search_role(PrSearch::Authored),
    );
    add_new_prs(&mut out, review_requested, role_r.as_str(), Ghost(first));
    assert(first + prs_of_raw(raw_items(*review_requested), search_role(PrSearch::ReviewRequested))
        =~= prs_of_raw(raw_items(*authored), search_role(PrSearch::Authored)) + prs_of_raw(
        raw_items(*review_requested),
        search_role(PrSearch::ReviewRequested),
    ));
    out
}

/// One check run of a pull request's head commit.
#[derive(Clone, Debug, PartialEq, Eq)]
pub struct CheckRun {
    pub conclusion: Option<String>,
    pub status: Option<String>,
}

/// The run ended in failure, timed out or was cancelled.
pub open spec fn run_failed(r: CheckRun) -> bool {
    match opt_text(r.conclusion) {
        Some(c) => c == "failure"@ || c == "timed_out"@ || c == "cancelled"@,
        None => false,
    }
}

/// The run has not completed.
pub open spec fn run_unfinished(r: CheckRun) -> bool {
    opt_text(r.status) != Some("completed"@)
}

/// The overall state of a commit's check runs: none where there are no runs,
/// "failure" where a run failed, else "pending" where a run is not complete,
/// else "success".
pub open spec fn checks_summary(runs: Seq<CheckRun>) -> Option<Seq<char>> {
    if runs.len() == 0 {
        None
    } else if exists|i: int| 0 <= i < runs.len() && run_failed(#[trigger] runs[i]) {
        Some("failure"@)
    } else if exists|i: int| 0 <= i < runs.len() && run_unfinished(#[trigger] runs[i]) {
        Some("pending"@)
    } else {
        Some("success"@)
    }
}

/// The run's conclusion is one that fails the checks.
pub open spec fn concluded_badly(r: CheckRun) -> bool {
    opt_text(r.conclusion) == Some("failure"@) || opt_text(r.conclusion) == Some("timed_out"@)
        || opt_text(r.conclusion) == Some("cancelled"@)
}

/// How the summary of check runs reads: none without runs; "failure" as soon
/// as any run, wherever it stands, concluded with failure, timed_out or
/// cancelled; otherwise "pending" as soon as any run's status is not
/// "completed" (a missing status counts as not completed); otherwise
/// "success".
pub proof fn lemma_checks_summary(runs: Seq<CheckRun>)
    ensures
        runs.len() == 0 ==> checks_summary(runs) is None,
        forall|i: int|
            0 <= i < runs.len() && #[trigger] concluded_badly(runs[i]) ==> checks_summary(runs)
                == Some("failure"@),
        (forall|i: int| 0 <= i < runs.len() ==> !#[trigger] concluded_badly(runs[i])) ==> forall|
            i: int,
        |
            0 <= i < runs.len() && opt_text((#[trigger] runs[i]).status) != Some("completed"@)
                ==> checks_summary(runs) == Some("pending"@),
        runs.len() > 0 && (forall|i: int| 0 <= i < runs.len() ==> !#[trigger] concluded_badly(runs[i]))
            && (forall|i: int| 0 <= i < runs.len() ==> opt_text((#[trigger] runs[i]).status) == Some(
            "completed"@,
        )) ==> checks_summary(runs) == Some("success"@),
{
    if forall|i: int| 0 <= i < runs.len() ==> !#[trigger] concluded_badly(runs[i]) {
        assert forall|i: int| 0 <= i < runs.len() implies !#[trigger] run_failed(runs[i]) by {
            assert(!concluded_badly(runs[i]));
        }
        if forall|i: int| 0 <= i < runs.len() ==> opt_text((#[trigger] runs[i]).status) == Some("completed"@) {
            assert forall|i: int| 0 <= i < runs.len() implies !#[trigger] run_unfinished(runs[i]) by {
                assert(opt_text(runs[i].status) == Some("completed"@));
            }
        }
    }
}

fn failed_run(r: &CheckRun) -> (b: bool)
    ensures
        b == run_failed(*r),
{
    match &r.conclusion {
        Some(c) => text_is(c.as_str(), "failure") || text_is(c.as_str(), "timed_out") || text_is(
            c.as_str(),
            "cancelled",
        ),
        None => false,
    }
}

fn unfinished_run(r: &CheckRun) -> (b: bool)
    ensures
        b == run_unfinished(*r),
{
    match &r.status {
        Some(s) => !text_is(s.as_str(), "completed"),
        None => true,
    }
}

/// The overall state of a pull request's check runs.
pub fn summarize_check_runs(runs: &Vec<CheckRun>) -> (r: Option<String>)
    ensures
        opt_text(r) == checks_summary(runs@),
{
    let n = runs.len();
    if n == 0 {
        return None;
    }
    let mut i: usize = 0;
    while i < n
        invariant
            i <= n,
            n == runs@.len(),
            forall|k: int| 0 <= k < i ==> !run_failed(#[trigger] runs@[k]),
        decreases n - i,
    {
        if failed_run(&runs[i]) {
            return Some(String::from_str("failure"));
        }
        i = i + 1;
    }
    let mut j: usize = 0;
    while j < n
        invariant
            j <= n,
            n == runs@.len(),
            forall|k: int| 0 <= k < n ==> !run_failed(#[trigger] runs@[k]),
            forall|k: int| 0 <= k < j ==> !run_unfinished(#[trigger] runs@[k]),
        decreases n - j,
    {
        if unfinished_run(&runs[j]) {
            return Some(String::from_str("pending"));
        }
        j = j + 1;
    }
    Some(String::from_str("success"))
}

/// The indices of the pull requests whose checks can be looked up: those
/// whose repository is known.
pub fn check_status_targets(prs: &Vec<FetchedPr>) -> (r: Vec<usize>)
    ensures
        r@ == Seq::new(prs@.len(), |i: int| i as usize).filter(|i: usize| prs@[i as int].repo@.len() > 0),
{
    let ghost all = Seq::new(prs@.len(), |i: int| i as usize);
    let ghost keep = |i: usize| prs@[i as int].repo@.len() > 0;
    let n = prs.len();
    let mut r: Vec<usize> = Vec::new();
    let mut i: usize = 0;
    while i < n
        invariant
            i <= n,
            n == prs@.len(),
            all == Seq::new(prs@.len(), |i: int| i as usize),
            keep == (|i: usize| prs@[i as int].repo@.len() > 0),
            r@ == all.take(i as int).filter(keep),
        decreases n - i,
    {
        assert(all.take(i + 1).drop_last() =~= all.take(i as int));
        reveal(Seq::filter);
        if !text_is_empty(prs[i].repo.as_str()) {
            r.push(i);
        }
        i = i + 1;
    }
    assert(all.take(n as int) =~= all);
    r
}

/// A stored pull-request item: its GitHub id (`None` where the column could
/// not be read as an integer) and its status.
#[derive(Clone, Debug, PartialEq, Eq)]
pub struct PrRow {
    pub pr_id: Option<i64>,
    pub status: Option<String>,
}

/// The stored status of a row; a missing one counts as "open".
pub open spec fn row_status(r: PrRow) -> Seq<char> {
    text_or(opt_text(r.status), "open"@)
}

/// A row as a table entry: its GitHub id and status, where it has an id.
pub open spec fn pr_entry() -> spec_fn(PrRow) -> Option<(i64, Seq<char>)> {
    |r: PrRow|
        match r.pr_id {
            Some(id) => Some((id, row_status(r))),
            None => None,
        }
}

/// The status of each stored pull request by GitHub id: rows without an id
/// are skipped, and where an id has several rows the last one counts.
pub open spec fn pr_status_table(rows: Seq<PrRow>) -> Seq<(i64, Seq<char>)> {
    upsert_all(keyed_entries(rows, pr_entry()))
}

/// One write of the pull-request sync.
#[derive(Clone, Copy, Debug, PartialEq, Eq, Structural)]
pub enum PrSyncStep {
    /// Refresh the stored item of the fetched pull request at this index:
    /// title, role, draft flag and checks.
    Update(usize),
    /// Store the fetched pull request at this index as a new open item on top
    /// of the list.
    Insert(usize),
    /// Mark the stored item with this GitHub id done.
    MarkDone(i64),
}

/// An Update for each fetched pull request that is stored, an Insert for each
/// that is not, in the order fetched.
pub open spec fn pr_upserts(fetched: Seq<PrView>, table: Seq<(i64, Seq<char>)>) -> Seq<PrSyncStep> {
    Seq::new(
        fetched.len(),
        |i: int|
            if has_key(table, fetched[i].github_id) {
                PrSyncStep::Update(i as usize)
            } else {
                PrSyncStep::Insert(i as usize)
            },
    )
}

/// A MarkDone for each stored pull request that is open and that GitHub no
/// longer lists, in the order of the table.
pub open spec fn pr_closings(table: Seq<(i64, Seq<char>)>, fetched: Seq<PrView>) -> Seq<PrSyncStep>
    decreases table.len(),
{
    if table.len() == 0 {
        Seq::empty()
    } else {
        let p = pr_closings(table.drop_last(), fetched);
        let e = table.last();
        if e.1 == "open"@ && !has_pr_id(fetched, e.0) {
            p.push(PrSyncStep::MarkDone(e.0))
        } else {
            p
        }
    }
}

/// The writes that bring the stored pull requests in line with the fetched ones.
pub open spec fn pr_sync_plan(fetched: Seq<PrView>, rows: Seq<PrRow>) -> Seq<PrSyncStep> {
    let t = pr_status_table(rows);
    pr_upserts(fetched, t) + pr_closings(t, fetched)
}

pub open spec fn table_view(t: Seq<(i64, String)>) -> Seq<(i64, Seq<char>)> {
    t.map_values(|e: (i64, String)| (e.0, e.1@))
}

fn find_pr_entry(t: &Vec<(i64, String)>, id: i64) -> (r: Option<usize>)
    ensures
        match r {
            Some(j) => key_index(table_view(t@), id) == Some(j as int),
            None => key_index(table_view(t@), id) is None,
        },
{
    let n = t.len();
    let mut i: usize = 0;
    while i < n
        invariant
            i <= n,
            n == t@.len(),
            forall|k: int| 0 <= k < i ==> #[trigger] table_view(t@)[k].0 != id,
        decreases n - i,
    {
        if t[i].0 == id {
            proof {
                lemma_first_index(table_view(t@), id, i as int);
            }
            return Some(i);
        }
        i = i + 1;
    }
    proof {
        lemma_key_index(table_view(t@), id);
        if key_index(table_view(t@), id) is Some {
            let j = key_index(table_view(t@), id)->0;
            assert(table_view(t@)[j].0 != id);
        }
    }
    None
}

fn status_or_open(s: &Option<String>) -> (r: String)
    ensures
        r@ == text_or(opt_text(*s), "open"@),
{
    match s {
        Some(t) => t.clone(),
        None => String::from_str("open"),
    }
}

fn build_pr_table(rows: &Vec<PrRow>) -> (t: Vec<(i64, String)>)
    ensures
        table_view(t@) == pr_status_table(rows@),
        distinct_keys(table_view(t@)),
{
    let mut t: Vec<(i64, String)> = Vec::new();
    let n = rows.len();
    let mut i: usize = 0;
    assert(rows@.take(0) =~= Seq::<PrRow>::empty());
    assert(table_view(t@) =~= Seq::<(i64, Seq<char>)>::empty());
    while i < n
        invariant
            i <= n,
            n == rows@.len(),
            table_view(t@) == pr_status_table(rows@.take(i as int)),
            distinct_keys(table_view(t@)),
        decreases n - i,
    {
        assert(rows@.take(i + 1).drop_last() =~= rows@.take(i as int));
        assert(rows@.take(i + 1).last() == rows@[i as int]);
        let ghost prev = keyed_entries(rows@.take(i as int), pr_entry());
        let row = &rows[i];
        match row.pr_id {
            Some(id) => {
                let st = status_or_open(&row.status);
                let ghost old_view = table_view(t@);
                proof {
                    lemma_upserted(old_view, id, st@);
                }
                match find_pr_entry(&t, id) {
                    Some(j) => {
                        proof {
                            lemma_key_index(old_view, id);
                        }
                        t.set(j, (id, st));
                        assert(table_view(t@) =~= old_view.update(j as int, (id, st@)));
                    },
                    None => {
                        t.push((id, st));
                        assert(table_view(t@) =~= old_view.push((id, st@)));
                    },
                }
                assert(keyed_entries(rows@.take(i + 1), pr_entry()) == prev.push((id, st@)));
                assert(prev.push((id, st@)).drop_last() =~= prev);
            },
            None => {
                assert(keyed_entries(rows@.take(i + 1), pr_entry()) == prev);
            },
        }
        i = i + 1;
    }
    assert(rows@.take(n as int) =~= rows@);
    t
}

/// The writes that bring the stored pull-request items in line with the pull
/// requests GitHub lists now: each fetched pull request is updated where it is
/// stored and inserted where it is not; each stored one that is open and no
/// longer listed is marked done.
pub fn plan_pr_sync(fetched: &Vec<FetchedPr>, rows: &Vec<PrRow>) -> (plan: Vec<PrSyncStep>)
    ensures
        plan@ == pr_sync_plan(pr_views(fetched@), rows@),
{
    let t = build_pr_table(rows);
    let ghost tv = table_view(t@);
    let ghost fv = pr_views(fetched@);
    let mut plan: Vec<PrSyncStep> = Vec::new();
    let n = fetched.len();
    let mut i: usize = 0;
    while i < n
        invariant
            i <= n,
            n == fetched@.len(),
            tv == table_view(t@),
            fv == pr_views(fetched@),
            plan@ == pr_upserts(fv, tv).take(i as int),
        decreases n - i,
    {
        let id = fetched[i].github_id;
        match find_pr_entry(&t, id) {
            Some(_) => {
                proof {
                    lemma_key_index(tv, id);
                }
                plan.push(PrSyncStep::Update(i));
            },
            None => {
                proof {
                    lemma_key_index(tv, id);
                }
                plan.push(PrSyncStep::Insert(i));
            },
        }
        assert(plan@ =~= pr_upserts(fv, tv).take(i + 1));
        i = i + 1;
    }
    assert(pr_upserts(fv, tv).take(n as int) =~= pr_upserts(fv, tv));
    let ghost ups = plan@;
    let m = t.len();
    let mut k: usize = 0;
    assert(tv.take(0) =~= Seq::<(i64, Seq<char>)>::empty());
    assert(plan@ =~= ups + pr_closings(tv.take(0), fv));
    while k < m
        invariant
            k <= m,
            m == t@.len(),
            tv == table_view(t@),
            fv == pr_views(fetched@),
            plan@ == ups + pr_closings(tv.take(k as int), fv),
        decreases m - k,
    {
        assert(tv.take(k + 1).drop_last() =~= tv.take(k as int));
        assert(tv.take(k + 1).last() == tv[k as int]);
        let id = t[k].0;
        if text_is(t[k].1.as_str(), "open") && !holds_pr_id(fetched, id) {
            plan.push(PrSyncStep::MarkDone(id));
        }
        assert(plan@ =~= ups + pr_closings(tv.take(k + 1), fv));
        k = k + 1;
    }
    assert(tv.take(m as int) =~= tv);
    plan
}

/// Of the pull requests the searches return, each GitHub id is kept exactly
/// once, and the one kept is the first that carries it.
pub proof fn lemma_first_by_id(s: Seq<PrView>)
    ensures
        forall|i: int, j: int|
            0 <= i < first_by_id(s).len() && 0 <= j < first_by_id(s).len() && i != j
                ==> #[trigger] first_by_id(s)[i].github_id != #[trigger] first_by_id(s)[j].github_id,
        forall|k: int| 0 <= k < s.len() ==> has_pr_id(first_by_id(s), #[trigger] s[k].github_id),
        forall|i: int|
            0 <= i < first_by_id(s).len() ==> exists|k: int|
                0 <= k < s.len() && s[k] == #[trigger] first_by_id(s)[i] && forall|t: int|
                    0 <= t < k ==> #[trigger] s[t].github_id != s[k].github_id,
    decreases s.len(),
{
    if s.len() > 0 {
        let d = s.drop_last();
        lemma_first_by_id(d);
        let p = first_by_id(d);
        let x = s.last();
        let r = first_by_id(s);
        assert forall|k: int| 0 <= k < s.len() implies has_pr_id(r, #[trigger] s[k].github_id) by {
            if k < s.len() - 1 {
                assert(s[k] == d[k]);
                let w = choose|w: int| 0 <= w < p.len() && #[trigger] p[w].github_id == d[k].github_id;
                assert(r[w] == p[w]);
            } else if !has_pr_id(p, x.github_id) {
                assert(r[p.len() as int] == x);
            } else {
                let w = choose|w: int| 0 <= w < p.len() && #[trigger] p[w].github_id == x.github_id;
                assert(r[w] == p[w]);
            }
        }
        assert forall|i: int|
            0 <= i < r.len() implies exists|k: int|
                0 <= k < s.len() && s[k] == #[trigger] r[i] && forall|t: int|
                    0 <= t < k ==> #[trigger] s[t].github_id != s[k].github_id by {
            if i < p.len() {
                let k = choose|k: int|
                    0 <= k < d.len() && d[k] == #[trigger] p[i] && forall|t: int|
                        0 <= t < k ==> #[trigger] d[t].github_id != d[k].github_id;
                assert(s[k] == d[k]);
                assert forall|t: int| 0 <= t < k implies #[trigger] s[t].github_id != s[k].github_id by {
                    assert(s[t] == d[t]);
                }
            } else {
                let k = s.len() - 1;
                assert(r[i] == x);
                assert forall|t: int| 0 <= t < k implies #[trigger] s[t].github_id != s[k].github_id by {
                    assert(s[t] == d[t]);
                    if s[t].github_id == x.github_id {
                        assert(has_pr_id(p, d[t].github_id));
                    }
                }
            }
        }
    }
}

/// Each GitHub id has one entry in the status table exactly when some row
/// carries it, and the entry holds the status of the last such row.
pub proof fn lemma_pr_status_table(rows: Seq<PrRow>)
    ensures
        distinct_keys(pr_status_table(rows)),
        forall|id: i64|
            has_key(pr_status_table(rows), id) <==> exists|k: int|
                0 <= k < rows.len() && #[trigger] rows[k].pr_id == Some(id),
        forall|id: i64|
            has_key(pr_status_table(rows), id) ==> exists|k: int|
                0 <= k < rows.len() && #[trigger] rows[k].pr_id == Some(id) && value_at(
                    pr_status_table(rows),
                    id,
                ) == row_status(rows[k]) && forall|t: int|
                    k < t < rows.len() ==> #[trigger] rows[t].pr_id != Some(id),
{
    let f = pr_entry();
    let t = pr_status_table(rows);
    lemma_keyed_table(rows, f);
    assert forall|k: int, id: i64| 0 <= k < rows.len() implies #[trigger] keyed_by(f, rows[k], id)
        == (rows[k].pr_id == Some(id)) by {}
    assert forall|id: i64|
        has_key(t, id) implies exists|k: int|
            0 <= k < rows.len() && #[trigger] rows[k].pr_id == Some(id) && value_at(t, id)
                == row_status(rows[k]) && forall|u: int|
                k < u < rows.len() ==> #[trigger] rows[u].pr_id != Some(id) by {
        let k = choose|k: int|
            0 <= k < rows.len() && #[trigger] keyed_by(f, rows[k], id) && value_at(t, id) == f(
                rows[k],
            ).unwrap().1 && last_keyed(rows, f, k, id);
        assert forall|u: int| k < u < rows.len() implies #[trigger] rows[u].pr_id != Some(id) by {
            assert(!keyed_by(f, rows[u], id));
        }
    }
    assert forall|id: i64|
        has_key(t, id) <==> exists|k: int| 0 <= k < rows.len() && #[trigger] rows[k].pr_id == Some(id) by {
        if exists|k: int| 0 <= k < rows.len() && #[trigger] rows[k].pr_id == Some(id) {
            let k = choose|k: int| 0 <= k < rows.len() && #[trigger] rows[k].pr_id == Some(id);
            assert(keyed_by(f, rows[k], id));
        }
        if has_key(t, id) {
            let k = choose|k: int| 0 <= k < rows.len() && #[trigger] keyed_by(f, rows[k], id);
            assert(rows[k].pr_id == Some(id));
        }
    }
}

/// The closings mark done, once each, exactly the ids of the table whose
/// status is "open" and that are not fetched.
pub proof fn lemma_pr_closings(table: Seq<(i64, Seq<char>)>, fetched: Seq<PrView>)
    requires
        distinct_keys(table),
    ensures
        forall|k: int|
            0 <= k < pr_closings(table, fetched).len() ==> (#[trigger] pr_closings(table, fetched)[k]) is MarkDone,
        forall|id: i64|
            (exists|k: int|
                0 <= k < pr_closings(table, fetched).len() && #[trigger] pr_closings(table, fetched)[k]
                    == PrSyncStep::MarkDone(id)) <==> (has_key(table, id) && value_at(table, id)
                == "open"@ && !has_pr_id(fetched, id)),
        forall|i: int, j: int|
            0 <= i < pr_closings(table, fetched).len() && 0 <= j < pr_closings(table, fetched).len()
                && i != j ==> #[trigger] pr_closings(table, fetched)[i] != #[trigger] pr_closings(
                table,
                fetched,
            )[j],
    decreases table.len(),
{
    if table.len() > 0 {
        let d = table.drop_last();
        let n = table.len() - 1;
        assert(distinct_keys(d)) by {
            assert forall|i: int, j: int| 0 <= i < d.len() && 0 <= j < d.len() && i != j implies #[trigger] d[i].0 != #[trigger] d[j].0 by {
                assert(d[i] == table[i]);
                assert(d[j] == table[j]);
            }
        }
        lemma_pr_closings(d, fetched);
        let p = pr_closings(d, fetched);
        let c = pr_closings(table, fetched);
        let e = table.last();
        lemma_key_index(table, e.0);
        lemma_first_index(table, e.0, n);
        assert forall|id: i64| id != e.0 && has_key(table, id) implies has_key(d, id) && value_at(table, id) == value_at(d, id) by {
            lemma_key_index(table, id);
            let j = key_index(table, id)->0;
            assert(j != n);
            assert(d[j] == table[j]);
            assert forall|i: int| 0 <= i < j implies #[trigger] d[i].0 != id by {
                assert(d[i] == table[i]);
            }
            lemma_first_index(d, id, j);
        }
        assert forall|id: i64| has_key(d, id) implies has_key(table, id) && id != e.0 by {
            let j = choose|j: int| 0 <= j < d.len() && #[trigger] d[j].0 == id;
            assert(table[j] == d[j]);
        }
        assert forall|id: i64|
            (exists|k: int| 0 <= k < c.len() && #[trigger] c[k] == PrSyncStep::MarkDone(id)) <==> (
            has_key(table, id) && value_at(table, id) == "open"@ && !has_pr_id(fetched, id)) by {
            if exists|k: int| 0 <= k < c.len() && #[trigger] c[k] == PrSyncStep::MarkDone(id) {
                let k = choose|k: int| 0 <= k < c.len() && #[trigger] c[k] == PrSyncStep::MarkDone(id);
                if k < p.len() {
                    assert(p[k] == c[k]);
                }
            }
            if has_key(table, id) && value_at(table, id) == "open"@ && !has_pr_id(fetched, id) {
                if id == e.0 {
                    assert(c[p.len() as int] == PrSyncStep::MarkDone(id));
                } else {
                    let k = choose|k: int| 0 <= k < p.len() && #[trigger] p[k] == PrSyncStep::MarkDone(id);
                    assert(c[k] == p[k]);
                }
            }
        }
        assert forall|i: int, j: int|
            0 <= i < c.len() && 0 <= j < c.len() && i != j implies #[trigger] c[i] != #[trigger] c[j] by {
            if i < p.len() && j < p.len() {
                assert(c[i] == p[i] && c[j] == p[j]);
            } else if i < p.len() {
                assert(c[i] == p[i]);
                if c[i] == c[j] {
                    assert(p[i] == PrSyncStep::MarkDone(e.0));
                }
            } else if j < p.len() {
                assert(c[j] == p[j]);
                if c[i] == c[j] {
                    assert(p[j] == PrSyncStep::MarkDone(e.0));
                }
            }
        }
    }
}

/// The pull-request sync upserts each fetched pull request once, in order:
/// an Update where it is stored, an Insert where it is not. After those it
/// marks done, once each, exactly the stored pull requests whose (last) stored
/// status is "open" and that GitHub no longer lists; a listed one is never
/// marked done.
pub proof fn lemma_pr_sync_plan(fetched: Seq<PrView>, rows: Seq<PrRow>)
    ensures
        pr_sync_plan(fetched, rows).len() >= fetched.len(),
        forall|i: int|
            0 <= i < fetched.len() ==> #[trigger] pr_sync_plan(fetched, rows)[i] == (if exists|k: int|
                0 <= k < rows.len() && #[trigger] rows[k].pr_id == Some(fetched[i].github_id) {
                PrSyncStep::Update(i as usize)
            } else {
                PrSyncStep::Insert(i as usize)
            }),
        forall|k: int|
            fetched.len() <= k < pr_sync_plan(fetched, rows).len() ==> (#[trigger] pr_sync_plan(
                fetched,
                rows,
            )[k]) is MarkDone,
        forall|id: i64|
            (exists|k: int|
                0 <= k < pr_sync_plan(fetched, rows).len() && #[trigger] pr_sync_plan(fetched, rows)[k]
                    == PrSyncStep::MarkDone(id)) <==> (has_key(pr_status_table(rows), id) && value_at(
                pr_status_table(rows),
                id,
            ) == "open"@ && !has_pr_id(fetched, id)),
        forall|i: int, j: int|
            fetched.len() <= i < pr_sync_plan(fetched, rows).len() && fetched.len() <= j
                < pr_sync_plan(fetched, rows).len() && i != j ==> #[trigger] pr_sync_plan(
                fetched,
                rows,
            )[i] != #[trigger] pr_sync_plan(fetched, rows)[j],
{
    let t = pr_status_table(rows);
    lemma_pr_status_table(rows);
    lemma_pr_closings(t, fetched);
    let ups = pr_upserts(fetched, t);
    let c = pr_closings(t, fetched);
    let plan = pr_sync_plan(fetched, rows);
    assert forall|i: int| 0 <= i < fetched.len() implies #[trigger] plan[i] == (if exists|k: int|
        0 <= k < rows.len() && #[trigger] rows[k].pr_id == Some(fetched[i].github_id) {
        PrSyncStep::Update(i as usize)
    } else {
        PrSyncStep::Insert(i as usize)
    }) by {
        assert(plan[i] == ups[i]);
    }
    assert forall|k: int| fetched.len() <= k < plan.len() implies (#[trigger] plan[k]) is MarkDone by {
        assert(plan[k] == c[k - fetched.len()]);
    }
    assert forall|id: i64|
        (exists|k: int| 0 <= k < plan.len() && #[trigger] plan[k] == PrSyncStep::MarkDone(id)) <==> (
        has_key(t, id) && value_at(t, id) == "open"@ && !has_pr_id(fetched, id)) by {
        if exists|k: int| 0 <= k < plan.len() && #[trigger] plan[k] == PrSyncStep::MarkDone(id) {
            let k = choose|k: int| 0 <= k < plan.len() && #[trigger] plan[k] == PrSyncStep::MarkDone(id);
            if k < fetched.len() {
                assert(plan[k] == ups[k]);
            } else {
                assert(c[k - fetched.len()] == plan[k]);
            }
        }
        if has_key(t, id) && value_at(t, id) == "open"@ && !has_pr_id(fetched, id) {
            let k = choose|k: int| 0 <= k < c.len() && #[trigger] c[k] == PrSyncStep::MarkDone(id);
            assert(plan[k + fetched.len()] == c[k]);
        }
    }
    assert forall|i: int, j: int|
        fetched.len() <= i < plan.len() && fetched.len() <= j < plan.len() && i != j implies #[trigger] plan[i] != #[trigger] plan[j] by {
        assert(plan[i] == c[i - fetched.len()]);
        assert(plan[j] == c[j - fetched.len()]);
    }
}

/// `p` is what one of the entries reads as, under the role `role`.
pub open spec fn read_from_search(raws: Seq<RawPullRequest>, role: Seq<char>, p: PrView) -> bool {
    exists|k: int| 0 <= k < raws.len() && #[trigger] pr_of_raw(raws[k], role) == p
}

/// Some pull request in `s` has this id and the role "authored".
pub open spec fn has_authored(s: Seq<PrView>, id: i64) -> bool {
    exists|i: int| 0 <= i < s.len() && #[trigger] s[i].github_id == id && s[i].role == "authored"@
}

/// The collected pull requests: each GitHub id once; each is an entry of the
/// authored search read with the role "authored" or an entry of the
/// review-requested search read with the role "review_requested"; every entry
/// of either search is there, and one the user authored is there with the
/// role "authored" even where a review of it is requested too.
pub proof fn lemma_collected_prs(
    authored: Option<Vec<RawPullRequest>>,
    review_requested: Option<Vec<RawPullRequest>>,
)
    ensures
        forall|i: int, j: int|
            0 <= i < collected_prs(authored, review_requested).len() && 0 <= j < collected_prs(
                authored,
                review_requested,
            ).len() && i != j ==> #[trigger] collected_prs(authored, review_requested)[i].github_id
                != #[trigger] collected_prs(authored, review_requested)[j].github_id,
        forall|i: int|
            0 <= i < collected_prs(authored, review_requested).len() ==> read_from_search(
                raw_items(authored),
                "authored"@,
                #[trigger] collected_prs(authored, review_requested)[i],
            ) || read_from_search(
                raw_items(review_requested),
                "review_requested"@,
                collected_prs(authored, review_requested)[i],
            ),
        forall|k: int|
            0 <= k < raw_items(authored).len() ==> has_authored(
                collected_prs(authored, review_requested),
                (#[trigger] raw_items(authored)[k]).id.unwrap_or(0),
            ),
        forall|k: int|
            0 <= k < raw_items(review_requested).len() ==> has_pr_id(
                collected_prs(authored, review_requested),
                (#[trigger] raw_items(review_requested)[k]).id.unwrap_or(0),
            ),
{
    let a = raw_items(authored);
    let r = raw_items(review_requested);
    let pa = prs_of_raw(a, search_role(PrSearch::Authored));
    let pr = prs_of_raw(r, search_role(PrSearch::ReviewRequested));
    let s = pa + pr;
    let c = collected_prs(authored, review_requested);
    reveal_strlit("authored");
    reveal_strlit("review_requested");
    assert(search_role(PrSearch::Authored) == "authored"@);
    assert(search_role(PrSearch::ReviewRequested) == "review_requested"@);
    lemma_first_by_id(s);
    assert forall|i: int| 0 <= i < c.len() implies read_from_search(a, "authored"@, #[trigger] c[i])
        || read_from_search(r, "review_requested"@, c[i]) by {
        let k = choose|k: int|
            0 <= k < s.len() && s[k] == c[i] && forall|t: int|
                0 <= t < k ==> #[trigger] s[t].github_id != s[k].github_id;
        if k < pa.len() {
            assert(s[k] == pr_of_raw(a[k], "authored"@));
        } else {
            assert(s[k] == pr_of_raw(r[k - pa.len()], "review_requested"@));
        }
    }
    assert forall|k: int| 0 <= k < a.len() implies has_authored(c, (#[trigger] a[k]).id.unwrap_or(0)) by {
        let id = a[k].id.unwrap_or(0);
        assert(s[k] == pr_of_raw(a[k], "authored"@));
        assert(s[k].github_id == id);
        assert(has_pr_id(c, s[k].github_id));
        let i = choose|i: int| 0 <= i < c.len() && #[trigger] c[i].github_id == id;
        let w = choose|w: int|
            0 <= w < s.len() && s[w] == c[i] && forall|t: int|
                0 <= t < w ==> #[trigger] s[t].github_id != s[w].github_id;
        if w > k {
            assert(s[k].github_id != s[w].github_id);
        }
        assert(s[w] == pr_of_raw(a[w], "authored"@));
    }
    assert forall|k: int| 0 <= k < r.len() implies has_pr_id(c, (#[trigger] r[k]).id.unwrap_or(0)) by {
        assert(s[k + pa.len()] == pr_of_raw(r[k], "review_requested"@));
        assert(has_pr_id(c, s[k + pa.len()].github_id));
    }
}

/// The repository of a pull request's web URL
/// `https://github.com/<owner>/<name>/...` is `<owner>/<name>`.
pub proof fn lemma_repo_of(owner: Seq<char>, name: Seq<char>, rest: Seq<char>)
    requires
        !owner.contains('/'),
        !name.contains('/'),
    ensures
        repo_of("https://github.com/"@ + owner + "/"@ + name + "/"@ + rest) == owner + "/"@ + name,
{
    reveal_strlit("https://github.com/");
    reveal_strlit("/");
    let h = "https:"@;
    reveal_strlit("https:");
    let g = "github.com"@;
    reveal_strlit("github.com");
    let e = Seq::<char>::empty();
    let url = "https://github.com/"@ + owner + "/"@ + name + "/"@ + rest;
    let t4 = name + seq!['/'] + rest;
    let t3 = owner + seq!['/'] + t4;
    let t2 = g + seq!['/'] + t3;
    let t1 = e + seq!['/'] + t2;
    assert(url =~= h + seq!['/'] + t1);
    assert(!h.contains('/')) by {
        if h.contains('/') {
            let i = choose|i: int| 0 <= i < h.len() && h[i] == '/';
        }
    }
    assert(!e.contains('/'));
    assert(!g.contains('/')) by {
        if g.contains('/') {
            let i = choose|i: int| 0 <= i < g.len() && g[i] == '/';
        }
    }
    lemma_split_after(h, t1, '/');
    lemma_split_after(e, t2, '/');
    lemma_split_after(g, t3, '/');
    lemma_split_after(owner, t4, '/');
    lemma_split_after(name, rest, '/');
    lemma_split_on(rest, '/');
    let p = split_on(url, '/');
    assert(p =~= seq![h] + (seq![e] + (seq![g] + (seq![owner] + (seq![name] + split_on(rest, '/'))))));
    assert(p[3] == owner);
    assert(p[4] == name);
    assert("/"@ =~= seq!['/']);
}

} // verus!
