use forkfeatures::github::{
    authorization_value, classify_state, latest_index, latest_pull_request, latest_pull_request_at,
    next_fetch_step, pulls_url, urlencode, ApiPullRequest, FetchStep, PrQuery,
};
use forkfeatures::state::{PrState, PullRequestInfo};

fn api(number: u64, state: &str, updated_at: &str) -> ApiPullRequest {
    ApiPullRequest {
        number,
        title: format!("title {number}"),
        html_url: format!("https://github.com/o/r/pull/{number}"),
        state: state.to_string(),
        draft: None,
        merged_at: None,
        updated_at: updated_at.to_string(),
        auto_merge: false,
    }
}

#[test]
fn status_words_follow_their_priority() {
    let mut pr = api(1, "open", "2024-01-01T00:00:00Z");
    assert_eq!(classify_state(&pr), "open");
    pr.auto_merge = true;
    assert_eq!(classify_state(&pr), "merge_queue");
    pr.draft = Some(true);
    assert_eq!(classify_state(&pr), "draft");
    pr.draft = Some(false);
    assert_eq!(classify_state(&pr), "merge_queue");
    pr.state = "closed".to_string();
    assert_eq!(classify_state(&pr), "closed");
    pr.merged_at = Some("2024-01-02T00:00:00Z".to_string());
    assert_eq!(classify_state(&pr), "merged");
}

#[test]
fn urlencode_keeps_unreserved_and_escapes_the_rest() {
    assert_eq!(urlencode("feature/x y"), "feature%2Fx%20y");
    assert_eq!(urlencode("A-z_0.9~"), "A-z_0.9~");
    assert_eq!(urlencode("é"), "%C3%A9");
    assert_eq!(urlencode(""), "");
}

#[test]
fn pulls_url_is_exact() {
    assert_eq!(
        pulls_url("octo", "hello", "fix/bug", "open"),
        "https://api.github.com/repos/octo/hello/pulls?head=octo:fix%2Fbug&state=open&sort=updated&direction=desc&per_page=5"
    );
}

#[test]
fn authorization_header_value() {
    assert_eq!(authorization_value("abc"), "Bearer abc");
}

#[test]
fn latest_is_the_first_most_recently_updated() {
    let prs = vec![
        api(1, "open", "2024-01-01T00:00:00Z"),
        api(2, "open", "2024-03-01T00:00:00Z"),
        api(3, "open", "2024-02-01T00:00:00Z"),
        api(4, "open", "2024-03-01T00:00:00Z"),
    ];
    assert_eq!(latest_index(&prs), Some(1));
    assert_eq!(latest_index(&Vec::new()), None);
    let info: PullRequestInfo = latest_pull_request_at(prs, 42).unwrap();
    assert_eq!(info.number, 2);
    assert_eq!(info.title, "title 2");
    assert_eq!(info.html_url, "https://github.com/o/r/pull/2");
    assert_eq!(info.state, "open");
    assert_eq!(info.fetched_at, 42);
    assert!(latest_pull_request_at(Vec::new(), 1).is_none());
}

#[test]
fn latest_pull_request_uses_the_status_word() {
    let mut merged = api(9, "closed", "2024-05-05T00:00:00Z");
    merged.merged_at = Some("2024-05-05T00:00:00Z".to_string());
    let info = latest_pull_request(vec![api(8, "closed", "2023-01-01T00:00:00Z"), merged]).unwrap();
    assert_eq!(info.number, 9);
    assert_eq!(info.state, "merged");
    assert!(latest_pull_request(Vec::new()).is_none());
}

fn found(number: u64) -> PullRequestInfo {
    PullRequestInfo {
        number,
        title: String::new(),
        html_url: String::new(),
        state: "open",
        fetched_at: 0,
    }
}

#[test]
fn fetch_asks_open_then_closed() {
    assert!(matches!(next_fetch_step(None), FetchStep::Query(PrQuery::Open)));
    assert!(matches!(
        next_fetch_step(Some((PrQuery::Open, None))),
        FetchStep::Query(PrQuery::Closed)
    ));
    assert!(matches!(
        next_fetch_step(Some((PrQuery::Closed, None))),
        FetchStep::Done(PrState::NotFound)
    ));
    match next_fetch_step(Some((PrQuery::Open, Some(found(4))))) {
        FetchStep::Done(PrState::Found(pr)) => assert_eq!(pr.number, 4),
        _ => panic!("an open pull request ends the lookup"),
    }
    match next_fetch_step(Some((PrQuery::Closed, Some(found(5))))) {
        FetchStep::Done(PrState::Found(pr)) => assert_eq!(pr.number, 5),
        _ => panic!("a closed pull request ends the lookup"),
    }
    assert_eq!(PrQuery::Open.as_str(), "open");
    assert_eq!(PrQuery::Closed.as_str(), "closed");
}

fn decode(s: &str) -> Vec<u8> {
    let b = s.as_bytes();
    let mut out = Vec::new();
    let mut i = 0;
    while i < b.len() {
        if b[i] == b'%' {
            out.push(u8::from_str_radix(&s[i + 1..i + 3], 16).unwrap());
            i += 3;
        } else {
            out.push(b[i]);
            i += 1;
        }
    }
    out
}

#[test]
fn urlencode_round_trips_and_counts_escapes() {
    for input in ["feature/naïve branch", "a+b&c=d", "plain-name_1.0~x", ""] {
        let out = urlencode(input);
        assert_eq!(decode(&out), input.as_bytes());
        let reserved = input
            .bytes()
            .filter(|b| !(b.is_ascii_alphanumeric() || b"-._~".contains(b)))
            .count();
        assert_eq!(out.len(), input.len() + 2 * reserved);
        assert_eq!(out == input, reserved == 0);
    }
    assert_eq!(urlencode("ab") + &urlencode("/c"), urlencode("ab/c"));
}
