use forkfeatures::state::{
    PrIndicatorState, PrState, PullRequestInfo, Target, REFRESH_INTERVAL_NANOS,
};

fn target(owner: &str, repo: &str, branch: &str) -> Target {
    Target { owner: owner.to_string(), repo: repo.to_string(), branch: branch.to_string() }
}

fn pr(number: u64) -> PullRequestInfo {
    PullRequestInfo {
        number,
        title: format!("PR {number}"),
        html_url: format!("https://github.com/o/r/pull/{number}"),
        state: "open",
        fetched_at: 7,
    }
}

fn names(ts: &[Target]) -> Vec<String> {
    ts.iter().map(|t| format!("{}/{}@{}", t.owner, t.repo, t.branch)).collect()
}

#[test]
fn new_state_knows_nothing() {
    let state = PrIndicatorState::new();
    assert!(state.current_pr().is_none());
    assert!(state.pr_for("o", "r", "main").is_none());
    assert!(!state.palette_visible());
    assert!(state.targets_due_at(0).is_empty());
}

#[test]
fn first_observation_asks_for_a_fetch_and_a_palette_refresh() {
    let mut state = PrIndicatorState::new();
    let out = state.observe_target("o".into(), "r".into(), "main".into());
    assert!(out.refresh_palette);
    assert!(out.needs_fetch);
    // Only a triple never seen before starts a fetch; a pending or failed
    // one is left to the poll loop.
    let again = state.observe_target("o".into(), "r".into(), "main".into());
    assert!(!again.refresh_palette);
    assert!(!again.needs_fetch);
    assert_eq!(names(&state.targets_due_at(5)), vec!["o/r@main"]);
}

#[test]
fn recorded_result_is_read_back() {
    let mut state = PrIndicatorState::new();
    state.observe_target("o".into(), "r".into(), "main".into());
    state.record_result_at(target("o", "r", "main"), PrState::Found(pr(12)), 1_000);
    assert_eq!(state.pr_for("o", "r", "main").map(|p| p.number), Some(12));
    assert_eq!(state.current_pr().map(|p| p.number), Some(12));
    assert!(state.palette_visible());
    assert!(state.pr_for("o", "r", "dev").is_none());
    let out = state.observe_target("o".into(), "r".into(), "main".into());
    assert!(!out.needs_fetch);
    assert!(!out.refresh_palette);
}

#[test]
fn empty_result_hides_the_chip_but_stays_cached() {
    let mut state = PrIndicatorState::new();
    state.observe_target("o".into(), "r".into(), "b".into());
    state.record_result_at(target("o", "r", "b"), PrState::NotFound, 50);
    assert!(state.current_pr().is_none());
    assert!(!state.palette_visible());
    let out = state.observe_target("o".into(), "r".into(), "b".into());
    assert!(!out.needs_fetch);
}

#[test]
fn a_new_result_replaces_the_old_one() {
    let mut state = PrIndicatorState::new();
    state.record_result_at(target("o", "r", "b"), PrState::Found(pr(1)), 10);
    state.record_result_at(target("o", "r", "b"), PrState::Found(pr(2)), 20);
    assert_eq!(state.pr_for("o", "r", "b").map(|p| p.number), Some(2));
    state.record_result_at(target("o", "r", "b"), PrState::NotFound, 30);
    assert!(state.pr_for("o", "r", "b").is_none());
}

#[test]
fn switching_branches_refreshes_the_palette() {
    let mut state = PrIndicatorState::new();
    state.observe_target("o".into(), "r".into(), "a".into());
    state.record_result_at(target("o", "r", "a"), PrState::Found(pr(3)), 0);
    let out = state.observe_target("o".into(), "r".into(), "b".into());
    assert!(out.refresh_palette);
    assert!(out.needs_fetch);
    assert!(state.current_pr().is_none());
    assert_eq!(state.pr_for("o", "r", "a").map(|p| p.number), Some(3));
}

#[test]
fn refresh_list_follows_the_interval() {
    let mut state = PrIndicatorState::new();
    state.observe_target("o".into(), "r".into(), "a".into());
    state.observe_target("o".into(), "r".into(), "b".into());
    state.observe_target("o".into(), "r".into(), "a".into());
    let t0: i128 = 1_000_000;
    state.record_result_at(target("o", "r", "a"), PrState::NotFound, t0);
    assert_eq!(names(&state.targets_due_at(t0)), vec!["o/r@b"]);
    assert_eq!(names(&state.targets_due_at(t0 + REFRESH_INTERVAL_NANOS - 1)), vec!["o/r@b"]);
    assert_eq!(
        names(&state.targets_due_at(t0 + REFRESH_INTERVAL_NANOS)),
        vec!["o/r@a", "o/r@b"]
    );
    // A clock that went backwards makes the entry due again.
    assert_eq!(names(&state.targets_due_at(t0 - 1)), vec!["o/r@a", "o/r@b"]);
}

#[test]
fn record_result_stamps_the_current_time() {
    let mut state = PrIndicatorState::new();
    state.observe_target("o".into(), "r".into(), "a".into());
    state.record_result(target("o", "r", "a"), PrState::Found(pr(5)));
    assert_eq!(state.current_pr().map(|p| p.number), Some(5));
    assert!(state.targets_due_for_refresh().is_empty());
}

#[test]
fn target_helpers() {
    let a = target("o", "r", "b");
    let b = a.duplicate();
    assert!(a.same_as(&b));
    assert!(!a.same_as(&target("o", "r", "c")));
}

#[test]
fn times_before_the_epoch_still_count() {
    let mut state = PrIndicatorState::new();
    state.observe_target("o".into(), "r".into(), "a".into());
    let t0: i128 = -5_000_000_000_000;
    state.record_result_at(target("o", "r", "a"), PrState::NotFound, t0);
    assert!(state.targets_due_at(t0 + REFRESH_INTERVAL_NANOS - 1).is_empty());
    assert_eq!(names(&state.targets_due_at(t0 + REFRESH_INTERVAL_NANOS)), vec!["o/r@a"]);
    state.record_result_at(target("o", "r", "a"), PrState::NotFound, i128::MIN);
    assert_eq!(names(&state.targets_due_at(0)), vec!["o/r@a"]);
    assert_eq!(names(&state.targets_due_at(i128::MIN + 1)), Vec::<String>::new());
}

#[test]
fn palette_follows_the_current_pull_request_over_a_run() {
    let mut state = PrIndicatorState::new();
    let mut shown = false;
    let observe = |state: &mut PrIndicatorState, shown: &mut bool, b: &str| {
        let out = state.observe_target("o".into(), "r".into(), b.into());
        if out.refresh_palette {
            *shown = state.palette_visible();
        }
    };
    observe(&mut state, &mut shown, "a");
    assert_eq!(shown, state.current_pr().is_some());
    state.record_result_at(target("o", "r", "a"), PrState::Found(pr(1)), 0);
    shown = state.palette_visible();
    assert!(shown);
    observe(&mut state, &mut shown, "a");
    assert!(shown);
    observe(&mut state, &mut shown, "b");
    assert!(!shown);
    observe(&mut state, &mut shown, "a");
    assert!(shown);
}
