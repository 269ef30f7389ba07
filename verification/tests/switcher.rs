use forkfeatures::row::{chip_layout, linked_worktrees, metadata_layout, row_icon, RowIcon};
use forkfeatures::switcher::{
    all_statuses, default_matches, merge_field_matches, FieldMatch, order_notified_first, search_text, status_label,
    AgentThreadStatus, SwitcherEntry, SwitcherState, ThreadFacts, ThreadMatch, WorktreeNames,
};

fn thread(id: &str, agent: &str, status: AgentThreadStatus, notified: bool) -> SwitcherEntry {
    SwitcherEntry {
        source: 0,
        element_id: id.to_string(),
        title: format!("title of {id}"),
        status,
        notified,
        thread: Some(ThreadFacts { archived: false, agent_id: agent.to_string() }),
        worktrees: Vec::new(),
    }
}

fn terminal(id: &str) -> SwitcherEntry {
    SwitcherEntry {
        source: 0,
        element_id: id.to_string(),
        title: id.to_string(),
        status: AgentThreadStatus::Completed,
        notified: false,
        thread: None,
        worktrees: Vec::new(),
    }
}

fn ids(state: &SwitcherState) -> Vec<String> {
    (0..state.entry_count()).map(|i| state.entry(i).unwrap().element_id.clone()).collect()
}

fn matched(index: usize) -> ThreadMatch {
    ThreadMatch { entry_index: index, title_positions: Vec::new(), worktree_positions: Vec::new() }
}

#[test]
fn labels_and_status_list() {
    assert_eq!(status_label(AgentThreadStatus::Completed), "Completed");
    assert_eq!(status_label(AgentThreadStatus::Running), "Running");
    assert_eq!(status_label(AgentThreadStatus::WaitingForConfirmation), "Waiting for Confirmation");
    assert_eq!(status_label(AgentThreadStatus::Error), "Error");
    assert_eq!(all_statuses().len(), 4);
}

#[test]
fn reload_drops_archived_and_lists_notified_first() {
    let mut state = SwitcherState::new();
    let mut archived = thread("gone", "alpha", AgentThreadStatus::Completed, true);
    archived.thread.as_mut().unwrap().archived = true;
    state.reload(vec![
        thread("a", "alpha", AgentThreadStatus::Completed, false),
        archived,
        terminal("term"),
        thread("b", "beta", AgentThreadStatus::Running, true),
        thread("c", "alpha", AgentThreadStatus::Error, false),
        thread("d", "beta", AgentThreadStatus::Completed, true),
    ]);
    assert_eq!(ids(&state), vec!["b", "d", "a", "term", "c"]);
    assert_eq!(state.match_count(), 5);
    assert_eq!(state.selected_index(), 0);
    assert_eq!(state.selected_element_id(), Some("b".to_string()));
    assert!(!state.any_filter_active());
}

#[test]
fn reload_keeps_the_selected_element() {
    let mut state = SwitcherState::new();
    state.reload(vec![terminal("x"), terminal("y"), terminal("z")]);
    state.set_selected_index(2);
    assert_eq!(state.selected_element_id(), Some("z".to_string()));
    state.reload(vec![terminal("z"), terminal("x")]);
    assert_eq!(state.selected_index(), 0);
    state.set_selected_index(1);
    state.reload(vec![terminal("w"), terminal("y"), terminal("x")]);
    assert_eq!(state.selected_index(), 2);
    state.reload(vec![terminal("q")]);
    assert_eq!(state.selected_index(), 0);
}

#[test]
fn status_filter_applies_only_to_a_partial_selection() {
    let mut state = SwitcherState::new();
    state.toggle_status(AgentThreadStatus::Completed);
    state.toggle_status(AgentThreadStatus::Error);
    assert!(state.any_filter_active());
    assert!(!state.status_enabled(AgentThreadStatus::Completed));
    assert!(state.status_enabled(AgentThreadStatus::Running));
    state.reload(vec![
        thread("a", "x", AgentThreadStatus::Completed, false),
        thread("b", "x", AgentThreadStatus::Running, false),
        thread("c", "x", AgentThreadStatus::WaitingForConfirmation, false),
        thread("d", "x", AgentThreadStatus::Error, false),
    ]);
    assert_eq!(ids(&state), vec!["b", "c"]);
    // Disabling every status shows everything again.
    state.toggle_status(AgentThreadStatus::Running);
    state.toggle_status(AgentThreadStatus::WaitingForConfirmation);
    state.reload(vec![
        thread("a", "x", AgentThreadStatus::Completed, false),
        thread("d", "x", AgentThreadStatus::Error, false),
    ]);
    assert_eq!(ids(&state), vec!["a", "d"]);
    state.toggle_status(AgentThreadStatus::Completed);
    assert!(state.status_enabled(AgentThreadStatus::Completed));
}

#[test]
fn agent_filter_hides_threads_but_not_terminals() {
    let mut state = SwitcherState::new();
    state.toggle_agent("beta".to_string());
    assert!(state.agent_disabled(&"beta".to_string()));
    assert!(state.any_filter_active());
    state.reload(vec![
        thread("a", "beta", AgentThreadStatus::Completed, false),
        terminal("t"),
        thread("b", "alpha", AgentThreadStatus::Completed, false),
    ]);
    assert_eq!(ids(&state), vec!["t", "b"]);
    state.toggle_agent("beta".to_string());
    assert!(!state.agent_disabled(&"beta".to_string()));
    assert!(!state.any_filter_active());
}

#[test]
fn distinct_agents_are_sorted_and_unique() {
    let mut state = SwitcherState::new();
    state.reload(vec![
        thread("a", "zeta", AgentThreadStatus::Completed, false),
        thread("b", "alpha", AgentThreadStatus::Completed, false),
        terminal("t"),
        thread("c", "zeta", AgentThreadStatus::Completed, false),
        thread("d", "beta", AgentThreadStatus::Completed, false),
    ]);
    assert_eq!(state.distinct_agents(), vec!["alpha", "beta", "zeta"]);
}

#[test]
fn query_results_keep_selection_only_for_the_same_query() {
    let mut state = SwitcherState::new();
    state.reload(vec![terminal("x"), terminal("y"), terminal("z")]);
    state.set_selected_index(1);
    let changed = state.begin_query("y");
    assert!(changed);
    state.finish_query(vec![matched(2), matched(1)], changed);
    assert_eq!(state.selected_index(), 0);
    state.set_selected_index(1);
    let changed = state.begin_query("y");
    assert!(!changed);
    state.finish_query(vec![matched(1), matched(0), matched(2)], changed);
    assert_eq!(state.selected_index(), 0);
    assert_eq!(state.selected_entry().map(|e| e.element_id.clone()), Some("y".to_string()));
    assert_eq!(state.find_index_by_element_id(&"z".to_string()), Some(2));
    assert_eq!(state.find_index_by_element_id(&"nope".to_string()), None);
}

#[test]
fn default_matches_name_each_entry() {
    let ms = default_matches(3);
    assert_eq!(ms.iter().map(|m| m.entry_index).collect::<Vec<_>>(), vec![0, 1, 2]);
    assert!(ms.iter().all(|m| m.title_positions.is_empty() && m.worktree_positions.is_empty()));
}

#[test]
fn stable_notified_ordering() {
    let out = order_notified_first(vec![
        terminal("a"),
        thread("b", "x", AgentThreadStatus::Completed, true),
        terminal("c"),
        thread("d", "x", AgentThreadStatus::Completed, true),
    ]);
    let got: Vec<String> = out.iter().map(|e| e.element_id.clone()).collect();
    assert_eq!(got, vec!["b", "d", "a", "c"]);
}

#[test]
fn search_texts_join_present_names() {
    let mut e = terminal("t");
    e.worktrees = vec![
        WorktreeNames { worktree_name: Some("main-wt".into()), branch_name: Some("main".into()) },
        WorktreeNames { worktree_name: None, branch_name: Some("dev".into()) },
        WorktreeNames { worktree_name: Some("other".into()), branch_name: None },
    ];
    assert_eq!(search_text(&e, false), "main-wt other");
    assert_eq!(search_text(&e, true), "main dev");
    assert_eq!(search_text(&terminal("u"), true), "");
}

#[test]
fn row_icons_follow_their_priority() {
    assert_eq!(row_icon(AgentThreadStatus::Running, true), RowIcon::Spinner);
    assert_eq!(row_icon(AgentThreadStatus::Error, true), RowIcon::ErrorMark);
    assert_eq!(row_icon(AgentThreadStatus::WaitingForConfirmation, true), RowIcon::Warning);
    assert_eq!(row_icon(AgentThreadStatus::Completed, true), RowIcon::NotifiedDot);
    assert_eq!(row_icon(AgentThreadStatus::Completed, false), RowIcon::AgentIcon);
}

#[test]
fn row_chips_and_metadata() {
    let ws = vec![
        WorktreeNames { worktree_name: None, branch_name: None },
        WorktreeNames { worktree_name: None, branch_name: Some("b".into()) },
        WorktreeNames { worktree_name: Some("w".into()), branch_name: Some("b".into()) },
    ];
    assert_eq!(linked_worktrees(&ws), vec![1, 2]);
    let only_branch = chip_layout(&ws[1]);
    assert!(only_branch.branch_icon && !only_branch.show_separator && only_branch.show_branch);
    let both = chip_layout(&ws[2]);
    assert!(!both.branch_icon && both.show_separator && both.show_worktree);
    let m = metadata_layout(true, true, true);
    assert!(m.shown && m.dot_after_project && m.dot_before_timestamp);
    let m = metadata_layout(false, false, true);
    assert!(m.shown && !m.dot_after_project && !m.dot_before_timestamp);
    assert!(!metadata_layout(false, false, false).shown);
}

#[test]
fn toggling_twice_restores_the_filters() {
    let mut state = SwitcherState::new();
    state.toggle_agent("alpha".to_string());
    state.toggle_agent("alpha".to_string());
    assert!(!state.agent_disabled(&"alpha".to_string()));
    state.toggle_status(AgentThreadStatus::Running);
    state.toggle_status(AgentThreadStatus::Running);
    assert!(all_statuses().into_iter().all(|s| state.status_enabled(s)));
    assert!(!state.any_filter_active());
}

#[test]
fn merged_field_matches_group_by_entry() {
    let title = vec![
        FieldMatch { candidate_id: 4, positions: vec![0, 1] },
        FieldMatch { candidate_id: 1, positions: vec![2] },
        FieldMatch { candidate_id: 4, positions: vec![3] },
    ];
    let worktree = vec![FieldMatch { candidate_id: 2, positions: vec![5] }];
    let rows = merge_field_matches(&title, &worktree, &vec![7, 1]);
    let ids: Vec<usize> = rows.iter().map(|m| m.entry_index).collect();
    assert_eq!(ids, vec![1, 2, 4, 7]);
    assert_eq!(rows[0].title_positions, vec![2]);
    assert!(rows[0].worktree_positions.is_empty());
    assert_eq!(rows[1].worktree_positions, vec![5]);
    assert_eq!(rows[2].title_positions, vec![3]);
    assert!(rows[3].title_positions.is_empty());
}
