//! The decisions a thread row makes when it is drawn: which icon leads it,
//! which worktree chips it shows, and how its metadata line is laid out.
use vstd::prelude::*;

use crate::switcher::{AgentThreadStatus, WorktreeNames};

verus! {

/// The icon at the start of a row.
#[derive(Clone, Copy, Debug, PartialEq, Eq, Structural)]
pub enum RowIcon {
    /// A spinning "loading" circle: the thread is running.
    Spinner,
    /// A red cross: the thread failed.
    ErrorMark,
    /// A warning sign: the thread waits for confirmation.
    Warning,
    /// An accent dot: the thread has news.
    NotifiedDot,
    /// The agent's own icon.
    AgentIcon,
}

pub open spec fn row_icon_of(status: AgentThreadStatus, notified: bool) -> RowIcon {
    if status == AgentThreadStatus::Running {
        RowIcon::Spinner
    } else if status == AgentThreadStatus::Error {
        RowIcon::ErrorMark
    } else if status == AgentThreadStatus::WaitingForConfirmation {
        RowIcon::Warning
    } else if notified {
        RowIcon::NotifiedDot
    } else {
        RowIcon::AgentIcon
    }
}

/// The leading icon: running wins, then failure, then a pending
/// confirmation, then a notification; otherwise the agent's icon.
pub fn row_icon(status: AgentThreadStatus, notified: bool) -> (res: RowIcon)
    ensures
        res == row_icon_of(status, notified),
{
    match status {
        AgentThreadStatus::Running => RowIcon::Spinner,
        AgentThreadStatus::Error => RowIcon::ErrorMark,
        AgentThreadStatus::WaitingForConfirmation => RowIcon::Warning,
        AgentThreadStatus::Completed => if notified {
            RowIcon::NotifiedDot
        } else {
            RowIcon::AgentIcon
        },
    }
}

/// The leading icon: a running thread always spins; a failed one or one
/// waiting for confirmation shows that whether notified or not; only a
/// completed thread shows the notification dot, exactly when notified.
pub proof fn lemma_row_icon_precedence(status: AgentThreadStatus, notified: bool)
    ensures
        status == AgentThreadStatus::Running ==> row_icon_of(status, notified) == RowIcon::Spinner,
        status != AgentThreadStatus::Completed ==> row_icon_of(status, notified) == row_icon_of(
            status,
            !notified,
        ),
        row_icon_of(status, notified) == RowIcon::NotifiedDot <==> (status
            == AgentThreadStatus::Completed && notified),
        row_icon_of(status, notified) == RowIcon::ErrorMark <==> status == AgentThreadStatus::Error,
        row_icon_of(status, notified) == RowIcon::Warning <==> status
            == AgentThreadStatus::WaitingForConfirmation,
{
}

/// The metadata line is drawn exactly when it has something to show, and a
/// dot stands only between two parts that are both shown.
pub proof fn lemma_metadata_dots(has_project: bool, has_worktree: bool, has_timestamp: bool)
    ensures
        metadata_layout_of(has_project, has_worktree, has_timestamp).shown <==> (has_project
            || has_worktree || has_timestamp),
        metadata_layout_of(has_project, has_worktree, has_timestamp).dot_after_project
            <==> (has_project && has_worktree),
        metadata_layout_of(has_project, has_worktree, has_timestamp).dot_before_timestamp
            <==> (has_timestamp && (has_project || has_worktree)),
        !has_timestamp ==> !metadata_layout_of(has_project, has_worktree, has_timestamp).dot_before_timestamp,
{
}

/// A worktree link worth a chip: it names a worktree or a branch.
pub open spec fn is_linked(w: WorktreeNames) -> bool {
    w.worktree_name is Some || w.branch_name is Some
}

/// The positions of the linked worktrees, in order.
pub open spec fn linked_positions(ws: Seq<WorktreeNames>) -> Seq<int>
    decreases ws.len(),
{
    if ws.len() == 0 {
        seq![]
    } else {
        let rest = linked_positions(ws.drop_last());
        if is_linked(ws.last()) {
            rest.push(ws.len() - 1)
        } else {
            rest
        }
    }
}

/// The positions of the worktree links that get a chip.
pub fn linked_worktrees(ws: &Vec<WorktreeNames>) -> (res: Vec<usize>)
    ensures
        res@.map_values(|i: usize| i as int) == linked_positions(ws@),
{
    let mut out: Vec<usize> = Vec::new();
    let mut i: usize = 0;
    while i < ws.len()
        invariant
            0 <= i <= ws@.len(),
            out@.map_values(|k: usize| k as int) == linked_positions(ws@.take(i as int)),
        decreases ws.len() - i,
    {
        let ghost before = out@;
        assert(ws@.take(i + 1).drop_last() =~= ws@.take(i as int));
        assert(ws@.take(i + 1).last() == ws@[i as int]);
        if ws[i].worktree_name.is_some() || ws[i].branch_name.is_some() {
            out.push(i);
            assert(out@.map_values(|k: usize| k as int) =~= before.map_values(|k: usize| k as int).push(i as int));
        }
        i = i + 1;
    }
    assert(ws@.take(i as int) =~= ws@);
    out
}

/// How one worktree chip is drawn.
#[derive(Clone, Copy, Debug, PartialEq, Eq, Structural)]
pub struct ChipLayout {
    /// A branch icon rather than a worktree icon.
    pub branch_icon: bool,
    pub show_worktree: bool,
    /// A `/` between the worktree and the branch name.
    pub show_separator: bool,
    pub show_branch: bool,
}

pub open spec fn chip_layout_of(w: WorktreeNames) -> ChipLayout {
    ChipLayout {
        branch_icon: w.worktree_name is None && w.branch_name is Some,
        show_worktree: w.worktree_name is Some,
        show_separator: w.worktree_name is Some && w.branch_name is Some,
        show_branch: w.branch_name is Some,
    }
}

/// The chip of one worktree link: a branch icon when only a branch is
/// named, and a separator when both names are shown.
pub fn chip_layout(w: &WorktreeNames) -> (res: ChipLayout)
    ensures
        res == chip_layout_of(*w),
{
    let has_worktree = w.worktree_name.is_some();
    let has_branch = w.branch_name.is_some();
    ChipLayout {
        branch_icon: !has_worktree && has_branch,
        show_worktree: has_worktree,
        show_separator: has_worktree && has_branch,
        show_branch: has_branch,
    }
}

/// A chip shows the branch name exactly when the link names a branch and
/// the worktree name exactly when it names a worktree, each whatever the
/// other is; the `/` stands exactly between two shown names; the branch
/// icon marks a chip that shows a branch and no worktree; and a linked
/// worktree's chip always shows some name.
pub proof fn lemma_chip_shows_what_is_named(w: WorktreeNames)
    ensures
        chip_layout_of(w).show_branch <==> w.branch_name is Some,
        chip_layout_of(w).show_worktree <==> w.worktree_name is Some,
        chip_layout_of(w).show_separator <==> (chip_layout_of(w).show_worktree && chip_layout_of(
            w,
        ).show_branch),
        chip_layout_of(w).branch_icon <==> (chip_layout_of(w).show_branch && !chip_layout_of(
            w,
        ).show_worktree),
        is_linked(w) ==> chip_layout_of(w).show_worktree || chip_layout_of(w).show_branch,
{
}

/// How the line under a row's title is laid out.
#[derive(Clone, Copy, Debug, PartialEq, Eq, Structural)]
pub struct MetadataLayout {
    /// Whether the line is drawn at all.
    pub shown: bool,
    /// A dot between the project name and the worktree chips.
    pub dot_after_project: bool,
    /// A dot before the timestamp.
    pub dot_before_timestamp: bool,
}

pub open spec fn metadata_layout_of(
    has_project: bool,
    has_worktree: bool,
    has_timestamp: bool,
) -> MetadataLayout {
    MetadataLayout {
        shown: has_project || has_worktree || has_timestamp,
        dot_after_project: has_project && has_worktree,
        dot_before_timestamp: (has_project || has_worktree) && has_timestamp,
    }
}

/// The metadata line: drawn when there is a project name, a linked worktree
/// or a timestamp, with a dot between each two neighbouring parts.
pub fn metadata_layout(has_project: bool, has_worktree: bool, has_timestamp: bool) -> (res:
    MetadataLayout)
    ensures
        res == metadata_layout_of(has_project, has_worktree, has_timestamp),
{
    MetadataLayout {
        shown: has_project || has_worktree || has_timestamp,
        dot_after_project: has_project && has_worktree,
        dot_before_timestamp: (has_project || has_worktree) && has_timestamp,
    }
}

} // verus!
