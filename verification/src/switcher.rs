//! The thread switcher's rules: which entries survive the filters, in what
//! order they are listed, what text each field search sees, and which row
//! stays selected when the list changes.
use vstd::prelude::*;

use crate::text::{chars_lt, lemma_chars_lt_total, lemma_chars_lt_transitive, push_char, str_lt};

verus! {

/// The status of an agent thread.
#[derive(Clone, Copy, Debug, PartialEq, Eq, Structural)]
pub enum AgentThreadStatus {
    Completed,
    Running,
    WaitingForConfirmation,
    Error,
}

/// How many statuses there are.
pub const STATUS_COUNT: usize = 4;

/// Every status, in menu order.
pub open spec fn all_statuses_seq() -> Seq<AgentThreadStatus> {
    seq![
        AgentThreadStatus::Completed,
        AgentThreadStatus::Running,
        AgentThreadStatus::WaitingForConfirmation,
        AgentThreadStatus::Error,
    ]
}

/// Every status, in menu order.
pub fn all_statuses() -> (res: Vec<AgentThreadStatus>)
    ensures
        res@ == all_statuses_seq(),
{
    let mut v = Vec::new();
    v.push(AgentThreadStatus::Completed);
    v.push(AgentThreadStatus::Running);
    v.push(AgentThreadStatus::WaitingForConfirmation);
    v.push(AgentThreadStatus::Error);
    assert(v@ =~= all_statuses_seq());
    v
}

pub open spec fn status_label_of(status: AgentThreadStatus) -> Seq<char> {
    match status {
        AgentThreadStatus::Completed => "Completed"@,
        AgentThreadStatus::Running => "Running"@,
        AgentThreadStatus::WaitingForConfirmation => "Waiting for Confirmation"@,
        AgentThreadStatus::Error => "Error"@,
    }
}

/// The menu label of a status.
pub fn status_label(status: AgentThreadStatus) -> (res: &'static str)
    ensures
        res@ == status_label_of(status),
{
    match status {
        AgentThreadStatus::Completed => "Completed",
        AgentThreadStatus::Running => "Running",
        AgentThreadStatus::WaitingForConfirmation => "Waiting for Confirmation",
        AgentThreadStatus::Error => "Error",
    }
}

/// What the switcher knows of an agent thread.
pub struct ThreadFacts {
    pub archived: bool,
    pub agent_id: String,
}

/// The worktree and branch an entry is linked to.
pub struct WorktreeNames {
    pub worktree_name: Option<String>,
    pub branch_name: Option<String>,
}

/// One row the sidebar offers: an agent thread or a terminal.
pub struct SwitcherEntry {
    /// The row's position in the list the sidebar gave.
    pub source: usize,
    pub element_id: String,
    pub title: String,
    pub status: AgentThreadStatus,
    pub notified: bool,
    /// `Some` for an agent thread, `None` for a terminal.
    pub thread: Option<ThreadFacts>,
    pub worktrees: Vec<WorktreeNames>,
}

/// `e` survives the filters: not an archived thread; of an enabled status
/// when some but not all statuses are enabled; not from a disabled agent.
pub open spec fn passes_filters(
    enabled: Seq<AgentThreadStatus>,
    disabled: Set<Seq<char>>,
    e: SwitcherEntry,
) -> bool {
    &&& !(e.thread matches Some(t) && t.archived)
    &&& (enabled.len() == 0 || enabled.len() >= STATUS_COUNT || enabled.contains(e.status))
    &&& (e.thread matches Some(t) ==> !disabled.contains(t.agent_id@))
}

/// The entries of `es` that survive the filters, in order.
pub open spec fn kept(
    es: Seq<SwitcherEntry>,
    enabled: Seq<AgentThreadStatus>,
    disabled: Set<Seq<char>>,
) -> Seq<SwitcherEntry>
    decreases es.len(),
{
    if es.len() == 0 {
        seq![]
    } else {
        let rest = kept(es.drop_last(), enabled, disabled);
        if passes_filters(enabled, disabled, es.last()) {
            rest.push(es.last())
        } else {
            rest
        }
    }
}

/// The entries of `es` whose `notified` flag is `flag`, in order.
pub open spec fn with_notified(es: Seq<SwitcherEntry>, flag: bool) -> Seq<SwitcherEntry>
    decreases es.len(),
{
    if es.len() == 0 {
        seq![]
    } else {
        let rest = with_notified(es.drop_last(), flag);
        if es.last().notified == flag {
            rest.push(es.last())
        } else {
            rest
        }
    }
}

/// A stable sort that lists notified entries first.
pub open spec fn notified_first(es: Seq<SwitcherEntry>) -> Seq<SwitcherEntry> {
    with_notified(es, true) + with_notified(es, false)
}

/// A match that only names an entry, with no highlighted characters.
pub struct ThreadMatch {
    pub entry_index: usize,
    pub title_positions: Vec<usize>,
    pub worktree_positions: Vec<usize>,
}

pub open spec fn is_plain_match(m: ThreadMatch, i: int) -> bool {
    &&& m.entry_index == i
    &&& m.title_positions@.len() == 0
    &&& m.worktree_positions@.len() == 0
}

/// One plain match per entry, in entry order: what an empty query shows.
pub fn default_matches(count: usize) -> (res: Vec<ThreadMatch>)
    ensures
        res@.len() == count,
        forall|i: int| 0 <= i < count ==> is_plain_match(#[trigger] res@[i], i),
{
    let mut out: Vec<ThreadMatch> = Vec::new();
    let mut i: usize = 0;
    while i < count
        invariant
            0 <= i <= count,
            out@.len() == i,
            forall|j: int| 0 <= j < i ==> is_plain_match(#[trigger] out@[j], j),
        decreases count - i,
    {
        out.push(ThreadMatch { entry_index: i, title_positions: Vec::new(), worktree_positions: Vec::new() });
        i = i + 1;
    }
    out
}

/// The present names among `ws`, worktree names or branch names.
pub open spec fn present_names(ws: Seq<WorktreeNames>, branches: bool) -> Seq<Seq<char>>
    decreases ws.len(),
{
    if ws.len() == 0 {
        seq![]
    } else {
        let rest = present_names(ws.drop_last(), branches);
        let name = if branches {
            ws.last().branch_name
        } else {
            ws.last().worktree_name
        };
        match name {
            Some(n) => rest.push(n@),
            None => rest,
        }
    }
}

/// `parts` joined with single spaces.
pub open spec fn join_spaced(parts: Seq<Seq<char>>) -> Seq<char>
    decreases parts.len(),
{
    if parts.len() == 0 {
        seq![]
    } else if parts.len() == 1 {
        parts[0]
    } else {
        join_spaced(parts.drop_last()) + seq![' '] + parts.last()
    }
}

/// The text the worktree search (`branches == false`) or the branch search
/// (`branches == true`) sees for an entry: its names joined with spaces.
pub fn search_text(entry: &SwitcherEntry, branches: bool) -> (res: String)
    ensures
        res@ == join_spaced(present_names(entry.worktrees@, branches)),
{
    let ws = &entry.worktrees;
    let mut out = String::new();
    let mut any = false;
    let mut i: usize = 0;
    while i < ws.len()
        invariant
            0 <= i <= ws@.len(),
            out@ == join_spaced(present_names(ws@.take(i as int), branches)),
            any == (present_names(ws@.take(i as int), branches).len() > 0),
        decreases ws.len() - i,
    {
        let ghost before = present_names(ws@.take(i as int), branches);
        assert(ws@.take(i + 1).drop_last() =~= ws@.take(i as int));
        let name = if branches {
            &ws[i].branch_name
        } else {
            &ws[i].worktree_name
        };
        match name {
            Some(n) => {
                let ghost after = before.push(n@);
                assert(after.drop_last() =~= before);
                if any {
                    push_char(&mut out, ' ');
                }
                out.append(n.as_str());
                any = true;
                assert(out@ =~= join_spaced(after));
            },
            None => {},
        }
        i = i + 1;
    }
    assert(ws@.take(i as int) =~= ws@);
    out
}

/// The element id shown at match position `i`, if that position names an
/// entry.
pub open spec fn id_at(entries: Seq<SwitcherEntry>, matches: Seq<ThreadMatch>, i: int) -> Option<
    Seq<char>,
> {
    if 0 <= i < matches.len() && matches[i].entry_index < entries.len() {
        Some(entries[matches[i].entry_index as int].element_id@)
    } else {
        None
    }
}

/// `i` is the first match position showing `id`.
pub open spec fn first_with_id(
    entries: Seq<SwitcherEntry>,
    matches: Seq<ThreadMatch>,
    id: Seq<char>,
    i: int,
) -> bool {
    &&& 0 <= i < matches.len()
    &&& id_at(entries, matches, i) == Some(id)
    &&& forall|j: int| 0 <= j < i ==> id_at(entries, matches, j) != Some(id)
}

pub open spec fn position_of_id(
    entries: Seq<SwitcherEntry>,
    matches: Seq<ThreadMatch>,
    id: Seq<char>,
) -> Option<int> {
    if exists|i: int| first_with_id(entries, matches, id, i) {
        Some(choose|i: int| first_with_id(entries, matches, id, i))
    } else {
        None
    }
}

/// The selection after the list changes: the first row showing the
/// previously selected element, else the top row.
pub open spec fn restored_selection(
    entries: Seq<SwitcherEntry>,
    matches: Seq<ThreadMatch>,
    id: Option<Seq<char>>,
) -> int {
    match id {
        Some(x) => match position_of_id(entries, matches, x) {
            Some(i) => i,
            None => 0,
        },
        None => 0,
    }
}

/// `i` is the first position of `s` in `v`.
pub open spec fn first_status_index(v: Seq<AgentThreadStatus>, s: AgentThreadStatus, i: int) -> bool {
    &&& 0 <= i < v.len()
    &&& v[i] == s
    &&& forall|j: int| 0 <= j < i ==> v[j] != s
}

/// The enabled statuses after toggling `s`: removed if present, else added
/// at the end.
pub open spec fn toggled_statuses(v: Seq<AgentThreadStatus>, s: AgentThreadStatus) -> Seq<
    AgentThreadStatus,
> {
    if v.contains(s) {
        v.remove(choose|i: int| first_status_index(v, s, i))
    } else {
        v.push(s)
    }
}

/// The disabled agents after toggling `a`: removed if present, else added.
pub open spec fn toggled_agents(d: Set<Seq<char>>, a: Seq<char>) -> Set<Seq<char>> {
    if d.contains(a) {
        d.remove(a)
    } else {
        d.insert(a)
    }
}

/// The agent of entry `i`, when it is a thread.
pub open spec fn agent_at(es: Seq<SwitcherEntry>, i: int) -> Option<Seq<char>> {
    match es[i].thread {
        Some(t) => Some(t.agent_id@),
        None => None,
    }
}

/// The agents of the thread entries among `es`.
pub open spec fn agents_of(es: Seq<SwitcherEntry>) -> Set<Seq<char>> {
    Set::new(|a: Seq<char>| exists|i: int| 0 <= i < es.len() && #[trigger] agent_at(es, i) == Some(a))
}

/// Strictly increasing in string order.
pub open spec fn strictly_sorted(s: Seq<Seq<char>>) -> bool {
    forall|i: int, j: int| 0 <= i < j < s.len() ==> chars_lt(s[i], s[j])
}

pub open spec fn views_of(v: Seq<String>) -> Seq<Seq<char>> {
    v.map_values(|s: String| s@)
}

/// The switcher's state in mathematical terms.
pub struct SwitcherView {
    /// The listed entries, after filtering and ordering.
    pub entries: Seq<SwitcherEntry>,
    /// The rows shown, each naming an entry.
    pub matches: Seq<ThreadMatch>,
    pub selected: usize,
    pub previous_query: Seq<char>,
    pub enabled: Seq<AgentThreadStatus>,
    pub disabled: Set<Seq<char>>,
}

impl SwitcherView {
    /// The element id of the selected row.
    pub open spec fn selected_id(self) -> Option<Seq<char>> {
        id_at(self.entries, self.matches, self.selected as int)
    }

    /// Whether any filter hides something: not every status is enabled, or
    /// some agent is disabled.
    pub open spec fn any_filter_active(self) -> bool {
        self.enabled.len() < STATUS_COUNT || self.disabled.len() > 0
    }
}

/// The thread switcher's list, selection, query and filters.
pub struct SwitcherState {
    entries: Vec<SwitcherEntry>,
    matches: Vec<ThreadMatch>,
    selected_index: usize,
    previous_query: String,
    enabled_statuses: Vec<AgentThreadStatus>,
    disabled_agents: Vec<String>,
}

spec fn distinct_strings(v: Seq<String>) -> bool {
    forall|i: int, j: int| 0 <= i < j < v.len() ==> v[i]@ != v[j]@
}

spec fn distinct_statuses(v: Seq<AgentThreadStatus>) -> bool {
    forall|i: int, j: int| 0 <= i < j < v.len() ==> v[i] != v[j]
}

spec fn string_set(v: Seq<String>) -> Set<Seq<char>> {
    Set::new(|a: Seq<char>| exists|i: int| 0 <= i < v.len() && v[i]@ == a)
}

proof fn lemma_string_set_finite(v: Seq<String>)
    ensures
        string_set(v).finite(),
        distinct_strings(v) ==> string_set(v).len() == v.len(),
    decreases v.len(),
{
    if v.len() == 0 {
        assert(string_set(v) =~= Set::<Seq<char>>::empty());
    } else {
        let init = v.drop_last();
        lemma_string_set_finite(init);
        assert(string_set(v) =~= string_set(init).insert(v.last()@)) by {
            assert forall|a: Seq<char>| string_set(v).contains(a) implies string_set(init).insert(v.last()@).contains(a) by {
                let i = choose|i: int| 0 <= i < v.len() && v[i]@ == a;
                if i < v.len() - 1 {
                    assert(init[i]@ == a);
                }
            }
            assert forall|a: Seq<char>| string_set(init).insert(v.last()@).contains(a) implies string_set(v).contains(a) by {
                if a != v.last()@ {
                    let i = choose|i: int| 0 <= i < init.len() && init[i]@ == a;
                    assert(v[i]@ == a);
                } else {
                    assert(v[v.len() - 1]@ == a);
                }
            }
        }
        if distinct_strings(v) {
            assert(!string_set(init).contains(v.last()@)) by {
                if string_set(init).contains(v.last()@) {
                    let i = choose|i: int| 0 <= i < init.len() && init[i]@ == v.last()@;
                    assert(v[i]@ != v[v.len() - 1]@);
                }
            }
        }
    }
}

impl View for SwitcherState {
    type V = SwitcherView;

    closed spec fn view(&self) -> SwitcherView {
        SwitcherView {
            entries: self.entries@,
            matches: self.matches@,
            selected: self.selected_index,
            previous_query: self.previous_query@,
            enabled: self.enabled_statuses@,
            disabled: string_set(self.disabled_agents@),
        }
    }
}

impl SwitcherState {
    /// The representation invariant: no status enabled twice and no agent
    /// disabled twice.
    pub closed spec fn wf(&self) -> bool {
        &&& distinct_statuses(self.enabled_statuses@)
        &&& distinct_strings(self.disabled_agents@)
    }

    /// Under the invariant no status is enabled twice, as
    /// `lemma_toggle_status_twice` asks.
    pub proof fn lemma_wf_enabled_distinct(&self)
        requires
            self.wf(),
        ensures
            forall|i: int, j: int|
                0 <= i < j < self@.enabled.len() ==> self@.enabled[i] != self@.enabled[j],
    {
    }

    /// An empty list with every status enabled and no agent disabled.
    pub fn new() -> (res: Self)
        ensures
            res.wf(),
            res@.entries.len() == 0,
            res@.matches.len() == 0,
            res@.selected == 0,
            res@.previous_query.len() == 0,
            res@.enabled == all_statuses_seq(),
            res@.disabled == Set::<Seq<char>>::empty(),
    {
        let res = SwitcherState {
            entries: Vec::new(),
            matches: Vec::new(),
            selected_index: 0,
            previous_query: String::new(),
            enabled_statuses: all_statuses(),
            disabled_agents: Vec::new(),
        };
        assert(string_set(res.disabled_agents@) =~= Set::<Seq<char>>::empty());
        res
    }

    /// Whether `agent` is among the disabled agents.
    pub fn agent_disabled(&self, agent: &String) -> (res: bool)
        ensures
            res == self@.disabled.contains(agent@),
    {
        let mut i: usize = 0;
        while i < self.disabled_agents.len()
            invariant
                0 <= i <= self.disabled_agents@.len(),
                forall|j: int| 0 <= j < i ==> self.disabled_agents@[j]@ != agent@,
            decreases self.disabled_agents.len() - i,
        {
            if self.disabled_agents[i] == *agent {
                return true;
            }
            i = i + 1;
        }
        false
    }

    /// Whether `status` is among the enabled statuses.
    pub fn status_enabled(&self, status: AgentThreadStatus) -> (res: bool)
        ensures
            res == self@.enabled.contains(status),
    {
        let mut i: usize = 0;
        while i < self.enabled_statuses.len()
            invariant
                0 <= i <= self.enabled_statuses@.len(),
                forall|j: int| 0 <= j < i ==> self.enabled_statuses@[j] != status,
            decreases self.enabled_statuses.len() - i,
        {
            if self.enabled_statuses[i] == status {
                assert(self.enabled_statuses@[i as int] == status);
                return true;
            }
            i = i + 1;
        }
        false
    }

    fn passes(&self, e: &SwitcherEntry) -> (res: bool)
        ensures
            res == passes_filters(self@.enabled, self@.disabled, *e),
    {
        let not_archived = match &e.thread {
            Some(t) => !t.archived,
            None => true,
        };
        let n = self.enabled_statuses.len();
        let status_ok = n == 0 || n >= STATUS_COUNT || self.status_enabled(e.status);
        let agent_ok = match &e.thread {
            Some(t) => !self.agent_disabled(&t.agent_id),
            None => true,
        };
        not_archived && status_ok && agent_ok
    }

    /// Keeps the entries that survive the filters, in order.
    pub fn apply_filters(&self, entries: &mut Vec<SwitcherEntry>)
        ensures
            final(entries)@ == kept(old(entries)@, self@.enabled, self@.disabled),
    {
        let ghost orig = entries@;
        let total = entries.len();
        let mut out: Vec<SwitcherEntry> = Vec::new();
        let mut i: usize = 0;
        while entries.len() > 0
            invariant
                i + entries@.len() == total,
                total == orig.len(),
                entries@ == orig.skip(i as int),
                out@ == kept(orig.take(i as int), self@.enabled, self@.disabled),
            decreases entries.len(),
        {
            let e = entries.remove(0);
            assert(e == orig[i as int]);
            assert(orig.take(i + 1).drop_last() =~= orig.take(i as int));
            assert(orig.take(i + 1).last() == e);
            if self.passes(&e) {
                out.push(e);
            }
            assert(entries@ =~= orig.skip(i + 1));
            i = i + 1;
        }
        assert(orig.take(i as int) =~= orig);
        *entries = out;
    }

    /// The element id of the selected row.
    pub fn selected_element_id(&self) -> (res: Option<String>)
        ensures
            match res {
                Some(s) => self@.selected_id() == Some(s@),
                None => self@.selected_id() is None,
            },
    {
        if self.selected_index < self.matches.len() {
            let idx = self.matches[self.selected_index].entry_index;
            if idx < self.entries.len() {
                return Some(self.entries[idx].element_id.clone());
            }
        }
        None
    }

    fn index_of_id(entries: &Vec<SwitcherEntry>, matches: &Vec<ThreadMatch>, id: &String) -> (res: Option<usize>)
        ensures
            match res {
                Some(i) => position_of_id(entries@, matches@, id@) == Some(i as int),
                None => position_of_id(entries@, matches@, id@) is None,
            },
    {
        let mut i: usize = 0;
        while i < matches.len()
            invariant
                0 <= i <= matches@.len(),
                forall|j: int| 0 <= j < i ==> id_at(entries@, matches@, j) != Some(id@),
            decreases matches.len() - i,
        {
            let idx = matches[i].entry_index;
            if idx < entries.len() && entries[idx].element_id == *id {
                proof {
                    assert(first_with_id(entries@, matches@, id@, i as int));
                    let k = choose|k: int| first_with_id(entries@, matches@, id@, k);
                    if k < i {
                        assert(id_at(entries@, matches@, k) != Some(id@));
                    } else if i < k {
                        assert(id_at(entries@, matches@, i as int) != Some(id@));
                    }
                }
                return Some(i);
            }
            i = i + 1;
        }
        proof {
            if exists|k: int| first_with_id(entries@, matches@, id@, k) {
                let k = choose|k: int| first_with_id(entries@, matches@, id@, k);
                assert(id_at(entries@, matches@, k) != Some(id@));
            }
        }
        None
    }

    /// The first row showing the element `id`.
    pub fn find_index_by_element_id(&self, id: &String) -> (res: Option<usize>)
        ensures
            match res {
                Some(i) => position_of_id(self@.entries, self@.matches, id@) == Some(i as int),
                None => position_of_id(self@.entries, self@.matches, id@) is None,
            },
    {
        Self::index_of_id(&self.entries, &self.matches, id)
    }

    fn restore(entries: &Vec<SwitcherEntry>, matches: &Vec<ThreadMatch>, id: Option<String>) -> (res: usize)
        ensures
            res as int == restored_selection(
                entries@,
                matches@,
                match id {
                    Some(s) => Some(s@),
                    None => None,
                },
            ),
    {
        match id {
            Some(s) => match Self::index_of_id(entries, matches, &s) {
                Some(i) => i,
                None => 0,
            },
            None => 0,
        }
    }

    /// Replaces the list with the sidebar's current entries: filters them,
    /// lists notified ones first, shows every entry, and keeps the previously
    /// selected element selected when it is still listed.
    pub fn reload(&mut self, entries: Vec<SwitcherEntry>)
        requires
            old(self).wf(),
        ensures
            final(self).wf(),
            final(self)@.entries == notified_first(
                kept(entries@, old(self)@.enabled, old(self)@.disabled),
            ),
            final(self)@.matches.len() == final(self)@.entries.len(),
            forall|i: int|
                0 <= i < final(self)@.matches.len() ==> is_plain_match(
                    #[trigger] final(self)@.matches[i],
                    i,
                ),
            final(self)@.selected as int == restored_selection(
                final(self)@.entries,
                final(self)@.matches,
                old(self)@.selected_id(),
            ),
            final(self)@.previous_query == old(self)@.previous_query,
            final(self)@.enabled == old(self)@.enabled,
            final(self)@.disabled == old(self)@.disabled,
    {
        let previous = self.selected_element_id();
        let mut entries = entries;
        self.apply_filters(&mut entries);
        let ordered = order_notified_first(entries);
        let matches = default_matches(ordered.len());
        let selected = Self::restore(&ordered, &matches, previous);
        self.entries = ordered;
        self.matches = matches;
        self.selected_index = selected;
    }

    /// The entry of the selected row.
    pub fn selected_entry(&self) -> (res: Option<&SwitcherEntry>)
        ensures
            match res {
                Some(e) => {
                    &&& self@.selected < self@.matches.len()
                    &&& self@.matches[self@.selected as int].entry_index < self@.entries.len()
                    &&& *e == self@.entries[self@.matches[self@.selected as int].entry_index as int]
                },
                None => self@.selected_id() is None,
            },
    {
        if self.selected_index < self.matches.len() {
            let idx = self.matches[self.selected_index].entry_index;
            if idx < self.entries.len() {
                return Some(&self.entries[idx]);
            }
        }
        None
    }

    /// The entry at `index` of the list.
    pub fn entry(&self, index: usize) -> (res: Option<&SwitcherEntry>)
        ensures
            match res {
                Some(e) => index < self@.entries.len() && *e == self@.entries[index as int],
                None => index >= self@.entries.len(),
            },
    {
        if index < self.entries.len() {
            Some(&self.entries[index])
        } else {
            None
        }
    }

    /// The row at position `index`.
    pub fn match_at(&self, index: usize) -> (res: Option<&ThreadMatch>)
        ensures
            match res {
                Some(m) => index < self@.matches.len() && *m == self@.matches[index as int],
                None => index >= self@.matches.len(),
            },
    {
        if index < self.matches.len() {
            Some(&self.matches[index])
        } else {
            None
        }
    }

    /// How many rows are shown.
    pub fn match_count(&self) -> (res: usize)
        ensures
            res == self@.matches.len(),
    {
        self.matches.len()
    }

    /// How many entries are listed.
    pub fn entry_count(&self) -> (res: usize)
        ensures
            res == self@.entries.len(),
    {
        self.entries.len()
    }

    /// The position of the selected row.
    pub fn selected_index(&self) -> (res: usize)
        ensures
            res == self@.selected,
    {
        self.selected_index
    }

    /// Selects the row at `index`.
    pub fn set_selected_index(&mut self, index: usize)
        requires
            old(self).wf(),
        ensures
            final(self).wf(),
            final(self)@ == (SwitcherView { selected: index, ..old(self)@ }),
    {
        self.selected_index = index;
    }

    /// Records a new query and says whether it differs from the previous one.
    pub fn begin_query(&mut self, query: &str) -> (changed: bool)
        requires
            old(self).wf(),
        ensures
            final(self).wf(),
            changed == (query@ != old(self)@.previous_query),
            final(self)@ == (SwitcherView { previous_query: query@, ..old(self)@ }),
    {
        let query = query.to_owned();
        let changed = !(query == self.previous_query);
        self.previous_query = query;
        changed
    }

    /// Shows the rows a query produced. The selected element stays selected
    /// when the query did not change and the element is still shown;
    /// otherwise the top row is selected.
    pub fn finish_query(&mut self, matches: Vec<ThreadMatch>, query_changed: bool)
        requires
            old(self).wf(),
        ensures
            final(self).wf(),
            final(self)@.matches == matches@,
            final(self)@.selected as int == restored_selection(
                old(self)@.entries,
                matches@,
                if query_changed {
                    None
                } else {
                    old(self)@.selected_id()
                },
            ),
            final(self)@.entries == old(self)@.entries,
            final(self)@.previous_query == old(self)@.previous_query,
            final(self)@.enabled == old(self)@.enabled,
            final(self)@.disabled == old(self)@.disabled,
    {
        let preserve = if query_changed {
            None
        } else {
            self.selected_element_id()
        };
        let selected = Self::restore(&self.entries, &matches, preserve);
        self.matches = matches;
        self.selected_index = selected;
    }

    fn status_position(&self, status: AgentThreadStatus) -> (res: Option<usize>)
        ensures
            match res {
                Some(i) => first_status_index(self@.enabled, status, i as int),
                None => !self@.enabled.contains(status),
            },
    {
        let mut i: usize = 0;
        while i < self.enabled_statuses.len()
            invariant
                0 <= i <= self.enabled_statuses@.len(),
                forall|j: int| 0 <= j < i ==> self.enabled_statuses@[j] != status,
            decreases self.enabled_statuses.len() - i,
        {
            if self.enabled_statuses[i] == status {
                return Some(i);
            }
            i = i + 1;
        }
        None
    }

    fn agent_position(&self, agent: &String) -> (res: Option<usize>)
        ensures
            match res {
                Some(i) => i < self.disabled_agents@.len() && self.disabled_agents@[i as int]@
                    == agent@,
                None => !self@.disabled.contains(agent@),
            },
    {
        let mut i: usize = 0;
        while i < self.disabled_agents.len()
            invariant
                0 <= i <= self.disabled_agents@.len(),
                forall|j: int| 0 <= j < i ==> self.disabled_agents@[j]@ != agent@,
            decreases self.disabled_agents.len() - i,
        {
            if self.disabled_agents[i] == *agent {
                return Some(i);
            }
            i = i + 1;
        }
        None
    }

    /// Turns the filter for `status` on or off.
    pub fn toggle_status(&mut self, status: AgentThreadStatus)
        requires
            old(self).wf(),
        ensures
            final(self).wf(),
            final(self)@ == (SwitcherView {
                enabled: toggled_statuses(old(self)@.enabled, status),
                ..old(self)@
            }),
    {
        let ghost before = self.enabled_statuses@;
        match self.status_position(status) {
            Some(i) => {
                proof {
                    assert(before.contains(status));
                    let k = choose|k: int| first_status_index(before, status, k);
                    if k < i {
                        assert(before[k] != status);
                    } else if i < k {
                        assert(before[i as int] != status);
                    }
                }
                self.enabled_statuses.remove(i);
                proof {
                    let after = self.enabled_statuses@;
                    assert forall|a: int, b: int| 0 <= a < b < after.len() implies after[a] != after[b] by {
                        let a2 = if a < i { a } else { a + 1 };
                        let b2 = if b < i { b } else { b + 1 };
                        assert(after[a] == before[a2]);
                        assert(after[b] == before[b2]);
                    }
                }
            },
            None => {
                self.enabled_statuses.push(status);
                proof {
                    let after = self.enabled_statuses@;
                    assert forall|a: int, b: int| 0 <= a < b < after.len() implies after[a] != after[b] by {
                        if b == after.len() - 1 {
                            assert(before[a] == after[a]);
                        }
                    }
                }
            },
        }
    }

    /// Turns the filter for `agent` on or off.
    pub fn toggle_agent(&mut self, agent: String)
        requires
            old(self).wf(),
        ensures
            final(self).wf(),
            final(self)@ == (SwitcherView {
                disabled: toggled_agents(old(self)@.disabled, agent@),
                ..old(self)@
            }),
    {
        let ghost before = self.disabled_agents@;
        match self.agent_position(&agent) {
            Some(i) => {
                self.disabled_agents.remove(i);
                proof {
                    let after = self.disabled_agents@;
                    assert forall|x: Seq<char>| string_set(after).contains(x) == string_set(before).remove(agent@).contains(x) by {
                        if string_set(after).contains(x) {
                            let k = choose|k: int| 0 <= k < after.len() && after[k]@ == x;
                            if k < i {
                                assert(before[k]@ == x);
                                assert(before[k]@ != before[i as int]@);
                            } else {
                                assert(before[k + 1]@ == x);
                                assert(before[k + 1]@ != before[i as int]@);
                            }
                        }
                        if string_set(before).remove(agent@).contains(x) {
                            let k = choose|k: int| 0 <= k < before.len() && before[k]@ == x;
                            if k < i {
                                assert(after[k]@ == x);
                            } else if k > i {
                                assert(after[k - 1]@ == x);
                            }
                        }
                    }
                    assert(string_set(after) =~= string_set(before).remove(agent@));
                    assert(string_set(before).contains(agent@));
                    assert forall|a: int, b: int| 0 <= a < b < after.len() implies after[a]@ != after[b]@ by {
                        let a2 = if a < i { a } else { a + 1 };
                        let b2 = if b < i { b } else { b + 1 };
                        assert(after[a] == before[a2]);
                        assert(after[b] == before[b2]);
                    }
                }
            },
            None => {
                self.disabled_agents.push(agent);
                proof {
                    let after = self.disabled_agents@;
                    assert forall|x: Seq<char>| string_set(after).contains(x) == string_set(before).insert(agent@).contains(x) by {
                        if string_set(after).contains(x) {
                            let k = choose|k: int| 0 <= k < after.len() && after[k]@ == x;
                            if k < before.len() {
                                assert(before[k]@ == x);
                            }
                        }
                        if string_set(before).insert(agent@).contains(x) {
                            if x == agent@ {
                                assert(after[before.len() as int]@ == x);
                            } else {
                                let k = choose|k: int| 0 <= k < before.len() && before[k]@ == x;
                                assert(after[k]@ == x);
                            }
                        }
                    }
                    assert(string_set(after) =~= string_set(before).insert(agent@));
                    assert forall|a: int, b: int| 0 <= a < b < after.len() implies after[a]@ != after[b]@ by {
                        if b == after.len() - 1 {
                            assert(before[a]@ != agent@) by {
                                assert(string_set(before).contains(before[a]@));
                            }
                        }
                    }
                }
            },
        }
    }

    /// Whether some filter hides entries.
    pub fn any_filter_active(&self) -> (res: bool)
        requires
            self.wf(),
        ensures
            res == self@.any_filter_active(),
    {
        proof {
            lemma_string_set_finite(self.disabled_agents@);
        }
        self.enabled_statuses.len() < STATUS_COUNT || self.disabled_agents.len() > 0
    }
}

/// Lists notified entries first, keeping the order within each group.
pub fn order_notified_first(entries: Vec<SwitcherEntry>) -> (res: Vec<SwitcherEntry>)
    ensures
        res@ == notified_first(entries@),
{
    let ghost orig = entries@;
    let mut entries = entries;
    let total = entries.len();
    let mut first: Vec<SwitcherEntry> = Vec::new();
    let mut second: Vec<SwitcherEntry> = Vec::new();
    let mut i: usize = 0;
    while entries.len() > 0
        invariant
            i + entries@.len() == total,
            total == orig.len(),
            entries@ == orig.skip(i as int),
            first@ == with_notified(orig.take(i as int), true),
            second@ == with_notified(orig.take(i as int), false),
        decreases entries.len(),
    {
        let e = entries.remove(0);
        assert(e == orig[i as int]);
        assert(orig.take(i + 1).drop_last() =~= orig.take(i as int));
        assert(orig.take(i + 1).last() == e);
        if e.notified {
            first.push(e);
        } else {
            second.push(e);
        }
        assert(entries@ =~= orig.skip(i + 1));
        i = i + 1;
    }
    assert(orig.take(i as int) =~= orig);
    first.append(&mut second);
    first
}

/// Adds `a` to a strictly sorted list unless it is already there.
fn insert_sorted(out: &mut Vec<String>, a: String)
    requires
        strictly_sorted(views_of(old(out)@)),
    ensures
        strictly_sorted(views_of(final(out)@)),
        forall|x: Seq<char>|
            views_of(final(out)@).contains(x) <==> (views_of(old(out)@).contains(x) || x == a@),
{
    let ghost before = views_of(out@);
    let mut p: usize = 0;
    while p < out.len() && str_lt(out[p].as_str(), a.as_str())
        invariant
            0 <= p <= out@.len(),
            before == views_of(out@),
            forall|j: int| 0 <= j < p ==> chars_lt(before[j], a@),
        decreases out.len() - p,
    {
        p = p + 1;
    }
    if p < out.len() && out[p] == a {
        assert(before[p as int] == a@);
        return;
    }
    proof {
        if p < before.len() {
            lemma_chars_lt_total(before[p as int], a@);
        }
    }
    out.insert(p, a);
    proof {
        let after = views_of(out@);
        assert(after =~= before.insert(p as int, a@));
        assert forall|i: int, j: int| 0 <= i < j < after.len() implies chars_lt(after[i], after[j]) by {
            if j < p {
            } else if j == p {
            } else if i < p {
                assert(chars_lt(before[i], a@));
                assert(chars_lt(a@, before[p as int]));
                if j - 1 > p {
                    lemma_chars_lt_transitive(a@, before[p as int], before[j - 1]);
                }
                lemma_chars_lt_transitive(before[i], a@, before[j - 1]);
            } else if i == p {
                if j - 1 > p {
                    lemma_chars_lt_transitive(a@, before[p as int], before[j - 1]);
                }
            } else {
            }
        }
        assert forall|x: Seq<char>| after.contains(x) <==> (before.contains(x) || x == a@) by {
            if after.contains(x) {
                let k = choose|k: int| 0 <= k < after.len() && after[k] == x;
                if k < p {
                    assert(before[k] == x);
                } else if k > p {
                    assert(before[k - 1] == x);
                }
            }
            if before.contains(x) {
                let k = choose|k: int| 0 <= k < before.len() && before[k] == x;
                if k < p {
                    assert(after[k] == x);
                } else {
                    assert(after[k + 1] == x);
                }
            }
            if x == a@ {
                assert(after[p as int] == x);
            }
        }
    }
}

impl SwitcherState {
    /// The agents of the listed threads, each once, in string order.
    pub fn distinct_agents(&self) -> (res: Vec<String>)
        ensures
            strictly_sorted(views_of(res@)),
            forall|a: Seq<char>| views_of(res@).contains(a) <==> agents_of(self@.entries).contains(a),
    {
        let mut out: Vec<String> = Vec::new();
        let mut i: usize = 0;
        while i < self.entries.len()
            invariant
                0 <= i <= self.entries@.len(),
                strictly_sorted(views_of(out@)),
                forall|a: Seq<char>|
                    views_of(out@).contains(a) <==> agents_of(self.entries@.take(i as int)).contains(a),
            decreases self.entries.len() - i,
        {
            let ghost prev = self.entries@.take(i as int);
            let ghost next = self.entries@.take(i + 1);
            assert forall|k: int| 0 <= k < i implies agent_at(next, k) == agent_at(prev, k) by {
                assert(next[k] == prev[k]);
            }
            match &self.entries[i].thread {
                Some(t) => {
                    insert_sorted(&mut out, t.agent_id.clone());
                    assert(agent_at(next, i as int) == Some(t.agent_id@));
                    assert forall|a: Seq<char>| views_of(out@).contains(a) <==> agents_of(next).contains(a) by {
                        if agents_of(next).contains(a) {
                            let k = choose|k: int| 0 <= k < next.len() && agent_at(next, k) == Some(a);
                            if k < i {
                                assert(agents_of(prev).contains(a));
                            }
                        }
                        if agents_of(prev).contains(a) {
                            let k = choose|k: int| 0 <= k < prev.len() && agent_at(prev, k) == Some(a);
                            assert(agent_at(next, k) == Some(a));
                        }
                    }
                },
                None => {
                    assert(agent_at(next, i as int) is None);
                    assert forall|a: Seq<char>| views_of(out@).contains(a) <==> agents_of(next).contains(a) by {
                        if agents_of(next).contains(a) {
                            let k = choose|k: int| 0 <= k < next.len() && agent_at(next, k) == Some(a);
                            assert(agents_of(prev).contains(a));
                        }
                        if agents_of(prev).contains(a) {
                            let k = choose|k: int| 0 <= k < prev.len() && agent_at(prev, k) == Some(a);
                            assert(agent_at(next, k) == Some(a));
                        }
                    }
                },
            }
            i = i + 1;
        }
        assert(self.entries@.take(i as int) =~= self.entries@);
        out
    }
}

/// One fuzzy match of a search field: the entry it hit and the highlighted
/// character positions.
pub struct FieldMatch {
    pub candidate_id: usize,
    pub positions: Vec<usize>,
}

/// The entries some match in `ms` hits.
pub open spec fn ids_in(ms: Seq<FieldMatch>) -> Set<usize> {
    Set::new(|id: usize| exists|k: int| 0 <= k < ms.len() && #[trigger] ms[k].candidate_id == id)
}

/// The positions of the last match for `id` in `ms`, or none.
pub open spec fn last_positions(ms: Seq<FieldMatch>, id: usize) -> Seq<usize>
    decreases ms.len(),
{
    if ms.len() == 0 {
        seq![]
    } else if ms.last().candidate_id == id {
        ms.last().positions@
    } else {
        last_positions(ms.drop_last(), id)
    }
}

pub open spec fn strictly_increasing(s: Seq<usize>) -> bool {
    forall|i: int, j: int| 0 <= i < j < s.len() ==> s[i] < s[j]
}

pub open spec fn entry_indices(ms: Seq<ThreadMatch>) -> Seq<usize> {
    ms.map_values(|m: ThreadMatch| m.entry_index)
}

/// Adds `x` to a strictly increasing list unless it is already there.
fn insert_index(out: &mut Vec<usize>, x: usize)
    requires
        strictly_increasing(old(out)@),
    ensures
        strictly_increasing(final(out)@),
        forall|y: usize| final(out)@.contains(y) <==> (old(out)@.contains(y) || y == x),
{
    let ghost before = out@;
    let mut p: usize = 0;
    while p < out.len() && out[p] < x
        invariant
            0 <= p <= out@.len(),
            before == out@,
            forall|j: int| 0 <= j < p ==> before[j] < x,
        decreases out.len() - p,
    {
        p = p + 1;
    }
    if p < out.len() && out[p] == x {
        assert(before[p as int] == x);
        return;
    }
    out.insert(p, x);
    proof {
        let after = out@;
        assert forall|y: usize| after.contains(y) <==> (before.contains(y) || y == x) by {
            if after.contains(y) {
                let k = choose|k: int| 0 <= k < after.len() && after[k] == y;
                if k < p {
                    assert(before[k] == y);
                } else if k > p {
                    assert(before[k - 1] == y);
                }
            }
            if before.contains(y) {
                let k = choose|k: int| 0 <= k < before.len() && before[k] == y;
                if k < p {
                    assert(after[k] == y);
                } else {
                    assert(after[k + 1] == y);
                }
            }
            if y == x {
                assert(after[p as int] == y);
            }
        }
    }
}

proof fn lemma_ids_in_step(ms: Seq<FieldMatch>, i: int)
    requires
        0 <= i < ms.len(),
    ensures
        forall|y: usize|
            #[trigger] ids_in(ms.take(i + 1)).contains(y) <==> (ids_in(ms.take(i)).contains(y) || y
                == ms[i].candidate_id),
{
    assert forall|y: usize|
        #[trigger] ids_in(ms.take(i + 1)).contains(y) <==> (ids_in(ms.take(i)).contains(y) || y
            == ms[i].candidate_id) by {
        let a = ms.take(i + 1);
        let b = ms.take(i);
        if ids_in(a).contains(y) {
            let k = choose|k: int| 0 <= k < a.len() && #[trigger] a[k].candidate_id == y;
            if k < i {
                assert(b[k].candidate_id == y);
            }
        }
        if ids_in(b).contains(y) {
            let k = choose|k: int| 0 <= k < b.len() && #[trigger] b[k].candidate_id == y;
            assert(a[k].candidate_id == y);
        }
        if y == ms[i].candidate_id {
            assert(a[i].candidate_id == y);
        }
    }
}

spec fn covers(out: Seq<usize>, start: Seq<usize>, ms: Seq<FieldMatch>) -> bool {
    forall|y: usize| #[trigger] out.contains(y) <==> (start.contains(y) || ids_in(ms).contains(y))
}

fn add_ids(ids: Vec<usize>, ms: &Vec<FieldMatch>) -> (res: Vec<usize>)
    requires
        strictly_increasing(ids@),
    ensures
        strictly_increasing(res@),
        forall|y: usize| res@.contains(y) <==> (ids@.contains(y) || ids_in(ms@).contains(y)),
{
    let ghost start = ids@;
    let mut out = ids;
    let mut i: usize = 0;
    assert forall|y: usize| !ids_in(ms@.take(0)).contains(y) by {}
    while i < ms.len()
        invariant
            0 <= i <= ms@.len(),
            strictly_increasing(out@),
            covers(out@, start, ms@.take(i as int)),
        decreases ms.len() - i,
    {
        proof {
            lemma_ids_in_step(ms@, i as int);
        }
        let ghost prev = out@;
        let ghost old_i = i as int;
        insert_index(&mut out, ms[i].candidate_id);
        i = i + 1;
        assert forall|y: usize| #[trigger] out@.contains(y) <==> (start.contains(y) || ids_in(ms@.take(i as int)).contains(y)) by {
            assert(prev.contains(y) <==> (start.contains(y) || ids_in(ms@.take(old_i)).contains(y)));
            assert(ids_in(ms@.take(old_i + 1)).contains(y) <==> (ids_in(ms@.take(old_i)).contains(y) || y == ms@[old_i].candidate_id));
        }
    }
    assert(ms@.take(i as int) =~= ms@);
    assert forall|y: usize| out@.contains(y) <==> (start.contains(y) || ids_in(ms@).contains(y)) by {
        assert(out@.contains(y) <==> (start.contains(y) || ids_in(ms@.take(i as int)).contains(y)));
    }
    out
}

/// The positions of the last match for `id`.
fn positions_for(ms: &Vec<FieldMatch>, id: usize) -> (res: Vec<usize>)
    ensures
        res@ == last_positions(ms@, id),
{
    let mut k = ms.len();
    assert(ms@.take(k as int) =~= ms@);
    while k > 0
        invariant
            0 <= k <= ms@.len(),
            last_positions(ms@, id) == last_positions(ms@.take(k as int), id),
        decreases k,
    {
        assert(ms@.take(k as int).drop_last() =~= ms@.take(k - 1));
        assert(ms@.take(k as int).last() == ms@[k - 1]);
        if ms[k - 1].candidate_id == id {
            let res = ms[k - 1].positions.clone();
            assert(res@ =~= ms@[k - 1].positions@);
            return res;
        }
        k = k - 1;
    }
    assert(ms@.take(0) =~= Seq::<FieldMatch>::empty());
    Vec::new()
}

/// Groups the matches of the three searches by entry: one row per entry hit
/// by any of them, in entry order, carrying the highlighted positions of the
/// entry's last title match and last worktree match. (Branch matches only
/// bring an entry in; ranking the rows by score is left to the caller.)
pub fn merge_field_matches(
    title: &Vec<FieldMatch>,
    worktree: &Vec<FieldMatch>,
    branch: &Vec<usize>,
) -> (res: Vec<ThreadMatch>)
    ensures
        strictly_increasing(entry_indices(res@)),
        forall|id: usize|
            entry_indices(res@).contains(id) <==> (ids_in(title@).contains(id) || ids_in(
                worktree@,
            ).contains(id) || branch@.contains(id)),
        forall|k: int|
            0 <= k < res@.len() ==> (#[trigger] res@[k]).title_positions@ == last_positions(
                title@,
                res@[k].entry_index,
            ) && res@[k].worktree_positions@ == last_positions(worktree@, res@[k].entry_index),
{
    let ids = add_ids(Vec::new(), title);
    let mut ids = add_ids(ids, worktree);
    let mut i: usize = 0;
    while i < branch.len()
        invariant
            0 <= i <= branch@.len(),
            strictly_increasing(ids@),
            forall|y: usize| ids@.contains(y) <==> (ids_in(title@).contains(y) || ids_in(worktree@).contains(y) || branch@.take(i as int).contains(y)),
        decreases branch.len() - i,
    {
        assert forall|y: usize| #[trigger] branch@.take(i + 1).contains(y) <==> (branch@.take(i as int).contains(y) || y == branch@[i as int]) by {
            let a = branch@.take(i + 1);
            let b = branch@.take(i as int);
            if a.contains(y) {
                let k = choose|k: int| 0 <= k < a.len() && a[k] == y;
                if k < i {
                    assert(b[k] == y);
                }
            }
            if b.contains(y) {
                let k = choose|k: int| 0 <= k < b.len() && b[k] == y;
                assert(a[k] == y);
            }
            if y == branch@[i as int] {
                assert(a[i as int] == y);
            }
        }
        insert_index(&mut ids, branch[i]);
        i = i + 1;
    }
    assert(branch@.take(i as int) =~= branch@);
    let mut out: Vec<ThreadMatch> = Vec::new();
    let mut j: usize = 0;
    while j < ids.len()
        invariant
            0 <= j <= ids@.len(),
            out@.len() == j,
            forall|k: int| 0 <= k < j ==> (#[trigger] out@[k]).entry_index == ids@[k],
            forall|k: int|
                0 <= k < j ==> (#[trigger] out@[k]).title_positions@ == last_positions(
                    title@,
                    out@[k].entry_index,
                ) && out@[k].worktree_positions@ == last_positions(worktree@, out@[k].entry_index),
        decreases ids.len() - j,
    {
        let id = ids[j];
        out.push(ThreadMatch {
            entry_index: id,
            title_positions: positions_for(title, id),
            worktree_positions: positions_for(worktree, id),
        });
        j = j + 1;
    }
    assert(entry_indices(out@) =~= ids@);
    out
}

proof fn lemma_kept_members(
    es: Seq<SwitcherEntry>,
    enabled: Seq<AgentThreadStatus>,
    disabled: Set<Seq<char>>,
    e: SwitcherEntry,
)
    ensures
        kept(es, enabled, disabled).contains(e) <==> (es.contains(e) && passes_filters(
            enabled,
            disabled,
            e,
        )),
    decreases es.len(),
{
    if es.len() > 0 {
        let init = es.drop_last();
        lemma_kept_members(init, enabled, disabled, e);
        let rest = kept(init, enabled, disabled);
        let all = kept(es, enabled, disabled);
        if es.contains(e) && passes_filters(enabled, disabled, e) {
            let i = choose|i: int| 0 <= i < es.len() && es[i] == e;
            if i < es.len() - 1 {
                assert(init[i] == e);
                let k = choose|k: int| 0 <= k < rest.len() && rest[k] == e;
                assert(all[k] == e);
            } else {
                assert(all[all.len() - 1] == e);
            }
        }
        if all.contains(e) {
            let i = choose|i: int| 0 <= i < all.len() && all[i] == e;
            if passes_filters(enabled, disabled, es.last()) && i == rest.len() {
                assert(es[es.len() - 1] == e);
            } else {
                assert(rest[i] == e);
                let k = choose|k: int| 0 <= k < init.len() && init[k] == e;
                assert(es[k] == e);
            }
        }
    }
}

proof fn lemma_with_notified(es: Seq<SwitcherEntry>, flag: bool, e: SwitcherEntry)
    ensures
        with_notified(es, flag).contains(e) <==> (es.contains(e) && e.notified == flag),
        forall|i: int|
            0 <= i < with_notified(es, flag).len() ==> (#[trigger] with_notified(es, flag)[i]).notified
                == flag,
        with_notified(es, true).len() + with_notified(es, false).len() == es.len(),
    decreases es.len(),
{
    if es.len() > 0 {
        let init = es.drop_last();
        lemma_with_notified(init, flag, e);
        let rest = with_notified(init, flag);
        let all = with_notified(es, flag);
        if es.contains(e) && e.notified == flag {
            let i = choose|i: int| 0 <= i < es.len() && es[i] == e;
            if i < es.len() - 1 {
                assert(init[i] == e);
                let k = choose|k: int| 0 <= k < rest.len() && rest[k] == e;
                assert(all[k] == e);
            } else {
                assert(all[all.len() - 1] == e);
            }
        }
        if all.contains(e) {
            let i = choose|i: int| 0 <= i < all.len() && all[i] == e;
            if es.last().notified == flag && i == rest.len() {
                assert(es[es.len() - 1] == e);
            } else {
                assert(rest[i] == e);
                let k = choose|k: int| 0 <= k < init.len() && init[k] == e;
                assert(es[k] == e);
            }
        }
    }
}

/// A reload lists exactly the offered entries that survive the filters
/// (so never an archived thread), each survivor as often as it was offered
/// in total, with every notified entry above every other one.
pub proof fn lemma_reload_lists_survivors(
    es: Seq<SwitcherEntry>,
    enabled: Seq<AgentThreadStatus>,
    disabled: Set<Seq<char>>,
)
    ensures
        forall|e: SwitcherEntry|
            #[trigger] notified_first(kept(es, enabled, disabled)).contains(e) <==> (es.contains(e)
                && passes_filters(enabled, disabled, e)),
        forall|e: SwitcherEntry|
            #[trigger] notified_first(kept(es, enabled, disabled)).contains(e) ==> !(e.thread matches Some(
                t,
            ) && t.archived),
        notified_first(kept(es, enabled, disabled)).len() == kept(es, enabled, disabled).len(),
        forall|i: int, j: int|
            0 <= i < j < notified_first(kept(es, enabled, disabled)).len() && (
            #[trigger] notified_first(kept(es, enabled, disabled))[j]).notified ==> (
            #[trigger] notified_first(kept(es, enabled, disabled))[i]).notified,
{
    let k = kept(es, enabled, disabled);
    let r = notified_first(k);
    let a = with_notified(k, true);
    let b = with_notified(k, false);
    assert forall|e: SwitcherEntry| #[trigger] r.contains(e) <==> (es.contains(e) && passes_filters(enabled, disabled, e)) by {
        lemma_with_notified(k, true, e);
        lemma_with_notified(k, false, e);
        lemma_kept_members(es, enabled, disabled, e);
        if r.contains(e) {
            let i = choose|i: int| 0 <= i < r.len() && r[i] == e;
            if i < a.len() {
                assert(a[i] == e);
            } else {
                assert(b[i - a.len()] == e);
            }
        }
        if k.contains(e) {
            if e.notified {
                let i = choose|i: int| 0 <= i < a.len() && a[i] == e;
                assert(r[i] == e);
            } else {
                let i = choose|i: int| 0 <= i < b.len() && b[i] == e;
                assert(r[a.len() + i] == e);
            }
        }
    }
    assert forall|e: SwitcherEntry| #[trigger] r.contains(e) implies !(e.thread matches Some(t) && t.archived) by {
        assert(passes_filters(enabled, disabled, e));
    }
    let any = k.len() > 0;
    if any {
        lemma_with_notified(k, true, k[0]);
        lemma_with_notified(k, false, k[0]);
    } else {
        assert(a.len() == 0 && b.len() == 0);
    }
    assert forall|i: int, j: int| 0 <= i < j < r.len() && (#[trigger] r[j]).notified implies (#[trigger] r[i]).notified by {
        if any {
            lemma_with_notified(k, true, k[0]);
            lemma_with_notified(k, false, k[0]);
            if j >= a.len() {
                assert(r[j] == b[j - a.len()]);
            }
            assert(r[i] == a[i]);
        }
    }
}

/// The status filter of a reload: when some but not all four statuses are
/// enabled, every listed entry has an enabled status, and every offered
/// entry with an enabled status that is not an archived thread and not from
/// a disabled agent is listed; when no status, or four or more, are enabled,
/// the status hides nothing.
pub proof fn lemma_reload_status_filter(
    es: Seq<SwitcherEntry>,
    enabled: Seq<AgentThreadStatus>,
    disabled: Set<Seq<char>>,
    e: SwitcherEntry,
)
    ensures
        (0 < enabled.len() < 4 && notified_first(kept(es, enabled, disabled)).contains(e))
            ==> enabled.contains(e.status),
        (es.contains(e) && !(e.thread matches Some(t) && t.archived) && (e.thread matches Some(
            t,
        ) ==> !disabled.contains(t.agent_id@)) && (enabled.len() == 0 || enabled.len() >= 4
            || enabled.contains(e.status))) ==> notified_first(kept(es, enabled, disabled)).contains(
            e,
        ),
{
    lemma_reload_lists_survivors(es, enabled, disabled);
}

proof fn lemma_first_with_id_exists(entries: Seq<SwitcherEntry>, matches: Seq<ThreadMatch>, id: Seq<char>, i: int)
    requires
        0 <= i < matches.len(),
        id_at(entries, matches, i) == Some(id),
    ensures
        exists|k: int| first_with_id(entries, matches, id, k),
    decreases i,
{
    if exists|j: int| 0 <= j < i && id_at(entries, matches, j) == Some(id) {
        let j = choose|j: int| 0 <= j < i && id_at(entries, matches, j) == Some(id);
        lemma_first_with_id_exists(entries, matches, id, j);
    } else {
        assert(first_with_id(entries, matches, id, i));
    }
}

/// When the previously selected element is still shown, the restored
/// selection shows it; when it is not, the top row is selected.
pub proof fn lemma_selection_follows_element(
    entries: Seq<SwitcherEntry>,
    matches: Seq<ThreadMatch>,
    id: Seq<char>,
)
    ensures
        (exists|i: int| 0 <= i < matches.len() && id_at(entries, matches, i) == Some(id))
            ==> id_at(entries, matches, restored_selection(entries, matches, Some(id))) == Some(id),
        !(exists|i: int| 0 <= i < matches.len() && id_at(entries, matches, i) == Some(id))
            ==> restored_selection(entries, matches, Some(id)) == 0,
{
    if exists|i: int| 0 <= i < matches.len() && id_at(entries, matches, i) == Some(id) {
        let i = choose|i: int| 0 <= i < matches.len() && id_at(entries, matches, i) == Some(id);
        lemma_first_with_id_exists(entries, matches, id, i);
    }
}

/// Toggling an agent twice gives back the disabled set.
pub proof fn lemma_toggle_agent_twice(d: Set<Seq<char>>, a: Seq<char>)
    ensures
        toggled_agents(toggled_agents(d, a), a) == d,
{
    if d.contains(a) {
        assert(d.remove(a).insert(a) =~= d);
    } else {
        assert(d.insert(a).remove(a) =~= d);
    }
}

proof fn lemma_first_status_exists(v: Seq<AgentThreadStatus>, s: AgentThreadStatus, k: int)
    requires
        0 <= k < v.len(),
        v[k] == s,
    ensures
        exists|i: int| first_status_index(v, s, i),
    decreases k,
{
    if exists|j: int| 0 <= j < k && v[j] == s {
        let j = choose|j: int| 0 <= j < k && v[j] == s;
        lemma_first_status_exists(v, s, j);
    } else {
        assert(first_status_index(v, s, k));
    }
}

/// Toggling a status twice enables the same statuses as before, and gives
/// back the very same list when the status was off.
pub proof fn lemma_toggle_status_twice(v: Seq<AgentThreadStatus>, s: AgentThreadStatus)
    requires
        forall|i: int, j: int| 0 <= i < j < v.len() ==> v[i] != v[j],
    ensures
        forall|x: AgentThreadStatus|
            #[trigger] toggled_statuses(toggled_statuses(v, s), s).contains(x) == v.contains(x),
        !v.contains(s) ==> toggled_statuses(toggled_statuses(v, s), s) == v,
{
    if v.contains(s) {
        let k0 = choose|k: int| 0 <= k < v.len() && v[k] == s;
        lemma_first_status_exists(v, s, k0);
        let i = choose|i: int| first_status_index(v, s, i);
        let once = v.remove(i);
        assert(!once.contains(s)) by {
            if once.contains(s) {
                let k = choose|k: int| 0 <= k < once.len() && once[k] == s;
                if k < i {
                    assert(v[k] == s);
                } else {
                    assert(v[k + 1] == s);
                }
            }
        }
        let twice = once.push(s);
        assert forall|x: AgentThreadStatus| #[trigger] twice.contains(x) == v.contains(x) by {
            if v.contains(x) {
                let k = choose|k: int| 0 <= k < v.len() && v[k] == x;
                if k < i {
                    assert(twice[k] == x);
                } else if k > i {
                    assert(twice[k - 1] == x);
                } else {
                    assert(twice[twice.len() - 1] == x);
                }
            }
            if twice.contains(x) {
                let k = choose|k: int| 0 <= k < twice.len() && twice[k] == x;
                if k == twice.len() - 1 {
                    assert(v[i] == x);
                } else if k < i {
                    assert(v[k] == x);
                } else {
                    assert(v[k + 1] == x);
                }
            }
        }
    } else {
        let once = v.push(s);
        assert(once.contains(s)) by {
            assert(once[once.len() - 1] == s);
        }
        let n = v.len() as int;
        assert(first_status_index(once, s, n));
        let i = choose|i: int| first_status_index(once, s, i);
        if i < n {
            assert(v[i] == s);
        }
        assert(i == n);
        assert(once.remove(n) =~= v);
    }
}

} // verus!
