//! What the pull-request indicator knows about each `(owner, repo, branch)`
//! triple, which triple is on screen, and which triples are due for a
//! refresh.
use vstd::prelude::*;

verus! {

/// How long a fetched result stays fresh: 90 seconds, in nanoseconds.
pub const REFRESH_INTERVAL_NANOS: i128 = 90_000_000_000;

/// A pull request as the chip shows it.
#[derive(Clone, Debug)]
pub struct PullRequestInfo {
    pub number: u64,
    pub title: String,
    pub html_url: String,
    /// One of `open`, `draft`, `merge_queue`, `merged`, `closed`.
    pub state: &'static str,
    /// When it was fetched, in nanoseconds since the UNIX epoch (negative
    /// before it).
    pub fetched_at: i128,
}

pub struct PullRequestInfoView {
    pub number: u64,
    pub title: Seq<char>,
    pub html_url: Seq<char>,
    pub state: Seq<char>,
    pub fetched_at: i128,
}

impl View for PullRequestInfo {
    type V = PullRequestInfoView;

    open spec fn view(&self) -> PullRequestInfoView {
        PullRequestInfoView {
            number: self.number,
            title: self.title@,
            html_url: self.html_url@,
            state: self.state@,
            fetched_at: self.fetched_at,
        }
    }
}

/// What we last learned about a particular `(owner, repo, branch)` triple.
#[derive(Clone, Debug)]
pub enum PrState {
    /// A PR was found: open, draft, merged, or closed.
    Found(PullRequestInfo),
    /// We queried GitHub and got an empty result.
    NotFound,
}

impl View for PrState {
    type V = Option<PullRequestInfoView>;

    open spec fn view(&self) -> Option<PullRequestInfoView> {
        match self {
            PrState::Found(pr) => Some(pr@),
            PrState::NotFound => None,
        }
    }
}

pub type TargetKey = (Seq<char>, Seq<char>, Seq<char>);

/// An `(owner, repo, branch)` triple.
#[derive(Clone, Debug)]
pub struct Target {
    pub owner: String,
    pub repo: String,
    pub branch: String,
}

impl View for Target {
    type V = TargetKey;

    open spec fn view(&self) -> TargetKey {
        (self.owner@, self.repo@, self.branch@)
    }
}

impl Target {
    /// A copy with the same three strings.
    pub fn duplicate(&self) -> (res: Target)
        ensures
            res@ == self@,
    {
        Target { owner: self.owner.clone(), repo: self.repo.clone(), branch: self.branch.clone() }
    }

    /// Whether both name the same triple.
    pub fn same_as(&self, other: &Target) -> (res: bool)
        ensures
            res == (self@ == other@),
    {
        self.owner == other.owner && self.repo == other.repo && self.branch == other.branch
    }
}

pub open spec fn keys_of(ts: Seq<Target>) -> Seq<TargetKey> {
    ts.map_values(|t: Target| t@)
}

pub open spec fn opt_pr_view(p: Option<&PullRequestInfo>) -> Option<PullRequestInfoView> {
    match p {
        Some(pr) => Some(pr@),
        None => None,
    }
}

/// The cached result for one triple.
pub struct CachedView {
    pub pr: Option<PullRequestInfoView>,
    pub fetched_at: i128,
}

/// The indicator's state in mathematical terms.
pub struct PrIndicatorStateView {
    pub cache: Map<TargetKey, CachedView>,
    /// Every triple asked about, in the order first asked.
    pub observed: Seq<TargetKey>,
    /// The triple the title bar shows.
    pub current: Option<TargetKey>,
}

impl PrIndicatorStateView {
    /// The cached pull request of `t`, if any.
    pub open spec fn pr_for(self, t: TargetKey) -> Option<PullRequestInfoView> {
        if self.cache.contains_key(t) {
            self.cache[t].pr
        } else {
            None
        }
    }

    /// The cached pull request of the triple on screen.
    pub open spec fn current_pr(self) -> Option<PullRequestInfoView> {
        match self.current {
            Some(t) => self.pr_for(t),
            None => None,
        }
    }

    /// The state after the title bar asks about `t`.
    pub open spec fn observe(self, t: TargetKey) -> PrIndicatorStateView {
        PrIndicatorStateView {
            cache: self.cache,
            observed: if self.observed.contains(t) {
                self.observed
            } else {
                self.observed.push(t)
            },
            current: Some(t),
        }
    }

    /// The state after a fetch for `t` returns `pr` at time `now`.
    pub open spec fn record(
        self,
        t: TargetKey,
        pr: Option<PullRequestInfoView>,
        now: i128,
    ) -> PrIndicatorStateView {
        PrIndicatorStateView {
            cache: self.cache.insert(t, CachedView { pr, fetched_at: now }),
            observed: self.observed,
            current: self.current,
        }
    }

    /// `t` needs a refresh at `now`: never fetched, fetched "in the future",
    /// or fetched at least the refresh interval ago.
    pub open spec fn is_due(self, t: TargetKey, now: i128) -> bool {
        if self.cache.contains_key(t) {
            let at = self.cache[t].fetched_at;
            now < at || now - at >= REFRESH_INTERVAL_NANOS
        } else {
            true
        }
    }

    /// The observed triples due at `now`, in observation order.
    pub open spec fn due_targets(self, now: i128) -> Seq<TargetKey> {
        due_among(self.observed, self, now)
    }
}

pub open spec fn due_among(ts: Seq<TargetKey>, v: PrIndicatorStateView, now: i128) -> Seq<
    TargetKey,
>
    decreases ts.len(),
{
    if ts.len() == 0 {
        seq![]
    } else {
        let rest = due_among(ts.drop_last(), v, now);
        if v.is_due(ts.last(), now) {
            rest.push(ts.last())
        } else {
            rest
        }
    }
}

/// No key occurs twice.
pub open spec fn no_duplicates(s: Seq<TargetKey>) -> bool {
    forall|i: int, j: int| 0 <= i < j < s.len() ==> s[i] != s[j]
}

/// A lookup after a store gives back what was stored for that triple and
/// leaves every other triple's answer unchanged; the chip on screen follows.
pub proof fn lemma_record_then_lookup(
    v: PrIndicatorStateView,
    t: TargetKey,
    pr: Option<PullRequestInfoView>,
    now: i128,
    u: TargetKey,
)
    ensures
        v.record(t, pr, now).pr_for(u) == (if u == t {
            pr
        } else {
            v.pr_for(u)
        }),
        v.current == Some(t) ==> v.record(t, pr, now).current_pr() == pr,
{
}

/// A triple just stored is not due again until the refresh interval has
/// passed, and is due once it has.
pub proof fn lemma_recorded_due_after_interval(
    v: PrIndicatorStateView,
    t: TargetKey,
    pr: Option<PullRequestInfoView>,
    now: i128,
    later: i128,
)
    requires
        now <= later,
    ensures
        v.record(t, pr, now).is_due(t, later) <==> later - now >= REFRESH_INTERVAL_NANOS,
{
}

/// Asking about the same triple twice in a row changes nothing the second
/// time, and the second time the palette needs no refresh.
pub proof fn lemma_observe_idempotent(v: PrIndicatorStateView, t: TargetKey)
    ensures
        v.observe(t).observe(t) == v.observe(t),
        v.observe(t).current == Some(t),
{
    let w = v.observe(t);
    assert(w.observed.contains(t)) by {
        if !v.observed.contains(t) {
            assert(w.observed[w.observed.len() - 1] == t);
        }
    }
}

/// Observation only ever appends: what was observed stays, in order, the
/// new triple is observed, no triple is listed twice, and the cache is
/// untouched.
pub proof fn lemma_observe_appends(v: PrIndicatorStateView, t: TargetKey)
    requires
        no_duplicates(v.observed),
    ensures
        v.observed.is_prefix_of(v.observe(t).observed),
        v.observe(t).observed.contains(t),
        no_duplicates(v.observe(t).observed),
        v.observe(t).cache == v.cache,
{
    let w = v.observe(t);
    if !v.observed.contains(t) {
        assert(w.observed[w.observed.len() - 1] == t);
        assert(v.observed =~= w.observed.subrange(0, v.observed.len() as int));
        assert forall|i: int, j: int| 0 <= i < j < w.observed.len() implies w.observed[i] != w.observed[j] by {
            if j == w.observed.len() - 1 {
                assert(v.observed[i] == w.observed[i]);
            }
        }
    } else {
        assert(v.observed =~= w.observed.subrange(0, v.observed.len() as int));
    }
}

/// A triple is in the refresh list exactly when it was observed and is due.
pub proof fn lemma_due_targets_members(v: PrIndicatorStateView, now: i128, t: TargetKey)
    ensures
        v.due_targets(now).contains(t) <==> (v.observed.contains(t) && v.is_due(t, now)),
{
    lemma_due_among_members(v.observed, v, now, t);
}

proof fn lemma_due_among_members(ts: Seq<TargetKey>, v: PrIndicatorStateView, now: i128, t: TargetKey)
    ensures
        due_among(ts, v, now).contains(t) <==> (ts.contains(t) && v.is_due(t, now)),
    decreases ts.len(),
{
    if ts.len() > 0 {
        let init = ts.drop_last();
        lemma_due_among_members(init, v, now, t);
        let rest = due_among(init, v, now);
        let all = due_among(ts, v, now);
        if ts.contains(t) && v.is_due(t, now) {
            let i = choose|i: int| 0 <= i < ts.len() && ts[i] == t;
            if i < ts.len() - 1 {
                assert(init[i] == t);
                assert(init.contains(t));
                let k = choose|k: int| 0 <= k < rest.len() && rest[k] == t;
                assert(all[k] == t);
            } else {
                assert(all[all.len() - 1] == t);
            }
            assert(all.contains(t));
        }
        if all.contains(t) {
            let i = choose|i: int| 0 <= i < all.len() && all[i] == t;
            if v.is_due(ts.last(), now) && i == rest.len() {
                assert(ts[ts.len() - 1] == t);
            } else {
                assert(rest[i] == t);
                assert(rest.contains(t));
                let k = choose|k: int| 0 <= k < init.len() && init[k] == t;
                assert(ts[k] == t);
            }
        }
    }
}

/// What the command palette shows after an observation of `t`, when the
/// caller recomputes the action's visibility only if `refresh_palette` is
/// set, and `shown` is what it showed before.
pub open spec fn palette_after_observe(v: PrIndicatorStateView, t: TargetKey, shown: bool) -> bool {
    if v.current != Some(t) {
        v.observe(t).current_pr() is Some
    } else {
        shown
    }
}

/// One event the indicator's state goes through.
pub enum IndicatorStep {
    /// The title bar asks about a triple.
    Observe(TargetKey),
    /// A fetch for a triple returns, at a time.
    Record(TargetKey, Option<PullRequestInfoView>, i128),
}

/// The state and the palette's visibility after one event; after a record
/// the visibility is always recomputed.
pub open spec fn indicator_step(v: PrIndicatorStateView, shown: bool, e: IndicatorStep) -> (
    PrIndicatorStateView,
    bool,
) {
    match e {
        IndicatorStep::Observe(t) => (v.observe(t), palette_after_observe(v, t, shown)),
        IndicatorStep::Record(t, pr, now) => (
            v.record(t, pr, now),
            v.record(t, pr, now).current_pr() is Some,
        ),
    }
}

/// The state and the palette's visibility after a run of events.
pub open spec fn indicator_run(v: PrIndicatorStateView, shown: bool, es: Seq<IndicatorStep>) -> (
    PrIndicatorStateView,
    bool,
)
    decreases es.len(),
{
    if es.len() == 0 {
        (v, shown)
    } else {
        let next = indicator_step(v, shown, es[0]);
        indicator_run(next.0, next.1, es.drop_first())
    }
}

/// Recomputing the palette only when `refresh_palette` says so keeps it
/// right: if it showed the action exactly when there was a current pull
/// request, it still does after the observation.
pub proof fn lemma_palette_after_observe(v: PrIndicatorStateView, t: TargetKey, shown: bool)
    requires
        shown == v.current_pr() is Some,
    ensures
        palette_after_observe(v, t, shown) == v.observe(t).current_pr() is Some,
{
}

/// Over any run of observations and records that starts right, the palette
/// shows the action exactly when there is a current pull request. (The
/// indicator starts with nothing on screen and the action hidden.)
pub proof fn lemma_palette_tracks_run(v: PrIndicatorStateView, shown: bool, es: Seq<IndicatorStep>)
    requires
        shown == v.current_pr() is Some,
    ensures
        indicator_run(v, shown, es).1 == indicator_run(v, shown, es).0.current_pr() is Some,
    decreases es.len(),
{
    if es.len() > 0 {
        let next = indicator_step(v, shown, es[0]);
        match es[0] {
            IndicatorStep::Observe(t) => lemma_palette_after_observe(v, t, shown),
            IndicatorStep::Record(t, pr, now) => {},
        }
        lemma_palette_tracks_run(next.0, next.1, es.drop_first());
    }
}

struct CacheEntry {
    target: Target,
    state: PrState,
    fetched_at: i128,
}

spec fn entry_view(e: CacheEntry) -> CachedView {
    CachedView { pr: e.state@, fetched_at: e.fetched_at }
}

spec fn has_entry(es: Seq<CacheEntry>, k: TargetKey) -> bool {
    exists|i: int| 0 <= i < es.len() && es[i].target@ == k
}

spec fn cache_view(es: Seq<CacheEntry>) -> Map<TargetKey, CachedView> {
    Map::new(
        |k: TargetKey| has_entry(es, k),
        |k: TargetKey| entry_view(es[choose|i: int| 0 <= i < es.len() && es[i].target@ == k]),
    )
}

spec fn entries_distinct(es: Seq<CacheEntry>) -> bool {
    forall|i: int, j: int| 0 <= i < j < es.len() ==> es[i].target@ != es[j].target@
}

proof fn lemma_cache_view_at(es: Seq<CacheEntry>, i: int)
    requires
        entries_distinct(es),
        0 <= i < es.len(),
    ensures
        cache_view(es).contains_key(es[i].target@),
        cache_view(es)[es[i].target@] == entry_view(es[i]),
{
    let k = es[i].target@;
    assert(has_entry(es, k));
    let j = choose|j: int| 0 <= j < es.len() && es[j].target@ == k;
    if j < i {
        assert(es[j].target@ != es[i].target@);
    } else if i < j {
        assert(es[i].target@ != es[j].target@);
    }
}

/// What the pull-request indicator remembers.
pub struct PrIndicatorState {
    cache: Vec<CacheEntry>,
    observed: Vec<Target>,
    current_visible: Option<Target>,
}

/// What the caller of `observe_target` has to do next.
pub struct ObserveOutcome {
    /// The triple on screen changed, so the command palette's action
    /// visibility has to be recomputed.
    pub refresh_palette: bool,
    /// The triple was never observed before, so its first fetch has to be
    /// started (later refreshes are the poll loop's business).
    pub needs_fetch: bool,
}

/// `SystemTime::now().duration_since(UNIX_EPOCH)` in nanoseconds: `Ok` with
/// the time elapsed since the epoch, or `Err` with the time by which the
/// clock lies before it.
#[verifier::external_body]
fn clock_since_epoch() -> Result<u128, u128> {
    match std::time::SystemTime::now().duration_since(std::time::UNIX_EPOCH) {
        Ok(elapsed) => Ok(elapsed.as_nanos()),
        Err(before) => Err(before.duration().as_nanos()),
    }
}

/// The wall-clock time in nanoseconds since the UNIX epoch, negative before
/// it (saturating at the bounds of `i128`, some 10^21 years away).
pub(crate) fn now_nanos() -> i128 {
    match clock_since_epoch() {
        Ok(n) => if n > i128::MAX as u128 {
            i128::MAX
        } else {
            n as i128
        },
        Err(n) => if n > i128::MAX as u128 {
            -i128::MAX
        } else {
            -(n as i128)
        },
    }
}

/// Whether a result fetched at `at` is due for a refresh at `now`.
fn due_at(now: i128, at: i128) -> (res: bool)
    ensures
        res == (now < at || now - at >= REFRESH_INTERVAL_NANOS),
{
    if now < at {
        true
    } else if at >= 0 || now < 0 {
        now - at >= REFRESH_INTERVAL_NANOS
    } else if now >= REFRESH_INTERVAL_NANOS {
        true
    } else if at == i128::MIN {
        true
    } else {
        -at >= REFRESH_INTERVAL_NANOS - now
    }
}

impl View for PrIndicatorState {
    type V = PrIndicatorStateView;

    closed spec fn view(&self) -> PrIndicatorStateView {
        PrIndicatorStateView {
            cache: cache_view(self.cache@),
            observed: keys_of(self.observed@),
            current: match self.current_visible {
                Some(t) => Some(t@),
                None => None,
            },
        }
    }
}

impl PrIndicatorState {
    /// The representation invariant: one cache entry per triple, and each
    /// triple observed at most once.
    pub closed spec fn wf(&self) -> bool {
        &&& entries_distinct(self.cache@)
        &&& no_duplicates(keys_of(self.observed@))
    }

    /// The invariant's consequence that users see.
    pub proof fn lemma_wf_observed(&self)
        requires
            self.wf(),
        ensures
            no_duplicates(self@.observed),
    {
    }

    /// An empty state: nothing cached, nothing observed, nothing on screen.
    pub fn new() -> (res: Self)
        ensures
            res.wf(),
            res@.cache == Map::<TargetKey, CachedView>::empty(),
            res@.observed == Seq::<TargetKey>::empty(),
            res@.current is None,
    {
        let res = PrIndicatorState { cache: Vec::new(), observed: Vec::new(), current_visible: None };
        assert(cache_view(res.cache@) =~= Map::<TargetKey, CachedView>::empty());
        assert(keys_of(res.observed@) =~= Seq::<TargetKey>::empty());
        res
    }

    fn find_entry(&self, t: &Target) -> (res: Option<usize>)
        requires
            self.wf(),
        ensures
            match res {
                Some(i) => {
                    &&& i < self.cache@.len()
                    &&& self.cache@[i as int].target@ == t@
                    &&& self@.cache.contains_key(t@)
                    &&& self@.cache[t@] == entry_view(self.cache@[i as int])
                },
                None => !self@.cache.contains_key(t@),
            },
    {
        let mut i: usize = 0;
        while i < self.cache.len()
            invariant
                self.wf(),
                0 <= i <= self.cache@.len(),
                forall|j: int| 0 <= j < i ==> self.cache@[j].target@ != t@,
            decreases self.cache.len() - i,
        {
            if self.cache[i].target.same_as(t) {
                proof {
                    lemma_cache_view_at(self.cache@, i as int);
                }
                return Some(i);
            }
            i = i + 1;
        }
        None
    }

    fn is_observed(&self, t: &Target) -> (res: bool)
        ensures
            res == self@.observed.contains(t@),
    {
        let mut i: usize = 0;
        while i < self.observed.len()
            invariant
                0 <= i <= self.observed@.len(),
                forall|j: int| 0 <= j < i ==> self.observed@[j]@ != t@,
            decreases self.observed.len() - i,
        {
            if self.observed[i].same_as(t) {
                assert(self@.observed[i as int] == t@);
                return true;
            }
            i = i + 1;
        }
        proof {
            if self@.observed.contains(t@) {
                let j = choose|j: int| 0 <= j < self@.observed.len() && self@.observed[j] == t@;
                assert(self.observed@[j]@ == t@);
            }
        }
        false
    }

    fn lookup<'a>(&'a self, t: &Target) -> (res: Option<&'a PullRequestInfo>)
        requires
            self.wf(),
        ensures
            opt_pr_view(res) == self@.pr_for(t@),
    {
        match self.find_entry(t) {
            Some(i) => match &self.cache[i].state {
                PrState::Found(pr) => Some(pr),
                PrState::NotFound => None,
            },
            None => None,
        }
    }

    /// The cached pull request of the triple the title bar shows.
    pub fn current_pr(&self) -> (res: Option<&PullRequestInfo>)
        requires
            self.wf(),
        ensures
            opt_pr_view(res) == self@.current_pr(),
    {
        match &self.current_visible {
            Some(t) => self.lookup(t),
            None => None,
        }
    }

    /// The cached pull request of `(owner, repo, branch)`.
    pub fn pr_for(&self, owner: &str, repo: &str, branch: &str) -> (res: Option<
        &PullRequestInfo,
    >)
        requires
            self.wf(),
        ensures
            opt_pr_view(res) == self@.pr_for((owner@, repo@, branch@)),
    {
        let target = Target { owner: owner.to_owned(), repo: repo.to_owned(), branch: branch.to_owned() };
        self.lookup(&target)
    }

    /// Whether the "open pull request" action belongs in the command palette:
    /// the triple on screen has a cached pull request.
    pub fn palette_visible(&self) -> (res: bool)
        requires
            self.wf(),
        ensures
            res == self@.current_pr() is Some,
    {
        self.current_pr().is_some()
    }

    /// Called on every render of the title bar: records the triple the UI is
    /// asking about and says whether the palette needs an update and whether
    /// the triple is new, so that its first fetch has to be started.
    pub fn observe_target(&mut self, owner: String, repo: String, branch: String) -> (out:
        ObserveOutcome)
        requires
            old(self).wf(),
        ensures
            final(self).wf(),
            final(self)@ == old(self)@.observe((owner@, repo@, branch@)),
            out.refresh_palette == (old(self)@.current != Some((owner@, repo@, branch@))),
            out.needs_fetch == !old(self)@.observed.contains((owner@, repo@, branch@)),
    {
        let target = Target { owner, repo, branch };
        let changed = match &self.current_visible {
            Some(current) => !current.same_as(&target),
            None => true,
        };
        let seen = self.is_observed(&target);
        let ghost before = keys_of(self.observed@);
        self.current_visible = Some(target.duplicate());
        if !seen {
            self.observed.push(target);
            assert(keys_of(self.observed@) =~= before.push(target@));
        }
        ObserveOutcome { refresh_palette: changed, needs_fetch: !seen }
    }

    /// Stores the result of a fetch for `target` made at time `now`.
    pub fn record_result_at(&mut self, target: Target, state: PrState, now: i128)
        requires
            old(self).wf(),
        ensures
            final(self).wf(),
            final(self)@ == old(self)@.record(target@, state@, now),
    {
        let ghost t = target@;
        let ghost pr = state@;
        let ghost old_entries = self.cache@;
        let entry = CacheEntry { target, state, fetched_at: now };
        match self.find_entry(&entry.target) {
            Some(i) => {
                self.cache.set(i, entry);
                proof {
                    let es = self.cache@;
                    assert(entries_distinct(es)) by {
                        assert forall|a: int, b: int| 0 <= a < b < es.len() implies es[a].target@
                            != es[b].target@ by {
                            assert(old_entries[a].target@ != old_entries[b].target@);
                        }
                    }
                    assert forall|k: TargetKey| #[trigger] has_entry(es, k) == has_entry(old_entries, k) by {
                        if has_entry(es, k) {
                            let j = choose|j: int| 0 <= j < es.len() && es[j].target@ == k;
                            assert(old_entries[j].target@ == k);
                        }
                        if has_entry(old_entries, k) {
                            let j = choose|j: int| 0 <= j < old_entries.len() && old_entries[j].target@ == k;
                            assert(es[j].target@ == k);
                        }
                    }
                    let m = old(self)@.cache.insert(t, CachedView { pr, fetched_at: now });
                    assert forall|k: TargetKey| #[trigger] m.contains_key(k) implies cache_view(es).contains_key(k) && cache_view(es)[k] == m[k] by {
                        if k == t {
                            lemma_cache_view_at(es, i as int);
                        } else {
                            let j = choose|j: int| 0 <= j < old_entries.len() && old_entries[j].target@ == k;
                            lemma_cache_view_at(old_entries, j);
                            lemma_cache_view_at(es, j);
                        }
                    }
                    assert(cache_view(es) =~= m);
                }
            },
            None => {
                self.cache.push(entry);
                proof {
                    let es = self.cache@;
                    assert(entries_distinct(es)) by {
                        assert forall|a: int, b: int| 0 <= a < b < es.len() implies es[a].target@
                            != es[b].target@ by {
                            if b == es.len() - 1 {
                                assert(has_entry(old_entries, es[a].target@));
                            } else {
                                assert(old_entries[a].target@ != old_entries[b].target@);
                            }
                        }
                    }
                    let m = old(self)@.cache.insert(t, CachedView { pr, fetched_at: now });
                    assert forall|k: TargetKey| #[trigger] has_entry(es, k) == m.contains_key(k) by {
                        if has_entry(es, k) && k != t {
                            let j = choose|j: int| 0 <= j < es.len() && es[j].target@ == k;
                            assert(old_entries[j].target@ == k);
                            assert(has_entry(old_entries, k));
                        }
                        if k == t {
                            assert(es[es.len() - 1].target@ == k);
                        } else if has_entry(old_entries, k) {
                            let j = choose|j: int| 0 <= j < old_entries.len() && old_entries[j].target@ == k;
                            assert(es[j].target@ == k);
                        }
                    }
                    assert forall|k: TargetKey| #[trigger] m.contains_key(k) implies cache_view(es).contains_key(k) && cache_view(es)[k] == m[k] by {
                        if k == t {
                            lemma_cache_view_at(es, es.len() - 1);
                        } else {
                            let j = choose|j: int| 0 <= j < old_entries.len() && old_entries[j].target@ == k;
                            lemma_cache_view_at(old_entries, j);
                            lemma_cache_view_at(es, j);
                        }
                    }
                    assert(cache_view(es) =~= m);
                }
            },
        }
    }

    /// Stores the result of a fetch for `target`, stamped with the current
    /// time.
    pub fn record_result(&mut self, target: Target, state: PrState)
        requires
            old(self).wf(),
        ensures
            final(self).wf(),
            final(self)@ == old(self)@.record(
                target@,
                state@,
                final(self)@.cache[target@].fetched_at,
            ),
    {
        let now = now_nanos();
        self.record_result_at(target, state, now);
    }

    /// The observed triples that need a refresh at time `now`, in the order
    /// they were first observed.
    pub fn targets_due_at(&self, now: i128) -> (res: Vec<Target>)
        requires
            self.wf(),
        ensures
            keys_of(res@) == self@.due_targets(now),
    {
        let mut out: Vec<Target> = Vec::new();
        let mut i: usize = 0;
        while i < self.observed.len()
            invariant
                self.wf(),
                0 <= i <= self.observed@.len(),
                keys_of(out@) == due_among(self@.observed.take(i as int), self@, now),
            decreases self.observed.len() - i,
        {
            let t = &self.observed[i];
            let due = match self.find_entry(t) {
                None => true,
                Some(j) => due_at(now, self.cache[j].fetched_at),
            };
            let ghost prev = keys_of(out@);
            assert(self@.observed.take(i + 1).drop_last() =~= self@.observed.take(i as int));
            assert(self@.observed.take(i + 1).last() == t@);
            if due {
                out.push(t.duplicate());
                assert(keys_of(out@) =~= prev.push(t@));
            }
            i = i + 1;
        }
        assert(self@.observed.take(i as int) =~= self@.observed);
        out
    }

    /// The observed triples that need a refresh now.
    pub fn targets_due_for_refresh(&self) -> (res: Vec<Target>)
        requires
            self.wf(),
        ensures
            exists|now: i128| keys_of(res@) == self@.due_targets(now),
    {
        let now = now_nanos();
        self.targets_due_at(now)
    }
}

} // verus!
