//! The GitHub side of the indicator: the query URL, the choice of the most
//! recently updated pull request, its status word, and the order of the
//! queries (open pull requests first, then closed ones).
use vstd::prelude::*;

use crate::state::{now_nanos, PrState, PullRequestInfo, PullRequestInfoView};
use crate::text::{
    chars_lt, lemma_chars_lt_irreflexive, lemma_chars_lt_total, lemma_chars_lt_transitive, str_is,
    str_lt,
};

verus! {

/// One element of GitHub's "list pull requests" answer, holding what the
/// indicator reads of it.
pub struct ApiPullRequest {
    pub number: u64,
    pub title: String,
    pub html_url: String,
    pub state: String,
    pub draft: Option<bool>,
    pub merged_at: Option<String>,
    pub updated_at: String,
    /// Whether the `auto_merge` field is present and not `null`.
    pub auto_merge: bool,
}

pub open spec fn closed_word() -> Seq<char> {
    seq!['c', 'l', 'o', 's', 'e', 'd']
}

/// The status word of a pull request: merged wins over closed, closed over
/// draft, draft over a queued auto-merge, and anything else is open.
pub open spec fn status_word(pr: ApiPullRequest) -> Seq<char> {
    if pr.merged_at is Some {
        "merged"@
    } else if pr.state@ == closed_word() {
        "closed"@
    } else if pr.draft == Some(true) {
        "draft"@
    } else if pr.auto_merge {
        "merge_queue"@
    } else {
        "open"@
    }
}

/// The status word of `pr`.
pub fn classify_state(pr: &ApiPullRequest) -> (res: &'static str)
    ensures
        res@ == status_word(*pr),
{
    let closed: [char; 6] = ['c', 'l', 'o', 's', 'e', 'd'];
    assert(closed@ =~= closed_word());
    if pr.merged_at.is_some() {
        "merged"
    } else if str_is(pr.state.as_str(), &closed) {
        "closed"
    } else if pr.draft == Some(true) {
        "draft"
    } else if pr.auto_merge {
        "merge_queue"
    } else {
        "open"
    }
}

/// `i` is the first of the most recently updated pull requests, which is
/// the one a stable sort by `updated_at`, newest first, puts in front.
pub open spec fn is_latest(prs: Seq<ApiPullRequest>, i: int) -> bool {
    &&& 0 <= i < prs.len()
    &&& forall|j: int| 0 <= j < prs.len() ==> !chars_lt(prs[i].updated_at@, prs[j].updated_at@)
    &&& forall|j: int| 0 <= j < i ==> chars_lt(prs[j].updated_at@, prs[i].updated_at@)
}

/// At most one position is the latest.
pub proof fn lemma_latest_unique(prs: Seq<ApiPullRequest>, i: int, k: int)
    requires
        is_latest(prs, i),
        is_latest(prs, k),
    ensures
        i == k,
{
    if i < k {
        assert(chars_lt(prs[i].updated_at@, prs[k].updated_at@));
    } else if k < i {
        assert(chars_lt(prs[k].updated_at@, prs[i].updated_at@));
    }
}

/// The position of the latest pull request, if there is any.
pub fn latest_index(prs: &Vec<ApiPullRequest>) -> (res: Option<usize>)
    ensures
        match res {
            Some(i) => is_latest(prs@, i as int),
            None => prs@.len() == 0,
        },
{
    if prs.len() == 0 {
        return None;
    }
    let mut best: usize = 0;
    let mut k: usize = 1;
    proof {
        lemma_chars_lt_irreflexive(prs@[0].updated_at@);
    }
    while k < prs.len()
        invariant
            0 <= best < k <= prs@.len(),
            forall|j: int| 0 <= j < k ==> !chars_lt(prs@[best as int].updated_at@, prs@[j].updated_at@),
            forall|j: int| 0 <= j < best ==> chars_lt(prs@[j].updated_at@, prs@[best as int].updated_at@),
        decreases prs.len() - k,
    {
        let newer = str_lt(prs[best].updated_at.as_str(), prs[k].updated_at.as_str());
        if newer {
            proof {
                let b = prs@[best as int].updated_at@;
                let c = prs@[k as int].updated_at@;
                assert forall|j: int| 0 <= j < k + 1 implies !chars_lt(c, #[trigger] prs@[j].updated_at@) by {
                    let d = prs@[j].updated_at@;
                    if j == k {
                        lemma_chars_lt_irreflexive(c);
                    } else if chars_lt(c, d) {
                        lemma_chars_lt_transitive(b, c, d);
                    }
                }
                assert forall|j: int| 0 <= j < k implies chars_lt(#[trigger] prs@[j].updated_at@, c) by {
                    let d = prs@[j].updated_at@;
                    lemma_chars_lt_total(d, b);
                    if chars_lt(d, b) {
                        lemma_chars_lt_transitive(d, b, c);
                    }
                }
            }
            best = k;
        } else {
            proof {
                let b = prs@[best as int].updated_at@;
                let c = prs@[k as int].updated_at@;
                assert(!chars_lt(b, c));
            }
        }
        k = k + 1;
    }
    Some(best)
}

/// The indicator's record of `pr`, fetched at `fetched_at`.
pub open spec fn info_of(pr: ApiPullRequest, fetched_at: i128) -> PullRequestInfoView {
    PullRequestInfoView {
        number: pr.number,
        title: pr.title@,
        html_url: pr.html_url@,
        state: status_word(pr),
        fetched_at,
    }
}

/// The indicator's record of the latest pull request in `prs`, stamped with
/// `now`; `None` when `prs` is empty.
pub fn latest_pull_request_at(prs: Vec<ApiPullRequest>, now: i128) -> (res: Option<
    PullRequestInfo,
>)
    ensures
        match res {
            Some(info) => exists|i: int| is_latest(prs@, i) && info@ == info_of(prs@[i], now),
            None => prs@.len() == 0,
        },
{
    let mut prs = prs;
    let ghost all = prs@;
    match latest_index(&prs) {
        None => None,
        Some(i) => {
            let state = classify_state(&prs[i]);
            let pr = prs.remove(i);
            assert(pr == all[i as int]);
            Some(PullRequestInfo {
                number: pr.number,
                title: pr.title,
                html_url: pr.html_url,
                state,
                fetched_at: now,
            })
        },
    }
}

/// The indicator's record of the latest pull request in `prs`, stamped with
/// the current time.
pub fn latest_pull_request(prs: Vec<ApiPullRequest>) -> (res: Option<PullRequestInfo>)
    ensures
        match res {
            Some(info) => exists|i: int| is_latest(prs@, i) && info@ == info_of(prs@[i], info.fetched_at),
            None => prs@.len() == 0,
        },
{
    let now = now_nanos();
    latest_pull_request_at(prs, now)
}

/// The status word depends on the fields in a fixed order of precedence: a
/// merged pull request is "merged" whatever else it says; one that is not
/// merged but closed is "closed" whatever its draft and auto-merge fields;
/// "draft" and "merge_queue" are only ever given to pull requests that are
/// neither merged nor closed; and the word is always one of the five.
pub proof fn lemma_status_word_precedence(pr: ApiPullRequest)
    ensures
        pr.merged_at is Some ==> status_word(pr) == "merged"@,
        (pr.merged_at is None && pr.state@ == closed_word()) ==> status_word(pr) == "closed"@,
        status_word(pr) == "draft"@ ==> pr.merged_at is None && pr.state@ != closed_word()
            && pr.draft == Some(true),
        status_word(pr) == "merge_queue"@ ==> pr.merged_at is None && pr.state@ != closed_word()
            && pr.draft != Some(true) && pr.auto_merge,
        status_word(pr) == "open"@ ==> pr.merged_at is None && pr.state@ != closed_word()
            && pr.draft != Some(true) && !pr.auto_merge,
        status_word(pr) == "merged"@ || status_word(pr) == "closed"@ || status_word(pr)
            == "draft"@ || status_word(pr) == "merge_queue"@ || status_word(pr) == "open"@,
{
    reveal_strlit("merged");
    reveal_strlit("closed");
    reveal_strlit("draft");
    reveal_strlit("merge_queue");
    reveal_strlit("open");
    assert("merged"@.len() == 6 && "closed"@.len() == 6 && "draft"@.len() == 5);
    assert("merge_queue"@.len() == 11 && "open"@.len() == 4);
    assert("merged"@[0] != "closed"@[0]);
}

/// The query URL asks GitHub's pull-request list of `owner/repo` for heads
/// `owner:…`, and its `state` parameter is exactly the state it was given
/// (so the second query of a lookup asks for `state=closed`), followed by
/// the fixed sort and page size.
pub proof fn lemma_pulls_url_parts(
    owner: Seq<char>,
    repo: Seq<char>,
    branch_bytes: Seq<u8>,
    state: Seq<char>,
)
    ensures
        ("https://api.github.com/repos/"@ + owner + "/"@ + repo + "/pulls?head="@ + owner
            + ":"@).is_prefix_of(pulls_url_of(owner, repo, branch_bytes, state)),
        ("&state="@ + state + "&sort=updated&direction=desc&per_page=5"@).is_suffix_of(
            pulls_url_of(owner, repo, branch_bytes, state),
        ),
        pulls_url_of(owner, repo, branch_bytes, state).len() == "https://api.github.com/repos/"@.len()
            + owner.len() + "/"@.len() + repo.len() + "/pulls?head="@.len() + owner.len()
            + ":"@.len() + percent_encoded(branch_bytes).len() + "&state="@.len() + state.len()
            + "&sort=updated&direction=desc&per_page=5"@.len(),
{
    let url = pulls_url_of(owner, repo, branch_bytes, state);
    let pre = "https://api.github.com/repos/"@ + owner + "/"@ + repo + "/pulls?head="@ + owner
        + ":"@;
    let mid = percent_encoded(branch_bytes);
    let post = "&state="@ + state + "&sort=updated&direction=desc&per_page=5"@;
    assert(url =~= pre + mid + post);
    assert(pre =~= url.subrange(0, pre.len() as int));
    assert(post =~= url.subrange(url.len() - post.len(), url.len() as int));
}

/// Two queries for the same branch differ in the `state` parameter alone:
/// the URLs for two states are equal exactly when the states are.
pub proof fn lemma_pulls_url_state_distinguishes(
    owner: Seq<char>,
    repo: Seq<char>,
    branch_bytes: Seq<u8>,
    a: Seq<char>,
    b: Seq<char>,
)
    ensures
        pulls_url_of(owner, repo, branch_bytes, a) == pulls_url_of(owner, repo, branch_bytes, b)
            <==> a == b,
{
    let ua = pulls_url_of(owner, repo, branch_bytes, a);
    let ub = pulls_url_of(owner, repo, branch_bytes, b);
    let pre = "https://api.github.com/repos/"@ + owner + "/"@ + repo + "/pulls?head="@ + owner
        + ":"@ + percent_encoded(branch_bytes) + "&state="@;
    let post = "&sort=updated&direction=desc&per_page=5"@;
    assert(ua =~= pre + a + post);
    assert(ub =~= pre + b + post);
    if ua == ub {
        assert(a =~= ua.subrange(pre.len() as int, (pre.len() + a.len()) as int));
        assert(b =~= ub.subrange(pre.len() as int, (pre.len() + b.len()) as int));
    }
}

/// Bytes that stay as they are in a query parameter.
pub open spec fn is_unreserved(b: u8) -> bool {
    ||| 65 <= b <= 90
    ||| 97 <= b <= 122
    ||| 48 <= b <= 57
    ||| b == 45
    ||| b == 46
    ||| b == 95
    ||| b == 126
}

/// Upper-case hexadecimal digit of `n < 16`.
pub open spec fn hex_digit(n: u8) -> char {
    if n < 10 {
        (48 + n) as char
    } else {
        (55 + n) as char
    }
}

/// One byte, percent-encoded unless unreserved.
pub open spec fn encode_byte(b: u8) -> Seq<char> {
    if is_unreserved(b) {
        seq![b as char]
    } else {
        seq!['%', hex_digit(b / 16), hex_digit(b % 16)]
    }
}

/// The percent-encoding of a byte string.
pub open spec fn percent_encoded(bytes: Seq<u8>) -> Seq<char>
    decreases bytes.len(),
{
    if bytes.len() == 0 {
        seq![]
    } else {
        percent_encoded(bytes.drop_last()) + encode_byte(bytes.last())
    }
}

/// Characters that stand for themselves in a query parameter.
pub open spec fn is_unreserved_char(c: char) -> bool {
    let u = c as int;
    ||| 65 <= u <= 90
    ||| 97 <= u <= 122
    ||| 48 <= u <= 57
    ||| u == 45
    ||| u == 46
    ||| u == 95
    ||| u == 126
}

/// An upper-case hexadecimal digit.
pub open spec fn is_upper_hex(c: char) -> bool {
    (48 <= c as int <= 57) || (65 <= c as int <= 70)
}

/// The value of an upper-case hexadecimal digit.
pub open spec fn hex_value(c: char) -> int {
    if c as int <= 57 {
        c as int - 48
    } else {
        c as int - 55
    }
}

/// Only unreserved characters and `%` followed by two upper-case hex digits.
pub open spec fn well_escaped(s: Seq<char>) -> bool
    decreases s.len(),
{
    if s.len() == 0 {
        true
    } else if s[0] == '%' {
        s.len() >= 3 && is_upper_hex(s[1]) && is_upper_hex(s[2]) && well_escaped(s.skip(3))
    } else {
        is_unreserved_char(s[0]) && well_escaped(s.drop_first())
    }
}

/// Percent-decoding: each `%XY` gives the byte `0xXY`, any other character
/// its own code.
pub open spec fn percent_decoded(s: Seq<char>) -> Seq<u8>
    decreases s.len(),
{
    if s.len() == 0 {
        seq![]
    } else if s[0] == '%' && s.len() >= 3 {
        seq![(hex_value(s[1]) * 16 + hex_value(s[2])) as u8] + percent_decoded(s.skip(3))
    } else {
        seq![s[0] as u8] + percent_decoded(s.drop_first())
    }
}

/// How many bytes get escaped.
pub open spec fn reserved_count(bytes: Seq<u8>) -> nat
    decreases bytes.len(),
{
    if bytes.len() == 0 {
        0
    } else {
        reserved_count(bytes.drop_last()) + if is_unreserved(bytes.last()) {
            0nat
        } else {
            1nat
        }
    }
}

/// The bytes read as characters one for one.
pub open spec fn bytes_as_chars(bytes: Seq<u8>) -> Seq<char> {
    bytes.map_values(|b: u8| b as char)
}

/// Encoding a concatenation concatenates the encodings.
pub proof fn lemma_percent_encoded_concat(a: Seq<u8>, b: Seq<u8>)
    ensures
        percent_encoded(a + b) == percent_encoded(a) + percent_encoded(b),
    decreases b.len(),
{
    if b.len() == 0 {
        assert(a + b =~= a);
        assert(percent_encoded(a) + percent_encoded(b) =~= percent_encoded(a));
    } else {
        lemma_percent_encoded_concat(a, b.drop_last());
        assert((a + b).drop_last() =~= a + b.drop_last());
        assert((a + b).last() == b.last());
        assert(percent_encoded(a + b) =~= percent_encoded(a) + percent_encoded(b));
    }
}

proof fn lemma_hex_digit(n: u8)
    requires
        n < 16,
    ensures
        is_upper_hex(hex_digit(n)),
        hex_value(hex_digit(n)) == n,
        hex_digit(n) != '%',
{
}

proof fn lemma_encode_byte_front(x: u8, rest: Seq<char>)
    ensures
        well_escaped(encode_byte(x) + rest) == well_escaped(rest),
        percent_decoded(encode_byte(x) + rest) == seq![x] + percent_decoded(rest),
{
    let s = encode_byte(x) + rest;
    if is_unreserved(x) {
        assert(s[0] == x as char);
        assert(s.drop_first() =~= rest);
        assert(s[0] != '%');
        assert(is_unreserved_char(s[0]));
    } else {
        lemma_hex_digit(x / 16);
        lemma_hex_digit(x % 16);
        assert(s[0] == '%');
        assert(s.skip(3) =~= rest);
        assert(hex_value(s[1]) * 16 + hex_value(s[2]) == x);
    }
}

/// The encoding uses only unreserved characters and `%XY` escapes with
/// upper-case hex digits, and decoding it gives back the bytes.
pub proof fn lemma_percent_encoded_round_trip(bytes: Seq<u8>)
    ensures
        well_escaped(percent_encoded(bytes)),
        percent_decoded(percent_encoded(bytes)) == bytes,
    decreases bytes.len(),
{
    if bytes.len() == 0 {
    } else {
        let rest = bytes.drop_first();
        lemma_percent_encoded_round_trip(rest);
        assert(bytes =~= seq![bytes[0]] + rest);
        lemma_percent_encoded_concat(seq![bytes[0]], rest);
        let one = seq![bytes[0]];
        assert(one.drop_last() =~= Seq::<u8>::empty());
        assert(percent_encoded(one.drop_last()) =~= Seq::<char>::empty());
        assert(one.last() == bytes[0]);
        assert(percent_encoded(one) == percent_encoded(one.drop_last()) + encode_byte(one.last()));
        assert(percent_encoded(one) =~= encode_byte(bytes[0]));
        lemma_encode_byte_front(bytes[0], percent_encoded(rest));
        assert(seq![bytes[0]] + percent_decoded(percent_encoded(rest)) =~= bytes);
    }
}

/// Each escaped byte adds two characters.
pub proof fn lemma_percent_encoded_len(bytes: Seq<u8>)
    ensures
        percent_encoded(bytes).len() == bytes.len() + 2 * reserved_count(bytes),
    decreases bytes.len(),
{
    if bytes.len() > 0 {
        lemma_percent_encoded_len(bytes.drop_last());
    }
}

proof fn lemma_reserved_count_zero(bytes: Seq<u8>)
    ensures
        reserved_count(bytes) == 0 <==> forall|i: int| 0 <= i < bytes.len() ==> is_unreserved(bytes[i]),
    decreases bytes.len(),
{
    if bytes.len() > 0 {
        let init = bytes.drop_last();
        lemma_reserved_count_zero(init);
        if reserved_count(bytes) == 0 {
            assert forall|i: int| 0 <= i < bytes.len() implies is_unreserved(bytes[i]) by {
                if i < bytes.len() - 1 {
                    assert(init[i] == bytes[i]);
                }
            }
        }
        if forall|i: int| 0 <= i < bytes.len() ==> is_unreserved(bytes[i]) {
            assert forall|i: int| 0 <= i < init.len() implies is_unreserved(init[i]) by {
                assert(init[i] == bytes[i]);
            }
            assert(is_unreserved(bytes[bytes.len() - 1]));
        }
    }
}

/// The encoding is the input read as characters exactly when every byte is
/// unreserved.
pub proof fn lemma_percent_encoded_identity(bytes: Seq<u8>)
    ensures
        percent_encoded(bytes) == bytes_as_chars(bytes) <==> forall|i: int|
            0 <= i < bytes.len() ==> is_unreserved(bytes[i]),
    decreases bytes.len(),
{
    lemma_percent_encoded_len(bytes);
    lemma_reserved_count_zero(bytes);
    if bytes.len() > 0 {
        let init = bytes.drop_last();
        lemma_percent_encoded_identity(init);
        lemma_reserved_count_zero(init);
        if forall|i: int| 0 <= i < bytes.len() ==> is_unreserved(bytes[i]) {
            assert forall|i: int| 0 <= i < init.len() implies is_unreserved(init[i]) by {
                assert(init[i] == bytes[i]);
            }
            assert(is_unreserved(bytes.last()));
            assert(bytes_as_chars(bytes) =~= bytes_as_chars(init).push(bytes.last() as char));
            assert(percent_encoded(bytes) =~= bytes_as_chars(bytes));
        }
    } else {
        assert(percent_encoded(bytes) =~= bytes_as_chars(bytes));
    }
}

fn hex_char(n: u8) -> (res: char)
    requires
        n < 16,
    ensures
        res == hex_digit(n),
{
    if n < 10 {
        (48 + n) as char
    } else {
        (55 + n) as char
    }
}

/// Percent-encodes every byte of `input`'s UTF-8 encoding that is not
/// unreserved (`A-Z a-z 0-9 - . _ ~`).
pub fn urlencode(input: &str) -> (res: String)
    ensures
        res@ == percent_encoded(vstd::utf8::encode_utf8(input@)),
{
    let bytes = input.as_bytes();
    let mut out = String::new();
    let mut i: usize = 0;
    while i < bytes.len()
        invariant
            bytes@ == vstd::utf8::encode_utf8(input@),
            0 <= i <= bytes@.len(),
            out@ == percent_encoded(bytes@.take(i as int)),
        decreases bytes.len() - i,
    {
        let b = bytes[i];
        assert(bytes@.take(i + 1).drop_last() =~= bytes@.take(i as int));
        assert(bytes@.take(i + 1).last() == b);
        let ghost before = out@;
        if (65 <= b && b <= 90) || (97 <= b && b <= 122) || (48 <= b && b <= 57) || b == 45 || b
            == 46 || b == 95 || b == 126 {
            crate::text::push_char(&mut out, b as char);
            assert(out@ =~= before + encode_byte(b));
        } else {
            crate::text::push_char(&mut out, '%');
            crate::text::push_char(&mut out, hex_char(b / 16));
            crate::text::push_char(&mut out, hex_char(b % 16));
            assert(out@ =~= before + encode_byte(b));
        }
        i = i + 1;
    }
    assert(bytes@.take(i as int) =~= bytes@);
    out
}

/// The GitHub API URL listing the five most recently updated pull requests
/// of `repo` whose head is `owner:branch`, in the given state.
pub open spec fn pulls_url_of(
    owner: Seq<char>,
    repo: Seq<char>,
    branch_bytes: Seq<u8>,
    state: Seq<char>,
) -> Seq<char> {
    "https://api.github.com/repos/"@ + owner + "/"@ + repo + "/pulls?head="@ + owner + ":"@
        + percent_encoded(branch_bytes) + "&state="@ + state
        + "&sort=updated&direction=desc&per_page=5"@
}

/// The query URL for `owner`'s pull requests from `branch` into `owner/repo`.
pub fn pulls_url(owner: &str, repo: &str, branch: &str, state: &str) -> (res: String)
    ensures
        res@ == pulls_url_of(owner@, repo@, vstd::utf8::encode_utf8(branch@), state@),
{
    let mut url = String::new();
    url.append("https://api.github.com/repos/");
    url.append(owner);
    url.append("/");
    url.append(repo);
    url.append("/pulls?head=");
    url.append(owner);
    url.append(":");
    let encoded = urlencode(branch);
    url.append(encoded.as_str());
    url.append("&state=");
    url.append(state);
    url.append("&sort=updated&direction=desc&per_page=5");
    assert(url@ =~= pulls_url_of(owner@, repo@, vstd::utf8::encode_utf8(branch@), state@));
    url
}

/// The value of the `Authorization` header for `token`.
pub fn authorization_value(token: &str) -> (res: String)
    ensures
        res@ == "Bearer "@ + token@,
{
    let mut value = String::new();
    value.append("Bearer ");
    value.append(token);
    assert(value@ =~= "Bearer "@ + token@);
    value
}

/// Which pull requests a query asks for.
#[derive(Clone, Copy, Debug, PartialEq, Eq, Structural)]
pub enum PrQuery {
    Open,
    Closed,
}

impl PrQuery {
    /// The value of the `state` query parameter.
    pub fn as_str(&self) -> (res: &'static str)
        ensures
            res@ == (match self {
                PrQuery::Open => "open"@,
                PrQuery::Closed => "closed"@,
            }),
    {
        match self {
            PrQuery::Open => "open",
            PrQuery::Closed => "closed",
        }
    }
}

/// The next thing to do while looking up a branch's pull request.
pub enum FetchStep {
    /// Run this query.
    Query(PrQuery),
    /// The lookup is over, with this result.
    Done(PrState),
}

pub open spec fn step_view(step: FetchStep) -> Result<PrQuery, Option<PullRequestInfoView>> {
    match step {
        FetchStep::Query(q) => Ok(q),
        FetchStep::Done(s) => Err(s@),
    }
}

/// The lookup's decisions: ask for open pull requests first; if one is
/// found it is the answer; otherwise ask for closed ones; if one is found it
/// is the answer; otherwise there is no pull request. `last` is the query
/// that just ran and what it found, or `None` before the first query.
pub fn next_fetch_step(last: Option<(PrQuery, Option<PullRequestInfo>)>) -> (res: FetchStep)
    ensures
        step_view(res) == (match last {
            None => Ok(PrQuery::Open),
            Some((_, Some(pr))) => Err(Some(pr@)),
            Some((PrQuery::Open, None)) => Ok(PrQuery::Closed),
            Some((PrQuery::Closed, None)) => Err(None),
        }),
{
    match last {
        None => FetchStep::Query(PrQuery::Open),
        Some((_, Some(pr))) => FetchStep::Done(PrState::Found(pr)),
        Some((PrQuery::Open, None)) => FetchStep::Query(PrQuery::Closed),
        Some((PrQuery::Closed, None)) => FetchStep::Done(PrState::NotFound),
    }
}

} // verus!
