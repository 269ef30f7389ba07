//! Recognising GitHub remotes in git remote URLs.
use vstd::prelude::*;

use crate::text::{
    chars_of, contains_char, find_char, has_prefix, split_at_first, string_from_range, trim,
    trim_range,
};

verus! {

pub open spec fn git_at() -> Seq<char> {
    seq!['g', 'i', 't', '@']
}

pub open spec fn ssh_scheme() -> Seq<char> {
    seq!['s', 's', 'h', ':', '/', '/']
}

pub open spec fn https_scheme() -> Seq<char> {
    seq!['h', 't', 't', 'p', 's', ':', '/', '/']
}

pub open spec fn http_scheme() -> Seq<char> {
    seq!['h', 't', 't', 'p', ':', '/', '/']
}

pub open spec fn github_host() -> Seq<char> {
    seq!['g', 'i', 't', 'h', 'u', 'b', '.', 'c', 'o', 'm']
}

pub open spec fn dot_git() -> Seq<char> {
    seq!['.', 'g', 'i', 't']
}

/// The code of `c` after ASCII lower-casing.
pub open spec fn ascii_lower(c: char) -> int {
    if 65 <= (c as u32) <= 90 {
        c as u32 + 32
    } else {
        c as u32 as int
    }
}

/// `str::eq_ignore_ascii_case` against `github.com`.
pub open spec fn is_github_host(host: Seq<char>) -> bool {
    &&& host.len() == github_host().len()
    &&& forall|i: int| 0 <= i < host.len() ==> ascii_lower(host[i]) == github_host()[i] as int
}

/// `str::trim_end_matches('/')`.
pub open spec fn trim_trailing_slashes(s: Seq<char>) -> Seq<char>
    decreases s.len(),
{
    if s.len() > 0 && s.last() == '/' {
        trim_trailing_slashes(s.drop_last())
    } else {
        s
    }
}

/// `s` without one trailing `.git`, if it has one.
pub open spec fn strip_git_suffix(s: Seq<char>) -> Seq<char> {
    if dot_git().is_suffix_of(s) {
        s.take(s.len() - 4)
    } else {
        s
    }
}

/// Host and path of a trimmed remote URL, for the four accepted shapes:
/// `git@host:path`, `ssh://[git@]host/path`, `https://[user@]host/path` and
/// `http://host/path`.
pub open spec fn remote_host_and_path(t: Seq<char>) -> Option<(Seq<char>, Seq<char>)> {
    if git_at().is_prefix_of(t) {
        split_at_first(t.skip(4), ':')
    } else if ssh_scheme().is_prefix_of(t) {
        let rest = t.skip(6);
        let rest = if git_at().is_prefix_of(rest) {
            rest.skip(4)
        } else {
            rest
        };
        split_at_first(rest, '/')
    } else if https_scheme().is_prefix_of(t) {
        let rest = t.skip(8);
        let rest = match split_at_first(rest, '@') {
            Some((_, after)) => after,
            None => rest,
        };
        split_at_first(rest, '/')
    } else if http_scheme().is_prefix_of(t) {
        split_at_first(t.skip(7), '/')
    } else {
        None
    }
}

/// Owner and repository named by a remote URL that points at github.com.
pub open spec fn github_owner_repo(url: Seq<char>) -> Option<(Seq<char>, Seq<char>)> {
    let t = trim(url);
    if t.len() == 0 {
        None
    } else {
        match remote_host_and_path(t) {
            None => None,
            Some((host, path)) => {
                if !is_github_host(host) {
                    None
                } else {
                    let p = strip_git_suffix(trim_trailing_slashes(path));
                    match split_at_first(p, '/') {
                        None => None,
                        Some((owner, repo)) => {
                            if owner.len() == 0 || repo.len() == 0 || repo.contains('/') {
                                None
                            } else {
                                Some((owner, repo))
                            }
                        },
                    }
                }
            },
        }
    }
}

/// `https://github.com/{owner}/{repo}.git`
pub open spec fn https_remote(owner: Seq<char>, repo: Seq<char>) -> Seq<char> {
    https_scheme() + github_host() + seq!['/'] + owner + seq!['/'] + repo + dot_git()
}

/// `git@github.com:{owner}/{repo}.git`
pub open spec fn scp_remote(owner: Seq<char>, repo: Seq<char>) -> Seq<char> {
    git_at() + github_host() + seq![':'] + owner + seq!['/'] + repo + dot_git()
}

/// `ssh://git@github.com/{owner}/{repo}.git`
pub open spec fn ssh_remote(owner: Seq<char>, repo: Seq<char>) -> Seq<char> {
    ssh_scheme() + git_at() + github_host() + seq!['/'] + owner + seq!['/'] + repo + dot_git()
}

/// A non-empty path segment.
pub open spec fn path_name(n: Seq<char>) -> bool {
    n.len() > 0 && !n.contains('/')
}

/// A path segment that an `https` URL also carries unchanged (an `@` would be
/// read as the end of a user name).
pub open spec fn plain_name(n: Seq<char>) -> bool {
    path_name(n) && !n.contains('@')
}

proof fn lemma_trim_unchanged(s: Seq<char>)
    requires
        s.len() > 0,
        !crate::text::is_ws(s[0]),
        !crate::text::is_ws(s.last()),
    ensures
        trim(s) == s,
{
    assert(crate::text::trim_start(s) == s);
    assert(crate::text::trim_end(s) == s);
}

/// Splitting `rest` (in which `c` is preceded by `pre`, free of `c`) at `c`.
proof fn lemma_split_after(pre: Seq<char>, c: char, post: Seq<char>, whole: Seq<char>)
    requires
        !pre.contains(c),
        whole == pre + seq![c] + post,
    ensures
        split_at_first(whole, c) == Some((pre, post)),
{
    crate::text::lemma_split_at_known(pre, c, post);
}

/// The path part `{owner}/{repo}.git` yields the owner and the repository.
proof fn lemma_path_parts(owner: Seq<char>, repo: Seq<char>)
    requires
        path_name(owner),
        path_name(repo),
    ensures
        ({
            let path = owner + seq!['/'] + repo + dot_git();
            let p = strip_git_suffix(trim_trailing_slashes(path));
            &&& p == owner + seq!['/'] + repo
            &&& split_at_first(p, '/') == Some((owner, repo))
        }),
{
    let path = owner + seq!['/'] + repo + dot_git();
    assert(path.last() == 't');
    assert(trim_trailing_slashes(path) == path);
    assert(path.subrange(path.len() - 4, path.len() as int) =~= dot_git());
    assert(dot_git().is_suffix_of(path));
    assert(path.take(path.len() - 4) =~= owner + seq!['/'] + repo);
    lemma_split_after(owner, '/', repo, owner + seq!['/'] + repo);
}

proof fn lemma_host_facts()
    ensures
        !github_host().contains('/'),
        !github_host().contains(':'),
        !github_host().contains('@'),
        is_github_host(github_host()),
{
    let host = github_host();
    assert(!host.contains('/')) by {
        if host.contains('/') {
            let i = choose|i: int| 0 <= i < host.len() && host[i] == '/';
        }
    }
    assert(!host.contains(':')) by {
        if host.contains(':') {
            let i = choose|i: int| 0 <= i < host.len() && host[i] == ':';
        }
    }
    assert(!host.contains('@')) by {
        if host.contains('@') {
            let i = choose|i: int| 0 <= i < host.len() && host[i] == '@';
        }
    }
}

/// Once a URL is known to split into github.com and `{owner}/{repo}.git`,
/// it names that owner and repository.
proof fn lemma_from_host_and_path(u: Seq<char>, owner: Seq<char>, repo: Seq<char>)
    requires
        path_name(owner),
        path_name(repo),
        u.len() > 0,
        !crate::text::is_ws(u[0]),
        !crate::text::is_ws(u.last()),
        remote_host_and_path(u) == Some((github_host(), owner + seq!['/'] + repo + dot_git())),
    ensures
        github_owner_repo(u) == Some((owner, repo)),
{
    lemma_trim_unchanged(u);
    lemma_path_parts(owner, repo);
    lemma_host_facts();
}

/// `https://github.com/{owner}/{repo}.git` names `owner` and `repo`.
pub proof fn lemma_parses_https_shape(owner: Seq<char>, repo: Seq<char>)
    requires
        plain_name(owner),
        plain_name(repo),
    ensures
        github_owner_repo(https_remote(owner, repo)) == Some((owner, repo)),
{
    let path = owner + seq!['/'] + repo + dot_git();
    let host = github_host();
    lemma_host_facts();
    let u = https_remote(owner, repo);
    assert(u[0] == 'h');
    assert(u.last() == 't');
    assert(u[0] != 'g');
    assert(u[0] != 's');
    assert(u.subrange(0, 8) =~= https_scheme());
    let rest = u.skip(8);
    assert(rest =~= host + seq!['/'] + path);
    assert(!rest.contains('@')) by {
        if rest.contains('@') {
            let i = choose|i: int| 0 <= i < rest.len() && rest[i] == '@';
            if i < 10 {
                assert(host[i] == '@');
            } else if i == 10 {
            } else if i < 11 + owner.len() {
                assert(owner[i - 11] == '@');
            } else if i == 11 + owner.len() {
            } else if i < 12 + owner.len() + repo.len() {
                assert(repo[i - 12 - owner.len()] == '@');
            } else {
            }
        }
    }
    crate::text::lemma_split_none(rest, '@');
    lemma_split_after(host, '/', path, rest);
    lemma_from_host_and_path(u, owner, repo);
}

/// `git@github.com:{owner}/{repo}.git` names `owner` and `repo`.
pub proof fn lemma_parses_scp_shape(owner: Seq<char>, repo: Seq<char>)
    requires
        path_name(owner),
        path_name(repo),
    ensures
        github_owner_repo(scp_remote(owner, repo)) == Some((owner, repo)),
{
    let path = owner + seq!['/'] + repo + dot_git();
    let host = github_host();
    lemma_host_facts();
    let u = scp_remote(owner, repo);
    assert(u[0] == 'g');
    assert(u.last() == 't');
    assert(u.subrange(0, 4) =~= git_at());
    assert(u.skip(4) =~= host + seq![':'] + path);
    lemma_split_after(host, ':', path, u.skip(4));
    lemma_from_host_and_path(u, owner, repo);
}

/// `ssh://git@github.com/{owner}/{repo}.git` names `owner` and `repo`.
pub proof fn lemma_parses_ssh_shape(owner: Seq<char>, repo: Seq<char>)
    requires
        path_name(owner),
        path_name(repo),
    ensures
        github_owner_repo(ssh_remote(owner, repo)) == Some((owner, repo)),
{
    let path = owner + seq!['/'] + repo + dot_git();
    let host = github_host();
    lemma_host_facts();
    let u = ssh_remote(owner, repo);
    assert(u[0] == 's');
    assert(u.last() == 't');
    assert(u[0] != 'g');
    assert(u.subrange(0, 6) =~= ssh_scheme());
    let rest = u.skip(6);
    assert(rest.subrange(0, 4) =~= git_at());
    assert(rest.skip(4) =~= host + seq!['/'] + path);
    lemma_split_after(host, '/', path, rest.skip(4));
    lemma_from_host_and_path(u, owner, repo);
}

/// What a successful parse returns is an owner and a repository that are
/// both non-empty single path segments.
pub proof fn lemma_parsed_parts_are_segments(url: Seq<char>)
    ensures
        github_owner_repo(url) matches Some((owner, repo)) ==> path_name(owner) && path_name(repo),
{
    if let Some((owner, repo)) = github_owner_repo(url) {
        let t = trim(url);
        let (host, path) = remote_host_and_path(t)->0;
        let p = strip_git_suffix(trim_trailing_slashes(path));
        let i = choose|i: int| crate::text::is_first_index(p, '/', i);
        assert(owner == p.take(i));
        assert(!owner.contains('/')) by {
            if owner.contains('/') {
                let k = choose|k: int| 0 <= k < owner.len() && owner[k] == '/';
                assert(p[k] == '/');
            }
        }
    }
}

/// `https://github.com/{owner}/{repo}`, without `.git`.
pub open spec fn https_remote_plain(owner: Seq<char>, repo: Seq<char>) -> Seq<char> {
    https_scheme() + github_host() + seq!['/'] + owner + seq!['/'] + repo
}

/// Without a `.git` suffix the repository name comes back whole, dots and
/// all (`vercel/next.js` stays `next.js`): only a literal trailing `.git` is
/// ever removed from the path.
pub proof fn lemma_parses_https_shape_without_suffix(owner: Seq<char>, repo: Seq<char>)
    requires
        plain_name(owner),
        plain_name(repo),
        !crate::text::is_ws(repo.last()),
        !(repo.len() >= 4 && repo.subrange(repo.len() - 4, repo.len() as int) == seq![
            '.',
            'g',
            'i',
            't',
        ]),
    ensures
        github_owner_repo(https_remote_plain(owner, repo)) == Some((owner, repo)),
{
    let path = owner + seq!['/'] + repo;
    let host = github_host();
    lemma_host_facts();
    let u = https_remote_plain(owner, repo);
    assert(u[0] == 'h');
    assert(u.last() == repo.last());
    lemma_trim_unchanged(u);
    assert(u[0] != 'g');
    assert(u[0] != 's');
    assert(u.subrange(0, 8) =~= https_scheme());
    let rest = u.skip(8);
    assert(rest =~= host + seq!['/'] + path);
    assert(!rest.contains('@')) by {
        if rest.contains('@') {
            let i = choose|i: int| 0 <= i < rest.len() && rest[i] == '@';
            if i < 10 {
                assert(host[i] == '@');
            } else if i == 10 {
            } else if i < 11 + owner.len() {
                assert(owner[i - 11] == '@');
            } else if i == 11 + owner.len() {
            } else {
                assert(repo[i - 12 - owner.len()] == '@');
            }
        }
    }
    crate::text::lemma_split_none(rest, '@');
    lemma_split_after(host, '/', path, rest);
    assert(remote_host_and_path(u) == Some((host, path)));
    assert(path.last() == repo.last());
    assert(repo.last() != '/') by {
        assert(repo[repo.len() - 1] == repo.last());
    }
    assert(trim_trailing_slashes(path) == path);
    assert(!dot_git().is_suffix_of(path)) by {
        if dot_git().is_suffix_of(path) {
            if repo.len() >= 4 {
                assert(repo.subrange(repo.len() - 4, repo.len() as int) =~= path.subrange(
                    path.len() - 4,
                    path.len() as int,
                ));
            } else {
                let k = path.len() - 4 + (3 - repo.len());
                assert(path[k] == '/');
                assert(dot_git()[3 - repo.len()] == path[k]);
            }
        }
    }
    assert(strip_git_suffix(path) == path);
    lemma_split_after(owner, '/', repo, path);
}

pub open spec fn pair_view(res: Option<(String, String)>) -> Option<(Seq<char>, Seq<char>)> {
    match res {
        Some((a, b)) => Some((a@, b@)),
        None => None,
    }
}

/// Host start and separator position of `v[lo..hi]` (already trimmed and
/// non-empty), as `remote_host_and_path` splits it.
fn host_and_path_range(v: &Vec<char>, lo: usize, hi: usize) -> (res: Option<(usize, usize)>)
    requires
        lo <= hi <= v.len(),
    ensures
        match res {
            Some((a, k)) => {
                &&& lo <= a <= k < hi
                &&& remote_host_and_path(v@.subrange(lo as int, hi as int)) == Some(
                    (v@.subrange(a as int, k as int), v@.subrange(k + 1, hi as int)),
                )
            },
            None => remote_host_and_path(v@.subrange(lo as int, hi as int)) is None,
        },
{
    let ghost t = v@.subrange(lo as int, hi as int);
    let git_at_pat: [char; 4] = ['g', 'i', 't', '@'];
    let ssh_pat: [char; 6] = ['s', 's', 'h', ':', '/', '/'];
    let https_pat: [char; 8] = ['h', 't', 't', 'p', 's', ':', '/', '/'];
    let http_pat: [char; 7] = ['h', 't', 't', 'p', ':', '/', '/'];
    assert(git_at_pat@ =~= git_at());
    assert(ssh_pat@ =~= ssh_scheme());
    assert(https_pat@ =~= https_scheme());
    assert(http_pat@ =~= http_scheme());
    if has_prefix(v, lo, hi, &git_at_pat) {
        let a = lo + 4;
        assert(t.skip(4) =~= v@.subrange(a as int, hi as int));
        match find_char(v, a, hi, ':') {
            Some(k) => Some((a, k)),
            None => None,
        }
    } else if has_prefix(v, lo, hi, &ssh_pat) {
        let mut a = lo + 6;
        assert(t.skip(6) =~= v@.subrange(a as int, hi as int));
        if has_prefix(v, a, hi, &git_at_pat) {
            assert(v@.subrange(a as int, hi as int).skip(4) =~= v@.subrange(a + 4, hi as int));
            a = a + 4;
        }
        match find_char(v, a, hi, '/') {
            Some(k) => Some((a, k)),
            None => None,
        }
    } else if has_prefix(v, lo, hi, &https_pat) {
        let a0 = lo + 8;
        assert(t.skip(8) =~= v@.subrange(a0 as int, hi as int));
        let a = match find_char(v, a0, hi, '@') {
            Some(k) => k + 1,
            None => a0,
        };
        match find_char(v, a, hi, '/') {
            Some(k) => Some((a, k)),
            None => None,
        }
    } else if has_prefix(v, lo, hi, &http_pat) {
        let a = lo + 7;
        assert(t.skip(7) =~= v@.subrange(a as int, hi as int));
        match find_char(v, a, hi, '/') {
            Some(k) => Some((a, k)),
            None => None,
        }
    } else {
        None
    }
}

/// Whether `v[lo..hi]` equals `github.com`, ignoring ASCII case.
fn is_github_host_range(v: &Vec<char>, lo: usize, hi: usize) -> (res: bool)
    requires
        lo <= hi <= v.len(),
    ensures
        res == is_github_host(v@.subrange(lo as int, hi as int)),
{
    let host: [char; 10] = ['g', 'i', 't', 'h', 'u', 'b', '.', 'c', 'o', 'm'];
    assert(host@ =~= github_host());
    if hi - lo != 10 {
        return false;
    }
    let mut i: usize = 0;
    while i < 10
        invariant
            lo <= hi <= v.len(),
            hi - lo == 10,
            host@ == github_host(),
            0 <= i <= 10,
            forall|j: int| 0 <= j < i ==> ascii_lower(v@[lo + j]) == github_host()[j] as int,
        decreases 10 - i,
    {
        let c = v[lo + i];
        let u = c as u32;
        let lowered = if 65 <= u && u <= 90 {
            u + 32
        } else {
            u
        };
        if lowered != host[i] as u32 {
            assert(ascii_lower(v@.subrange(lo as int, hi as int)[i as int]) != github_host()[i as int] as int);
            return false;
        }
        i = i + 1;
    }
    true
}

/// End of `trim_trailing_slashes(v[lo..hi])`.
fn trim_trailing_slashes_range(v: &Vec<char>, lo: usize, hi: usize) -> (res: usize)
    requires
        lo <= hi <= v.len(),
    ensures
        lo <= res <= hi,
        v@.subrange(lo as int, res as int) == trim_trailing_slashes(
            v@.subrange(lo as int, hi as int),
        ),
{
    let mut e = hi;
    while e > lo && v[e - 1] == '/'
        invariant
            lo <= e <= hi <= v.len(),
            trim_trailing_slashes(v@.subrange(lo as int, hi as int)) == trim_trailing_slashes(
                v@.subrange(lo as int, e as int),
            ),
        decreases e - lo,
    {
        assert(v@.subrange(lo as int, e as int).drop_last() =~= v@.subrange(lo as int, e - 1));
        e = e - 1;
    }
    e
}

/// End of `strip_git_suffix(v[lo..hi])`.
fn strip_git_suffix_range(v: &Vec<char>, lo: usize, hi: usize) -> (res: usize)
    requires
        lo <= hi <= v.len(),
    ensures
        lo <= res <= hi,
        v@.subrange(lo as int, res as int) == strip_git_suffix(v@.subrange(lo as int, hi as int)),
{
    let ghost s = v@.subrange(lo as int, hi as int);
    let pat: [char; 4] = ['.', 'g', 'i', 't'];
    assert(pat@ =~= dot_git());
    if hi - lo >= 4 && has_prefix(v, hi - 4, hi, &pat) {
        assert(s.subrange(s.len() - 4, s.len() as int) =~= v@.subrange(hi - 4, hi as int));
        assert(s.take(s.len() - 4) =~= v@.subrange(lo as int, hi - 4));
        hi - 4
    } else {
        proof {
            if dot_git().is_suffix_of(s) {
                assert(s.subrange(s.len() - 4, s.len() as int) =~= v@.subrange(hi - 4, hi as int));
                assert(dot_git() =~= v@.subrange(hi - 4, hi as int).subrange(0, 4));
            }
        }
        hi
    }
}

/// Parses a git remote URL and returns `Some((owner, repo))` when it points
/// at github.com; `None` for any other host or a malformed URL.
pub fn parse_github_remote(url: &str) -> (res: Option<(String, String)>)
    ensures
        pair_view(res) == github_owner_repo(url@),
{
    let v = chars_of(url);
    let (lo, hi) = trim_range(&v, 0, v.len());
    assert(v@.subrange(0, v@.len() as int) =~= url@);
    if lo == hi {
        return None;
    }
    let (a, k) = match host_and_path_range(&v, lo, hi) {
        Some(p) => p,
        None => return None,
    };
    if !is_github_host_range(&v, a, k) {
        return None;
    }
    let e1 = trim_trailing_slashes_range(&v, k + 1, hi);
    let e = strip_git_suffix_range(&v, k + 1, e1);
    let j = match find_char(&v, k + 1, e, '/') {
        Some(j) => j,
        None => return None,
    };
    if j == k + 1 || j + 1 == e || contains_char(&v, j + 1, e, '/') {
        return None;
    }
    let owner = string_from_range(&v, k + 1, j);
    let repo = string_from_range(&v, j + 1, e);
    Some((owner, repo))
}

} // verus!
