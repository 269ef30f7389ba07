//! Choosing the GitHub token: the GitHub CLI's stored token first, then the
//! `GITHUB_TOKEN` environment variable.
use vstd::prelude::*;

use crate::text::{chars_of, is_ws, lemma_trim_idempotent, string_from_range, trim, trim_range};

verus! {

/// A token candidate with surrounding whitespace removed; nothing when that
/// leaves it empty.
pub open spec fn cleaned(raw: Seq<char>) -> Option<Seq<char>> {
    if trim(raw).len() > 0 {
        Some(trim(raw))
    } else {
        None
    }
}

pub open spec fn opt_str_view(s: Option<&str>) -> Option<Seq<char>> {
    match s {
        Some(x) => Some(x@),
        None => None,
    }
}

pub open spec fn opt_string_view(s: Option<String>) -> Option<Seq<char>> {
    match s {
        Some(x) => Some(x@),
        None => None,
    }
}

/// The token chosen from the two sources: the CLI's, when it has one, else
/// the environment's.
pub open spec fn chosen_token(cli: Option<Seq<char>>, env: Option<Seq<char>>) -> Option<
    Seq<char>,
> {
    let from_cli = match cli {
        Some(raw) => cleaned(raw),
        None => None,
    };
    match from_cli {
        Some(t) => Some(t),
        None => match env {
            Some(raw) => cleaned(raw),
            None => None,
        },
    }
}

/// `raw` trimmed, or `None` when only whitespace remains.
pub fn clean_token(raw: &str) -> (res: Option<String>)
    ensures
        opt_string_view(res) == cleaned(raw@),
{
    let v = chars_of(raw);
    let (lo, hi) = trim_range(&v, 0, v.len());
    assert(v@.subrange(0, v@.len() as int) =~= raw@);
    if lo == hi {
        None
    } else {
        Some(string_from_range(&v, lo, hi))
    }
}

/// Resolves the token from what the two sources gave: `cli_stdout` is the
/// output of `gh auth token` when the command succeeded and printed UTF-8,
/// `env_token` the value of `GITHUB_TOKEN` when it is set. `None` when
/// neither yields a non-blank token.
pub fn resolve_token_from(cli_stdout: Option<&str>, env_token: Option<&str>) -> (res: Option<
    String,
>)
    ensures
        opt_string_view(res) == chosen_token(opt_str_view(cli_stdout), opt_str_view(env_token)),
{
    if let Some(out) = cli_stdout {
        if let Some(token) = clean_token(out) {
            return Some(token);
        }
    }
    match env_token {
        Some(raw) => clean_token(raw),
        None => None,
    }
}

/// A resolved token is never blank and never has whitespace around it, and
/// the environment is only consulted when the CLI gives no usable token.
pub proof fn lemma_resolved_token_is_clean(cli: Option<Seq<char>>, env: Option<Seq<char>>)
    ensures
        chosen_token(cli, env) matches Some(t) ==> t.len() > 0 && trim(t) == t && !is_ws(t[0])
            && !is_ws(t.last()),
        (cli matches Some(raw) && cleaned(raw) is Some) ==> chosen_token(cli, env) == cleaned(
            cli->0,
        ),
{
    if let Some(raw) = cli {
        lemma_trim_idempotent(raw);
    }
    if let Some(raw) = env {
        lemma_trim_idempotent(raw);
    }
}

} // verus!
