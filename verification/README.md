# forkfeatures

Verified logic of two editor features, written in Verus.

- `src/remote.rs` recognises github.com remotes in git remote URLs.
- `src/github.rs` builds the pull-request query, picks the most recently
  updated pull request, names its status, and orders the queries.
- `src/auth.rs` chooses the GitHub token from the CLI and the environment.
- `src/state.rs` is the indicator's cache, the triple on screen, and the
  refresh schedule.
- `src/switcher.rs` and `src/row.rs` are the thread switcher's filtering,
  ordering, search texts, selection and row layout rules.
- `src/text.rs` holds the character-level helpers they share.

`app/` is the editor glue (UI, HTTP, processes) around the library.
