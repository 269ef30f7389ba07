use forkfeatures::auth::{clean_token, resolve_token_from};

#[test]
fn tokens_are_trimmed_and_blank_ones_dropped() {
    assert_eq!(clean_token("  gho_abc\n"), Some("gho_abc".to_string()));
    assert_eq!(clean_token(" \t\n"), None);
    assert_eq!(clean_token(""), None);
}

#[test]
fn cli_token_wins_over_environment() {
    assert_eq!(resolve_token_from(Some("cli\n"), Some("env")), Some("cli".to_string()));
    assert_eq!(resolve_token_from(Some("   "), Some(" env ")), Some("env".to_string()));
    assert_eq!(resolve_token_from(None, Some("env")), Some("env".to_string()));
    assert_eq!(resolve_token_from(None, Some("  ")), None);
    assert_eq!(resolve_token_from(None, None), None);
}
