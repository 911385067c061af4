use claude_log_viewer::analytics::matches_pattern;

#[test]
fn test_pattern_matching() {
    assert!(matches_pattern("/path/to/.env", ".env"));
    assert!(matches_pattern("/path/to/.env", "*.env"));
    assert!(matches_pattern("/path/to/.env", ".env*"));
    assert!(matches_pattern("/path/to/.env", "*/.env"));
    assert!(!matches_pattern("/path/to/file.rs", ".env"));
}

#[test]
fn test_glob_patterns() {
    assert!(matches_pattern("/Users/foo/.aws/config", "*.aws/*"));
    assert!(matches_pattern("/Users/foo/.aws/config", "~/.aws/*"));
    assert!(matches_pattern("/path/to/.zshrc", "*.zshrc"));
}

#[test]
fn star_alone_matches_every_path() {
    assert!(matches_pattern("/any/path/at/all.txt", "*"));
    assert!(matches_pattern("", "*"));
}

#[test]
fn bracketed_pattern_asks_for_a_substring() {
    assert!(matches_pattern("/home/me/project/secrets/key.pem", "*secrets*"));
    assert!(!matches_pattern("/home/me/project/public/key.pem", "*secrets*"));
}

#[test]
fn two_stars_alone_need_a_longer_pattern_to_be_a_substring() {
    // "**" is not longer than two bytes, so it is read as a suffix pattern "*".
    assert!(matches_pattern("/path/ends/with/star*", "**"));
    assert!(!matches_pattern("/path/without/it", "**"));
}

#[test]
fn leading_star_asks_for_a_suffix() {
    assert!(matches_pattern("/src/main.rs", "*.rs"));
    assert!(!matches_pattern("/src/main.rs.bak", "*.rs"));
}

#[test]
fn trailing_star_asks_for_a_prefix_of_a_component() {
    assert!(matches_pattern("/etc/hosts", "/etc*"));
    assert!(matches_pattern("/repo/.github/workflows/ci.yml", ".git*"));
    assert!(!matches_pattern("/repo/my.github/x", ".github*"));
}

#[test]
fn inner_star_asks_for_prefix_and_suffix() {
    assert!(matches_pattern("/repo/src/lib.rs", "/repo*.rs"));
    assert!(!matches_pattern("/repo/src/lib.py", "/repo*.rs"));
    assert!(!matches_pattern("/repo/src/lib.rs", "src*.rs"));
}

#[test]
fn pattern_without_star_is_a_plain_substring() {
    assert!(!matches_pattern("/.zshrc", "~/.zshrc"));
    assert!(matches_pattern("/x/~/.zshrc", "~/.zshrc"));
}

#[test]
fn several_stars_ask_for_every_piece() {
    assert!(matches_pattern("/a/b/c/d", "a*c*d"));
    assert!(!matches_pattern("/a/b/x/d", "a*c*d"));
}

#[test]
fn home_prefix_stands_for_any_leading_directories() {
    assert!(matches_pattern("/home/someone/.ssh/id_rsa", "~/.ssh/*"));
    assert!(!matches_pattern("/home/someone/.config/x", "~/.ssh/*"));
}
