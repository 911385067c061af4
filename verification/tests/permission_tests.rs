use claude_log_viewer::settings::{choose_settings_file, Permission, SettingsFile};

#[test]
fn test_parse_bash_permission() {
    let perm = Permission::parse("Bash(cargo build:*)");
    assert_eq!(perm, Permission::Bash("cargo build:*".to_string()));
    assert_eq!(perm.tool_name(), "Bash");
    assert_eq!(perm.pattern(), Some("cargo build:*"));
}

#[test]
fn test_parse_webfetch_permission() {
    let perm = Permission::parse("WebFetch(domain:example.com)");
    assert_eq!(perm, Permission::WebFetch("domain:example.com".to_string()));
}

#[test]
fn test_parse_websearch_permission() {
    let perm = Permission::parse("WebSearch");
    assert_eq!(perm, Permission::WebSearch);
    assert_eq!(perm.pattern(), None);
}

#[test]
fn test_parse_generic_tool() {
    let perm = Permission::parse("Read(*.env)");
    assert!(matches!(perm, Permission::Tool { .. }));
}

#[test]
fn generic_tool_keeps_name_and_pattern() {
    let perm = Permission::parse("Read(*.env)");
    assert_eq!(perm, Permission::Tool { name: "Read".to_string(), pattern: "*.env".to_string() });
    assert_eq!(perm.tool_name(), "Read");
    assert_eq!(perm.pattern(), Some("*.env"));
}

#[test]
fn string_without_parenthesis_is_simple() {
    let perm = Permission::parse("mcp__server__tool");
    assert_eq!(perm, Permission::Simple("mcp__server__tool".to_string()));
    assert_eq!(perm.tool_name(), "mcp__server__tool");
    assert_eq!(perm.pattern(), None);
}

#[test]
fn open_parenthesis_without_close_is_simple() {
    let perm = Permission::parse("Bash(unclosed");
    assert_eq!(perm, Permission::Simple("Bash(unclosed".to_string()));
}

#[test]
fn pattern_runs_from_first_open_to_last_close() {
    let perm = Permission::parse("Bash(echo (a) b)");
    assert_eq!(perm, Permission::Bash("echo (a) b".to_string()));
}

#[test]
fn close_before_open_cannot_be_parsed() {
    assert!(!Permission::can_parse(")a("));
    assert!(Permission::can_parse("Bash(ls)"));
    assert!(Permission::can_parse("WebSearch"));
}

#[test]
fn text_round_trips_through_parse() {
    for s in ["Bash(cargo build:*)", "WebFetch(domain:x.org)", "WebSearch", "Read(*.env)", "Simple", "Edit(unclosed"] {
        let p = Permission::parse(s);
        let text = p.to_string();
        assert_eq!(Permission::parse(&text), p);
    }
    assert_eq!(Permission::parse("Read(*.env)").to_string(), "Read(*.env)");
    assert_eq!(Permission::WebSearch.to_string(), "WebSearch");
}

#[test]
fn local_settings_file_comes_first() {
    assert_eq!(choose_settings_file(true, true), Some(SettingsFile::Local));
    assert_eq!(choose_settings_file(false, true), Some(SettingsFile::Shared));
    assert_eq!(choose_settings_file(false, false), None);
}

#[test]
fn permission_text_parses_back() {
    let perms = vec![
        Permission::Bash("echo (a) b".to_string()),
        Permission::WebFetch("domain:x.org".to_string()),
        Permission::WebSearch,
        Permission::Tool { name: "Edit".to_string(), pattern: "src/**".to_string() },
        Permission::Simple("mcp__tool".to_string()),
        Permission::Simple("half(open".to_string()),
    ];
    for p in perms {
        assert_eq!(Permission::parse(&p.to_string()), p);
    }
    // A simple permission named like a tool call does not parse back.
    assert_ne!(Permission::parse(&Permission::Simple("Read(x)".to_string()).to_string()), Permission::Simple("Read(x)".to_string()));
}

#[test]
fn parsed_string_writes_back() {
    for s in ["Bash(cargo build:*)", "Read(*.env)", "WebSearch", "plain", "X()", "Tool(a(b)c)"] {
        assert_eq!(Permission::parse(s).to_string(), s);
    }
}
