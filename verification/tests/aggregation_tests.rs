use claude_log_viewer::settings::{aggregate_projects, Permission, PermissionAggregation, Permissions, ProjectSettings};

fn settings(mcp: bool, allow: &[&str], deny: &[&str], ask: &[&str]) -> ProjectSettings {
    let v = |s: &[&str]| s.iter().map(|x| x.to_string()).collect::<Vec<String>>();
    ProjectSettings {
        enable_all_project_mcp_servers: mcp,
        permissions: Permissions { allow: v(allow), deny: v(deny), ask: v(ask) },
    }
}

fn sample() -> PermissionAggregation {
    let mut agg = PermissionAggregation::new();
    let a = settings(true, &["Bash(cargo build:*)", "WebSearch", "Read(*.rs)"], &[], &[]);
    let b = settings(false, &["Bash(cargo build:*)", "Bash(ls)"], &["Read(.env)"], &[]);
    let c = settings(false, &["WebSearch", "Bash(cargo build:*)"], &[], &["Bash(rm:*)"]);
    assert!(PermissionAggregation::can_add(&a));
    agg.add_project("alpha".to_string(), &a);
    agg.add_project("beta".to_string(), &b);
    agg.add_project("gamma".to_string(), &c);
    agg
}

#[test]
fn top_allowed_most_projects_first() {
    let agg = sample();
    let top = agg.top_allowed(10);
    assert_eq!(
        top,
        vec![
            (Permission::Bash("cargo build:*".to_string()), 3),
            (Permission::WebSearch, 2),
            (Permission::Tool { name: "Read".to_string(), pattern: "*.rs".to_string() }, 1),
            (Permission::Bash("ls".to_string()), 1),
        ]
    );
    assert_eq!(agg.top_allowed(1).len(), 1);
}

#[test]
fn top_denied_lists_denials() {
    let agg = sample();
    assert_eq!(
        agg.top_denied(10),
        vec![(Permission::Tool { name: "Read".to_string(), pattern: ".env".to_string() }, 1)]
    );
}

#[test]
fn projects_of_a_permission() {
    let agg = sample();
    let slot = agg
        .allow_map
        .iter()
        .find(|(p, _)| *p == Permission::Bash("cargo build:*".to_string()))
        .unwrap();
    assert_eq!(slot.1, vec!["alpha".to_string(), "beta".to_string(), "gamma".to_string()]);
    assert_eq!(agg.allowed_count(&Permission::WebSearch), 2);
    assert_eq!(agg.allowed_count(&Permission::Simple("Nope".to_string())), 0);
}

#[test]
fn total_projects_counts_each_project_once() {
    let agg = sample();
    assert_eq!(agg.total_projects(), 3);
    let mut empty = PermissionAggregation::new();
    assert_eq!(empty.total_projects(), 0);
    empty.add_project("bare".to_string(), &settings(true, &[], &[], &[]));
    assert_eq!(empty.total_projects(), 1);
    assert_eq!(empty.mcp_enabled_projects, vec!["bare".to_string()]);
    empty.add_project("plain".to_string(), &settings(false, &[], &[], &[]));
    assert_eq!(empty.total_projects(), 2);
}

#[test]
fn project_added_again_counts_once() {
    let mut agg = PermissionAggregation::new();
    agg.add_project("alpha".to_string(), &settings(false, &["WebSearch"], &[], &[]));
    agg.add_project("alpha".to_string(), &settings(false, &[], &["Bash(rm:*)"], &[]));
    agg.add_project("beta".to_string(), &settings(false, &[], &[], &[]));
    assert_eq!(agg.total_projects(), 2);
    assert_eq!(agg.projects, vec!["alpha".to_string(), "alpha".to_string(), "beta".to_string()]);
}

#[test]
fn repeated_permission_keeps_one_slot() {
    let mut agg = PermissionAggregation::new();
    agg.add_project("a".to_string(), &settings(false, &["WebSearch", "WebSearch"], &[], &[]));
    assert_eq!(agg.allow_map.len(), 1);
    assert_eq!(agg.top_allowed(10), vec![(Permission::WebSearch, 2)]);
}

#[test]
fn mcp_projects_and_wildcards() {
    let agg = sample();
    assert_eq!(agg.mcp_enabled_projects, vec!["alpha".to_string()]);
    assert_eq!(agg.wildcard_bash_count(), 1);
    assert_eq!(agg.ask_map.len(), 1);
}

#[test]
fn unparsable_permission_is_refused() {
    assert!(!PermissionAggregation::can_add(&settings(false, &[")x("], &[], &[])));
    assert!(!PermissionAggregation::can_add(&settings(false, &[], &[], &["a)b(c"])));
}

#[test]
fn aggregate_projects_adds_each_in_order() {
    let projects = vec![
        ("alpha".to_string(), settings(true, &["Bash(cargo build:*)", "WebSearch"], &[], &[])),
        ("beta".to_string(), settings(false, &["Bash(cargo build:*)"], &["Read(.env)"], &[])),
        ("gamma".to_string(), settings(false, &[], &[], &[])),
    ];
    let agg = aggregate_projects(&projects);
    assert_eq!(agg.total_projects(), 3);
    assert_eq!(agg.projects, vec!["alpha".to_string(), "beta".to_string(), "gamma".to_string()]);
    assert_eq!(agg.mcp_enabled_projects, vec!["alpha".to_string()]);
    assert_eq!(agg.top_allowed(10), vec![(Permission::Bash("cargo build:*".to_string()), 2), (Permission::WebSearch, 1)]);
    assert_eq!(agg.top_denied(10).len(), 1);
}
