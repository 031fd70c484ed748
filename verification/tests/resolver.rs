use jx::dependency::{Dependency, Exclusion};
use jx::metadata::{MetadataSource, MetadataTable, OfflineSource};
use jx::resolve::{ConflictType, DependencyResolver, DependencyTreeNode, ResolveError};

fn keys(list: &[Dependency]) -> Vec<String> {
    list.iter().map(|d| d.coordinate()).collect()
}

#[test]
fn resolves_single_dependency_without_metadata() {
    let table = MetadataTable::new();
    let mut resolver = DependencyResolver::new();
    let specs = vec![Dependency::new("g", "a", "1.0")];
    let resolved = resolver.resolve_dependencies(&specs, &table).unwrap();
    assert_eq!(keys(&resolved), vec!["g:a:1.0".to_string()]);
    assert_eq!(resolver.len(), 1);
    assert_eq!(resolver.last_lookups(), 1);
}

#[test]
fn diamond_dependency_is_resolved_once() {
    let mut table = MetadataTable::new();
    table.insert("g", "a", Some("1.0"), vec![Dependency::new("x", "y", "1.0")]);
    table.insert("g", "b", Some("1.0"), vec![Dependency::new("x", "y", "1.0")]);
    let mut resolver = DependencyResolver::new();
    let specs = vec![Dependency::new("g", "a", "1.0"), Dependency::new("g", "b", "1.0")];
    let resolved = resolver.resolve_dependencies(&specs, &table).unwrap();
    assert_eq!(
        keys(&resolved),
        vec!["x:y:1.0".to_string(), "g:a:1.0".to_string(), "g:b:1.0".to_string()]
    );
    assert_eq!(resolver.last_lookups(), 3);
    assert_eq!(
        resolver.last_asked(),
        &vec!["g:a:1.0".to_string(), "x:y:1.0".to_string(), "g:b:1.0".to_string()]
    );
}

#[test]
fn cycle_is_an_error_and_leaves_the_memo_alone() {
    let mut table = MetadataTable::new();
    table.insert("g", "a", Some("1.0"), vec![Dependency::new("g", "b", "1.0")]);
    table.insert("g", "b", Some("1.0"), vec![Dependency::new("g", "a", "1.0")]);
    let mut resolver = DependencyResolver::new();
    let first = vec![Dependency::new("g", "c", "1.0")];
    resolver.resolve_dependencies(&first, &table).unwrap();
    let specs = vec![Dependency::new("g", "d", "1.0"), Dependency::new("g", "a", "1.0")];
    match resolver.resolve_dependencies(&specs, &table) {
        Err(ResolveError::Cycle(key)) => assert_eq!(key, "g:a:1.0"),
        other => panic!("expected a cycle, got {:?}", other.map(|l| keys(&l))),
    }
    assert_eq!(resolver.get_resolution_order(), vec!["g:c:1.0".to_string()]);
}

#[test]
fn exclusion_prunes_the_branch_only() {
    let mut table = MetadataTable::new();
    table.insert("g", "a", Some("1.0"), vec![Dependency::new("g", "x", "1.0")]);
    table.insert("g", "x", Some("1.0"), vec![Dependency::new("g", "z", "1.0")]);
    table.insert("g", "b", Some("1.0"), vec![Dependency::new("g", "x", "1.0")]);
    let excluding = Dependency::new("g", "a", "1.0").with_exclusions(vec![Exclusion {
        group_id: "g".to_string(),
        artifact_id: "x".to_string(),
    }]);
    let mut resolver = DependencyResolver::new();
    let resolved = resolver.resolve_dependencies(&[excluding.clone()], &table).unwrap();
    assert_eq!(keys(&resolved), vec!["g:a:1.0".to_string()]);

    let mut resolver = DependencyResolver::new();
    let specs = vec![excluding, Dependency::new("g", "b", "1.0")];
    let resolved = resolver.resolve_dependencies(&specs, &table).unwrap();
    assert_eq!(
        keys(&resolved),
        vec![
            "g:a:1.0".to_string(),
            "g:z:1.0".to_string(),
            "g:x:1.0".to_string(),
            "g:b:1.0".to_string()
        ]
    );
}

#[test]
fn version_conflict_is_reported_and_not_fatal() {
    let table = MetadataTable::new();
    let mut resolver = DependencyResolver::new();
    let specs = vec![Dependency::new("a", "b", "1.0"), Dependency::new("a", "b", "2.0")];
    let resolved = resolver.resolve_dependencies(&specs, &table).unwrap();
    assert_eq!(resolved.len(), 2);
    let conflicts = resolver.detect_conflicts();
    assert_eq!(conflicts.len(), 1);
    assert_eq!(conflicts[0].group_id, "a");
    assert_eq!(conflicts[0].artifact_id, "b");
    assert_eq!(conflicts[0].versions, vec!["1.0".to_string(), "2.0".to_string()]);
    assert_eq!(conflicts[0].conflict_type, ConflictType::VersionConflict);
}

#[test]
fn unavailable_metadata_is_a_timeout() {
    let mut table = MetadataTable::new();
    table.insert("g", "a", Some("1.0"), vec![Dependency::new("g", "b", "1.0")]);
    table.insert_unavailable("g", "b", "1.0");
    let mut resolver = DependencyResolver::new();
    match resolver.resolve_dependencies(&[Dependency::new("g", "a", "1.0")], &table) {
        Err(ResolveError::MetadataTimeout(key)) => assert_eq!(key, "g:b:1.0"),
        other => panic!("expected a timeout, got {:?}", other.map(|l| keys(&l))),
    }
    assert_eq!(resolver.len(), 0);
}

#[test]
fn resolving_twice_changes_nothing() {
    let mut table = MetadataTable::new();
    table.insert("g", "a", Some("1.0"), vec![Dependency::new("g", "b", "1.0")]);
    table.insert("g", "b", Some("1.0"), vec![Dependency::new("g", "c", "1.0")]);
    let specs = vec![Dependency::new("g", "a", "1.0")];
    let mut resolver = DependencyResolver::new();
    let first = resolver.resolve_dependencies(&specs, &table).unwrap();
    assert_eq!(resolver.last_lookups(), 3);
    let order = resolver.get_resolution_order();
    let second = resolver.resolve_dependencies(&specs, &table).unwrap();
    assert_eq!(keys(&first), keys(&second));
    assert_eq!(resolver.get_resolution_order(), order);
    assert_eq!(resolver.last_lookups(), 0);

    let mut fresh = DependencyResolver::new();
    let third = fresh.resolve_dependencies(&specs, &table).unwrap();
    assert_eq!(keys(&first), keys(&third));
}

#[test]
fn result_holds_what_the_specs_require_and_no_more() {
    let mut table = MetadataTable::new();
    table.insert("g", "a", Some("1.0"), vec![Dependency::new("g", "b", "1.0")]);
    table.insert("g", "c", Some("1.0"), vec![Dependency::new("g", "d", "1.0")]);
    let mut resolver = DependencyResolver::new();
    resolver.resolve_dependencies(&[Dependency::new("g", "c", "1.0")], &table).unwrap();
    let resolved = resolver.resolve_dependencies(&[Dependency::new("g", "a", "1.0")], &table).unwrap();
    assert_eq!(keys(&resolved), vec!["g:b:1.0", "g:a:1.0"]);
    assert_eq!(resolver.len(), 4);
    let earlier = resolver.resolve_dependencies(&[Dependency::new("g", "c", "1.0")], &table).unwrap();
    assert_eq!(keys(&earlier), vec!["g:d:1.0", "g:c:1.0"]);
    assert_eq!(
        keys(&resolver.closure_of(&vec!["g:b:1.0".to_string(), "g:c:1.0".to_string()])),
        vec!["g:d:1.0", "g:c:1.0", "g:b:1.0"]
    );
}

#[test]
fn order_puts_requirements_first() {
    let mut table = MetadataTable::new();
    table.insert("g", "a", Some("1.0"), vec![Dependency::new("g", "b", "1.0")]);
    let mut resolver = DependencyResolver::new();
    resolver.resolve_dependencies(&[Dependency::new("g", "a", "1.0")], &table).unwrap();
    let order = resolver.get_resolution_order();
    let a = order.iter().position(|k| k == "g:a:1.0").unwrap();
    let b = order.iter().position(|k| k == "g:b:1.0").unwrap();
    assert!(b < a);
    assert_eq!(order, vec!["g:b:1.0", "g:a:1.0"]);
}

#[test]
fn wildcard_entries_answer_for_every_version() {
    let mut table = MetadataTable::new();
    table.insert("g", "a", Some("2.0"), vec![Dependency::new("g", "two", "1")]);
    table.insert("g", "a", None, vec![Dependency::new("g", "any", "1")]);
    assert_eq!(table.len(), 2);
    let listed = table.transitive_of(&Dependency::new("g", "a", "2.0")).unwrap();
    assert_eq!(keys(&listed), vec!["g:two:1"]);
    let listed = table.transitive_of(&Dependency::new("g", "a", "3.0")).unwrap();
    assert_eq!(keys(&listed), vec!["g:any:1"]);
    assert!(table.transitive_of(&Dependency::new("g", "b", "1")).unwrap().is_empty());
}

#[test]
fn self_requirement_is_a_cycle() {
    let mut table = MetadataTable::new();
    table.insert("g", "a", None, vec![Dependency::new("g", "a", "1.0")]);
    let mut resolver = DependencyResolver::new();
    match resolver.resolve_dependencies(&[Dependency::new("g", "a", "1.0")], &table) {
        Err(ResolveError::Cycle(key)) => assert_eq!(key, "g:a:1.0"),
        other => panic!("expected a cycle, got {:?}", other.map(|l| keys(&l))),
    }
    assert_eq!(resolver.len(), 0);
    let fine = resolver.resolve_dependencies(&[Dependency::new("g", "b", "1.0")], &table).unwrap();
    assert_eq!(keys(&fine), vec!["g:b:1.0"]);
}

#[test]
fn no_conflict_without_a_second_version() {
    let table = MetadataTable::new();
    let mut resolver = DependencyResolver::new();
    let specs = vec![
        Dependency::new("a", "b", "1.0"),
        Dependency::new("a", "c", "2.0"),
        Dependency::new("x", "b", "2.0"),
    ];
    resolver.resolve_dependencies(&specs, &table).unwrap();
    assert!(resolver.detect_conflicts().is_empty());
}

#[test]
fn conflicts_list_every_version_in_order() {
    let mut table = MetadataTable::new();
    table.insert("top", "t", None, vec![Dependency::new("a", "b", "3.0"), Dependency::new("p", "q", "1")]);
    let mut resolver = DependencyResolver::new();
    let specs = vec![
        Dependency::new("a", "b", "1.0"),
        Dependency::new("p", "q", "2"),
        Dependency::new("top", "t", "1"),
        Dependency::new("a", "b", "2.0"),
    ];
    resolver.resolve_dependencies(&specs, &table).unwrap();
    let conflicts = resolver.detect_conflicts();
    assert_eq!(conflicts.len(), 2);
    assert_eq!(conflicts[0].artifact_id, "b");
    assert_eq!(conflicts[0].versions, vec!["1.0", "3.0", "2.0"]);
    assert_eq!(conflicts[1].group_id, "p");
    assert_eq!(conflicts[1].versions, vec!["2", "1"]);
}

#[test]
fn clear_forgets_everything() {
    let table = MetadataTable::new();
    let mut resolver = DependencyResolver::new();
    resolver.resolve_dependencies(&[Dependency::new("g", "a", "1.0")], &table).unwrap();
    assert_eq!(resolver.len(), 1);
    resolver.clear();
    assert_eq!(resolver.len(), 0);
    assert!(resolver.get_resolution_order().is_empty());
    assert!(resolver.get_dependency_tree().is_empty());
}

fn show(node: &DependencyTreeNode, out: &mut Vec<String>) {
    out.push(format!(
        "{}{}{}",
        "  ".repeat(node.depth),
        node.dependency.coordinate(),
        if node.repeated { " *" } else { "" }
    ));
    for child in &node.children {
        show(child, out);
    }
}

#[test]
fn tree_puts_dependents_above_requirements() {
    let mut table = MetadataTable::new();
    table.insert(
        "g",
        "a",
        Some("1"),
        vec![Dependency::new("g", "b", "1"), Dependency::new("g", "c", "1")],
    );
    table.insert("g", "b", Some("1"), vec![Dependency::new("g", "c", "1")]);
    let mut resolver = DependencyResolver::new();
    resolver
        .resolve_dependencies(&[Dependency::new("g", "a", "1"), Dependency::new("g", "z", "1")], &table)
        .unwrap();
    let mut lines = Vec::new();
    for node in resolver.get_dependency_tree() {
        show(&node, &mut lines);
    }
    assert_eq!(lines, vec!["g:z:1", "g:a:1", "  g:b:1", "    g:c:1", "  g:c:1 *"]);
}

#[test]
fn offline_source_answers_like_the_offline_table() {
    let mut resolver = DependencyResolver::new();
    let resolved = resolver
        .resolve_dependencies(&[Dependency::new("junit", "junit", "4.13.2")], &OfflineSource)
        .unwrap();
    assert_eq!(keys(&resolved), vec!["org.hamcrest:hamcrest-core:1.3", "junit:junit:4.13.2"]);
    let listed = OfflineSource.transitive_of(&Dependency::new("org.mockito", "mockito-core", "1"));
    assert_eq!(keys(&listed.unwrap()), vec!["org.objenesis:objenesis:3.2"]);
}

#[test]
fn classifier_makes_a_second_dependency() {
    let mut table = MetadataTable::new();
    table.insert("g", "a", Some("1.0"), vec![Dependency::new("x", "y", "1.0")]);
    let mut resolver = DependencyResolver::new();
    let specs = vec![
        Dependency::new("g", "a", "1.0"),
        Dependency::new("g", "a", "1.0").with_classifier("sources"),
        Dependency::new("g", "a", "1.0").with_classifier("sources"),
    ];
    let resolved = resolver.resolve_dependencies(&specs, &table).unwrap();
    assert_eq!(
        keys(&resolved),
        vec!["x:y:1.0".to_string(), "g:a:1.0".to_string(), "g:a:1.0:sources".to_string()]
    );
    assert_eq!(resolver.len(), 3);
    assert_eq!(resolver.last_lookups(), 3);
    assert_eq!(
        resolver.get_resolution_order(),
        vec!["x:y:1.0".to_string(), "g:a:1.0".to_string(), "g:a:1.0:sources".to_string()]
    );
    assert!(resolver.detect_conflicts().is_empty());
}

#[test]
fn cycle_is_found_by_the_whole_key() {
    let mut table = MetadataTable::new();
    table.insert("g", "a", Some("1.0"), vec![Dependency::new("g", "a", "1.0").with_classifier("tests")]);
    let mut resolver = DependencyResolver::new();
    match resolver.resolve_dependencies(&[Dependency::new("g", "a", "1.0")], &table) {
        Err(ResolveError::Cycle(key)) => assert_eq!(key, "g:a:1.0:tests"),
        other => panic!("expected a cycle, got {:?}", other.map(|l| keys(&l))),
    }
    assert_eq!(resolver.len(), 0);
}

#[test]
fn source_is_asked_for_new_dependencies_only() {
    let mut table = MetadataTable::new();
    table.insert("g", "a", Some("1.0"), vec![Dependency::new("x", "y", "1.0")]);
    table.insert("g", "b", Some("1.0"), vec![Dependency::new("x", "y", "1.0"), Dependency::new("g", "a", "1.0")]);
    let mut resolver = DependencyResolver::new();
    resolver.resolve_dependencies(&[Dependency::new("g", "a", "1.0")], &table).unwrap();
    assert_eq!(resolver.last_asked(), &vec!["g:a:1.0".to_string(), "x:y:1.0".to_string()]);
    resolver.resolve_dependencies(&[Dependency::new("g", "b", "1.0")], &table).unwrap();
    assert_eq!(resolver.last_asked(), &vec!["g:b:1.0".to_string()]);
    assert_eq!(resolver.last_lookups(), 1);
    resolver.resolve_dependencies(&[Dependency::new("g", "b", "1.0")], &table).unwrap();
    assert!(resolver.last_asked().is_empty());
    assert_eq!(resolver.len(), 3);
}
