use jx::dependency::{
    parse_dependency_coordinate, resolve_dependencies, Dependency, DependencyNode, DependencyScope,
    Exclusion, ParseError,
};
use jx::text::{dots_to_slashes, split_on};

#[test]
fn parses_three_fields() {
    let c = parse_dependency_coordinate("g:a:1.0").unwrap();
    assert_eq!(c.group_id, "g");
    assert_eq!(c.artifact_id, "a");
    assert_eq!(c.version, Some("1.0".to_string()));
}

#[test]
fn parses_two_fields_without_version() {
    let c = parse_dependency_coordinate("g:a").unwrap();
    assert_eq!(c.group_id, "g");
    assert_eq!(c.artifact_id, "a");
    assert_eq!(c.version, None);
}

#[test]
fn rejects_one_field() {
    match parse_dependency_coordinate("g") {
        Err(ParseError::InvalidCoordinate(input)) => assert_eq!(input, "g"),
        Ok(_) => panic!("accepted a single field"),
    }
}

#[test]
fn rejects_four_fields() {
    match parse_dependency_coordinate("g:a:1.0:extra") {
        Err(ParseError::InvalidCoordinate(input)) => assert_eq!(input, "g:a:1.0:extra"),
        Ok(_) => panic!("accepted four fields"),
    }
}

#[test]
fn rejects_empty_fields() {
    for text in ["", ":", "g:", ":a", "g::1.0", ":a:1.0", "g:a:", "::"] {
        assert!(
            matches!(parse_dependency_coordinate(text), Err(ParseError::InvalidCoordinate(_))),
            "accepted {:?}",
            text
        );
    }
}

#[test]
fn parse_error_holds_the_input() {
    match parse_dependency_coordinate("nonsense") {
        Err(ParseError::InvalidCoordinate(text)) => assert_eq!(text, "nonsense"),
        Ok(_) => panic!("expected an error"),
    }
}

#[test]
fn parses_what_coordinate_writes() {
    let d = Dependency::new("org.example", "lib", "2.3.4");
    let c = parse_dependency_coordinate(&d.coordinate()).unwrap();
    assert_eq!(c.group_id, d.group_id);
    assert_eq!(c.artifact_id, d.artifact_id);
    assert_eq!(c.version, Some(d.version));
}

#[test]
fn split_keeps_empty_fields() {
    assert_eq!(split_on("a::b:", ':'), vec!["a", "", "b", ""]);
    assert_eq!(split_on("", ':'), vec![""]);
    assert_eq!(split_on("plain", ':'), vec!["plain"]);
    assert_eq!(split_on("é:ü", ':'), vec!["é", "ü"]);
}

#[test]
fn dots_become_slashes() {
    assert_eq!(dots_to_slashes("org.apache.commons"), "org/apache/commons");
    assert_eq!(dots_to_slashes("junit"), "junit");
    assert_eq!(dots_to_slashes(".a..b."), "/a//b/");
    assert_eq!(dots_to_slashes(""), "");
}

#[test]
fn new_dependency_has_defaults() {
    let d = Dependency::new("g", "a", "1.0");
    assert_eq!(d.group_id, "g");
    assert_eq!(d.artifact_id, "a");
    assert_eq!(d.version, "1.0");
    assert_eq!(d.scope, DependencyScope::Compile);
    assert_eq!(d.classifier, None);
    assert!(d.exclusions.is_empty());
    assert!(!d.optional);
}

#[test]
fn builders_set_one_field_each() {
    let d = Dependency::new("g", "a", "1.0")
        .with_scope(DependencyScope::Test)
        .with_classifier("sources")
        .with_exclusions(vec![Exclusion { group_id: "x".to_string(), artifact_id: "y".to_string() }])
        .optional(true);
    assert_eq!(d.scope, DependencyScope::Test);
    assert_eq!(d.classifier, Some("sources".to_string()));
    assert_eq!(d.exclusions.len(), 1);
    assert_eq!(d.exclusions[0].group_id, "x");
    assert_eq!(d.exclusions[0].artifact_id, "y");
    assert!(d.optional);
    assert_eq!(d.group_id, "g");
    assert_eq!(d.version, "1.0");
}

#[test]
fn coordinate_and_filename() {
    let d = Dependency::new("org.example", "lib", "1.2");
    assert_eq!(d.coordinate(), "org.example:lib:1.2");
    assert_eq!(d.filename(), "lib-1.2.jar");
    let d = d.with_classifier("sources");
    assert_eq!(d.coordinate(), "org.example:lib:1.2:sources");
    assert_eq!(d.lock_coordinate(), "org.example:lib:1.2");
    assert_eq!(d.filename(), "lib-1.2-sources.jar");
}

#[test]
fn classifier_is_part_of_the_identity() {
    let plain = Dependency::new("g", "a", "1.0");
    let sources = Dependency::new("g", "a", "1.0").with_classifier("sources");
    assert_eq!(plain.coordinate(), "g:a:1.0");
    assert_eq!(sources.coordinate(), "g:a:1.0:sources");
    assert_ne!(plain.coordinate(), sources.coordinate());
    assert_eq!(plain.lock_coordinate(), sources.lock_coordinate());
    assert_eq!(Dependency::new("g", "a", "1.0").with_classifier("").coordinate(), "g:a:1.0:");
}

#[test]
fn clone_keeps_everything() {
    let d = Dependency::new("g", "a", "1.0")
        .with_scope(DependencyScope::Runtime)
        .with_classifier("c")
        .with_exclusions(vec![Exclusion { group_id: "x".to_string(), artifact_id: "y".to_string() }])
        .optional(true);
    let e = d.clone();
    assert_eq!(e.coordinate(), "g:a:1.0:c");
    assert_eq!(e.scope, DependencyScope::Runtime);
    assert_eq!(e.classifier, Some("c".to_string()));
    assert_eq!(e.exclusions[0].artifact_id, "y");
    assert!(e.optional);
}

#[test]
fn excludes_matches_group_and_artifact() {
    let d = Dependency::new("g", "a", "1.0").with_exclusions(vec![
        Exclusion { group_id: "x".to_string(), artifact_id: "y".to_string() },
        Exclusion { group_id: "p".to_string(), artifact_id: "q".to_string() },
    ]);
    assert!(d.excludes(&Dependency::new("x", "y", "9")));
    assert!(d.excludes(&Dependency::new("p", "q", "1")));
    assert!(!d.excludes(&Dependency::new("x", "q", "1")));
    assert!(!Dependency::new("g", "a", "1.0").excludes(&Dependency::new("x", "y", "9")));
}

#[test]
fn node_collects_children_and_prints_lines() {
    let mut root = DependencyNode::new(Dependency::new("g", "root", "1"), 0);
    let mut child = DependencyNode::new(Dependency::new("g", "child", "2"), 1);
    child.add_child(DependencyNode::new(Dependency::new("g", "leaf", "3"), 2));
    root.add_child(child);
    root.add_child(DependencyNode::new(Dependency::new("g", "other", "4"), 1));
    assert_eq!(root.children.len(), 2);
    assert_eq!(root.depth, 0);
    assert_eq!(
        root.tree_lines(),
        vec!["g:root:1", "  g:child:2", "    g:leaf:3", "  g:other:4"]
    );
}

#[test]
fn roots_are_the_distinct_coordinates() {
    let deps = vec![
        Dependency::new("g", "a", "1"),
        Dependency::new("g", "b", "1"),
        Dependency::new("g", "a", "1").with_scope(DependencyScope::Test),
        Dependency::new("g", "a", "2"),
    ];
    let roots = resolve_dependencies(&deps);
    let keys: Vec<String> = roots.iter().map(|n| n.dependency.coordinate()).collect();
    assert_eq!(keys, vec!["g:a:1", "g:b:1", "g:a:2"]);
    assert_eq!(roots[0].dependency.scope, DependencyScope::Compile);
    assert!(roots.iter().all(|n| n.depth == 0 && n.children.is_empty()));
    assert!(resolve_dependencies(&[]).is_empty());
}
