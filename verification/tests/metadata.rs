use jx::dependency::{Dependency, DependencyScope};
use jx::metadata::{
    get_transitive_dependencies, parse_line, parse_requirement, parse_scope, prune, MetadataTable,
    TableError,
};
use jx::resolve::{DependencyResolver, ResolveError};

fn keys(list: &[Dependency]) -> Vec<String> {
    list.iter().map(|d| d.coordinate()).collect()
}

#[test]
fn scopes_by_name() {
    assert_eq!(parse_scope("compile"), Some(DependencyScope::Compile));
    assert_eq!(parse_scope("runtime"), Some(DependencyScope::Runtime));
    assert_eq!(parse_scope("test"), Some(DependencyScope::Test));
    assert_eq!(parse_scope("provided"), Some(DependencyScope::Provided));
    assert_eq!(parse_scope("system"), Some(DependencyScope::System));
    assert_eq!(parse_scope("Compile"), None);
    assert_eq!(parse_scope(""), None);
}

#[test]
fn requirements_with_and_without_scope() {
    let d = parse_requirement("g:a:1").unwrap();
    assert_eq!(d.coordinate(), "g:a:1");
    assert_eq!(d.scope, DependencyScope::Compile);
    let d = parse_requirement("g:a:1:runtime").unwrap();
    assert_eq!(d.scope, DependencyScope::Runtime);
    for text in ["", "g", "g:a", "g:a:1:odd", "g:a:1:test:x", ":a:1", "g::1", "g:a:"] {
        assert!(parse_requirement(text).is_none(), "{:?}", text);
    }
}

#[test]
fn lines_of_a_table() {
    let e = parse_line("g:a=x:y:1,p:q:2:test").unwrap();
    assert_eq!(e.group_id, "g");
    assert_eq!(e.artifact_id, "a");
    assert_eq!(e.version, None);
    assert!(e.available);
    assert_eq!(keys(&e.dependencies), vec!["x:y:1", "p:q:2"]);
    assert_eq!(e.dependencies[1].scope, DependencyScope::Test);
    let e = parse_line("g:a:3=").unwrap();
    assert_eq!(e.version, Some("3".to_string()));
    assert!(e.dependencies.is_empty());
    for text in ["", "g:a", "g=x:y:1", "g:a=x:y", "g:a=x:y:1,", "g:a=x:y:1=z", "g:a=,x:y:1"] {
        assert!(parse_line(text).is_none(), "{:?}", text);
    }
}

#[test]
fn table_from_text() {
    let table = MetadataTable::from_text("g:a:1=g:b:1\n\ng:b=g:c:2:runtime,g:d:3\n").unwrap();
    assert_eq!(table.len(), 2);
    assert_eq!(keys(&table.transitive_of(&Dependency::new("g", "a", "1")).unwrap()), vec!["g:b:1"]);
    assert!(table.transitive_of(&Dependency::new("g", "a", "2")).unwrap().is_empty());
    assert_eq!(
        keys(&table.transitive_of(&Dependency::new("g", "b", "9")).unwrap()),
        vec!["g:c:2", "g:d:3"]
    );
    assert_eq!(MetadataTable::from_text("").unwrap().len(), 0);
}

#[test]
fn table_text_errors_name_the_line() {
    assert_eq!(
        MetadataTable::from_text("g:a=x:y:1\n\nnonsense\ng:b=\nmore nonsense").map(|t| t.len()),
        Err(TableError { line: 2 })
    );
    assert_eq!(MetadataTable::from_text("=").map(|t| t.len()), Err(TableError { line: 0 }));
}

#[test]
fn offline_table_answers_for_every_version() {
    let table = MetadataTable::builtin();
    assert_eq!(table.len(), 18);
    assert_eq!(
        keys(&get_transitive_dependencies("org.springframework", "spring-web", "5.3.0")),
        vec![
            "org.springframework:spring-core:5.3.0",
            "org.springframework:spring-beans:5.3.0",
            "org.springframework:spring-context:5.3.0",
            "org.springframework:spring-webmvc:5.3.0",
        ]
    );
    assert_eq!(
        keys(&get_transitive_dependencies("junit", "junit", "0.0")),
        vec!["org.hamcrest:hamcrest-core:1.3"]
    );
    let slf4j = get_transitive_dependencies("org.slf4j", "slf4j-api", "1.7.36");
    assert_eq!(keys(&slf4j), vec!["org.slf4j:slf4j-simple:1.7.36"]);
    assert_eq!(slf4j[0].scope, DependencyScope::Runtime);
    assert_eq!(
        keys(&get_transitive_dependencies("org.apache.spark", "spark-core_2.12", "3.2.0")).len(),
        5
    );
    assert!(get_transitive_dependencies("org.springframework", "spring-context", "5.3.0").is_empty());
    assert!(get_transitive_dependencies("junit", "other", "1").is_empty());
}

#[test]
fn offline_table_resolves_spring_web() {
    let table = MetadataTable::builtin();
    let mut resolver = DependencyResolver::new();
    let resolved = resolver
        .resolve_dependencies(&[Dependency::new("org.springframework", "spring-web", "5.3.0")], &table)
        .unwrap();
    assert_eq!(
        keys(&resolved),
        vec![
            "org.springframework:spring-jcl:5.3.0",
            "org.springframework:spring-beans:5.3.0",
            "org.springframework:spring-context:5.3.0",
            "org.springframework:spring-core:5.3.0",
            "org.springframework:spring-webmvc:5.3.0",
            "org.springframework:spring-web:5.3.0",
        ]
    );
    assert!(resolver.detect_conflicts().is_empty());
}

#[test]
fn offline_table_has_a_circle_at_kafka() {
    let table = MetadataTable::builtin();
    let mut resolver = DependencyResolver::new();
    match resolver.resolve_dependencies(&[Dependency::new("org.apache.kafka", "kafka-clients", "3.0.0")], &table)
    {
        Err(ResolveError::Cycle(key)) => assert_eq!(key, "org.apache.kafka:kafka-clients:3.0.0"),
        other => panic!("expected a cycle, got {:?}", other.map(|l| keys(&l))),
    }
}

#[test]
fn prune_leaves_out_what_is_excluded() {
    let dep = Dependency::new("g", "a", "1").with_exclusions(vec![jx::dependency::Exclusion {
        group_id: "x".to_string(),
        artifact_id: "y".to_string(),
    }]);
    let listed = vec![
        Dependency::new("x", "y", "1"),
        Dependency::new("x", "z", "1"),
        Dependency::new("x", "y", "2"),
        Dependency::new("p", "q", "1"),
    ];
    assert_eq!(keys(&prune(&dep, listed)), vec!["x:z:1", "p:q:1"]);
}
