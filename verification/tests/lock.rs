use jx::dependency::{Dependency, DependencyScope};
use jx::lock::{
    locked_from, scope_name, DependencyTreeNode, LockError, LockFile, LockMetadata, LockedDependency,
};
use jx::metadata::MetadataTable;
use jx::resolve::DependencyResolver;

fn locked(group: &str, artifact: &str, version: &str, requires: &[&str]) -> LockedDependency {
    LockedDependency {
        group_id: group.to_string(),
        artifact_id: artifact.to_string(),
        version: version.to_string(),
        classifier: None,
        scope: "compile".to_string(),
        checksum: format!("sha-{}", artifact),
        url: format!("https://example.org/{}", artifact),
        dependencies: requires.iter().map(|s| s.to_string()).collect(),
    }
}

fn store() -> LockFile {
    LockFile::with_timestamps("2024-01-01T00:00:00+00:00".to_string(), "2024-01-02T00:00:00+00:00".to_string())
}

fn show(node: &DependencyTreeNode, out: &mut Vec<String>) {
    out.push(format!(
        "{}{}{}",
        "  ".repeat(node.depth),
        node.dependency.coordinate(),
        if node.repeated { " *" } else { "" }
    ));
    for child in &node.children {
        show(child, out);
    }
}

fn lines(lock: &LockFile) -> Vec<String> {
    let mut out = Vec::new();
    for node in lock.get_dependency_tree() {
        show(&node, &mut out);
    }
    out
}

#[test]
fn new_store_is_empty() {
    let lock = LockFile::new();
    assert_eq!(lock.version(), "1.0");
    assert_eq!(lock.len(), 0);
    assert_eq!(lock.metadata().total_dependencies, 0);
    assert_eq!(lock.metadata().total_size, 0);
    assert!(lock.is_complete());
}

#[test]
fn new_store_is_stamped_with_the_time() {
    let lock = LockFile::new();
    let created = &lock.metadata().created_at;
    let updated = &lock.metadata().updated_at;
    assert!(created.len() >= 20, "not a timestamp: {:?}", created);
    assert_eq!(&created[4..5], "-");
    assert_eq!(&created[10..11], "T");
    assert!(updated.as_str() >= created.as_str());
}

#[test]
fn store_with_given_timestamps() {
    let lock = store();
    assert_eq!(lock.metadata().created_at, "2024-01-01T00:00:00+00:00");
    assert_eq!(lock.metadata().updated_at, "2024-01-02T00:00:00+00:00");
}

#[test]
fn upsert_adds_then_replaces_in_place() {
    let mut lock = store();
    lock.add_dependency_at(locked("g", "a", "1", &[]), "t1".to_string());
    lock.add_dependency_at(locked("g", "b", "1", &[]), "t2".to_string());
    assert_eq!(lock.len(), 2);
    assert_eq!(lock.metadata().total_dependencies, 2);
    assert_eq!(lock.metadata().updated_at, "t2");
    assert_eq!(lock.metadata().created_at, "2024-01-01T00:00:00+00:00");

    let mut again = locked("g", "a", "1", &["g:b:1"]);
    again.checksum = "other".to_string();
    lock.add_dependency_at(again, "t3".to_string());
    assert_eq!(lock.len(), 2);
    assert_eq!(lock.metadata().total_dependencies, 2);
    assert_eq!(lock.metadata().updated_at, "t3");
    let keys: Vec<String> = lock.dependencies().iter().map(|d| d.coordinate()).collect();
    assert_eq!(keys, vec!["g:a:1", "g:b:1"]);
    assert_eq!(lock.get_dependency("g", "a", "1").unwrap().checksum, "other");
}

#[test]
fn upsert_with_the_clock_updates_count() {
    let mut lock = store();
    lock.add_dependency(locked("g", "a", "1", &[]));
    assert_eq!(lock.metadata().total_dependencies, 1);
    assert_ne!(lock.metadata().updated_at, "2024-01-02T00:00:00+00:00");
    assert_eq!(lock.metadata().created_at, "2024-01-01T00:00:00+00:00");
}

#[test]
fn remove_says_whether_it_removed() {
    let mut lock = store();
    lock.add_dependency_at(locked("g", "a", "1", &[]), "t1".to_string());
    lock.add_dependency_at(locked("g", "b", "1", &[]), "t2".to_string());
    assert!(!lock.remove_dependency_at("g", "c", "1", "t3".to_string()));
    assert_eq!(lock.metadata().updated_at, "t2");
    assert_eq!(lock.len(), 2);
    assert!(lock.remove_dependency_at("g", "a", "1", "t4".to_string()));
    assert_eq!(lock.metadata().updated_at, "t4");
    assert_eq!(lock.metadata().total_dependencies, 1);
    assert!(!lock.has_dependency("g", "a", "1"));
    assert!(lock.has_dependency("g", "b", "1"));
    assert!(lock.remove_dependency("g", "b", "1"));
    assert!(!lock.remove_dependency("g", "b", "1"));
    assert_eq!(lock.len(), 0);
}

#[test]
fn get_and_contains() {
    let mut lock = store();
    lock.add_dependency_at(locked("g", "a", "1", &[]), "t".to_string());
    assert!(lock.has_dependency("g", "a", "1"));
    assert!(!lock.has_dependency("g", "a", "2"));
    assert_eq!(lock.get_dependency("g", "a", "1").unwrap().url, "https://example.org/a");
    assert!(lock.get_dependency("g", "a", "2").is_none());
}

#[test]
fn checksum_and_url_updates() {
    let mut lock = store();
    lock.add_dependency_at(locked("g", "a", "1", &[]), "t1".to_string());
    assert!(lock.update_checksum_at("g", "a", "1", "abc", "t2".to_string()));
    assert_eq!(lock.get_dependency("g", "a", "1").unwrap().checksum, "abc");
    assert_eq!(lock.metadata().updated_at, "t2");
    assert!(lock.update_url_at("g", "a", "1", "https://mirror/a.jar", "t3".to_string()));
    assert_eq!(lock.get_dependency("g", "a", "1").unwrap().url, "https://mirror/a.jar");
    assert_eq!(lock.get_dependency("g", "a", "1").unwrap().checksum, "abc");
    assert_eq!(lock.metadata().updated_at, "t3");
    assert!(!lock.update_checksum_at("g", "z", "1", "abc", "t4".to_string()));
    assert!(!lock.update_url_at("g", "z", "1", "u", "t5".to_string()));
    assert_eq!(lock.metadata().updated_at, "t3");
    assert!(lock.update_checksum("g", "a", "1", "def").is_ok());
    assert!(lock.update_url("g", "a", "1", "u2").is_ok());
    assert_eq!(lock.get_dependency("g", "a", "1").unwrap().checksum, "def");
    assert_eq!(lock.get_dependency("g", "a", "1").unwrap().url, "u2");
    assert!(lock.update_checksum("g", "z", "1", "x").is_ok());
    assert!(lock.update_url("g", "z", "1", "x").is_ok());
    assert!(lock.get_dependency("g", "z", "1").is_none());
    assert_eq!(lock.get_dependency("g", "a", "1").unwrap().checksum, "def");
    assert_eq!(lock.metadata().total_dependencies, 1);
}

#[test]
fn locked_coordinate_and_filename() {
    let mut d = locked("org.example", "lib", "1.2", &[]);
    assert_eq!(d.coordinate(), "org.example:lib:1.2");
    assert_eq!(d.filename(), "lib-1.2.jar");
    d.classifier = Some("javadoc".to_string());
    assert_eq!(d.filename(), "lib-1.2-javadoc.jar");
}

#[test]
fn tree_expands_each_entry_once() {
    let mut lock = store();
    lock.add_dependency_at(locked("g", "a", "1", &["g:b:1", "g:c:1"]), "t".to_string());
    lock.add_dependency_at(locked("g", "b", "1", &["g:c:1"]), "t".to_string());
    lock.add_dependency_at(locked("g", "c", "1", &[]), "t".to_string());
    lock.add_dependency_at(locked("g", "d", "1", &["g:a:1"]), "t".to_string());
    assert_eq!(
        lines(&lock),
        vec!["g:a:1", "  g:b:1", "    g:c:1", "  g:c:1 *", "g:d:1", "  g:a:1 *"]
    );
}

#[test]
fn tree_ends_a_circle_with_a_repeated_leaf() {
    let mut lock = store();
    lock.add_dependency_at(locked("g", "a", "1", &["g:b:1"]), "t".to_string());
    lock.add_dependency_at(locked("g", "b", "1", &["g:a:1"]), "t".to_string());
    lock.add_dependency_at(locked("g", "s", "1", &["g:s:1"]), "t".to_string());
    assert_eq!(lines(&lock), vec!["g:a:1", "  g:b:1", "    g:a:1 *", "g:s:1", "  g:s:1 *"]);
}

#[test]
fn tree_skips_missing_targets_and_reports_them() {
    let mut lock = store();
    lock.add_dependency_at(locked("g", "a", "1", &["g:gone:1", "g:b:1"]), "t".to_string());
    lock.add_dependency_at(locked("g", "b", "1", &["g:lost:2"]), "t".to_string());
    assert_eq!(lines(&lock), vec!["g:a:1", "  g:b:1"]);
    assert_eq!(lock.missing_edges(), vec!["g:gone:1", "g:lost:2"]);
    assert!(!lock.is_complete());
    lock.add_dependency_at(locked("g", "gone", "1", &[]), "t".to_string());
    lock.add_dependency_at(locked("g", "lost", "2", &[]), "t".to_string());
    assert!(lock.is_complete());
    assert!(lock.missing_edges().is_empty());
}

#[test]
fn empty_store_has_an_empty_tree() {
    assert!(store().get_dependency_tree().is_empty());
}

#[test]
fn parts_round_trip() {
    let mut lock = store();
    lock.add_dependency_at(locked("g", "a", "1", &["g:b:1"]), "t1".to_string());
    lock.add_dependency_at(locked("g", "b", "1", &[]), "t2".to_string());
    let (version, parts, metadata) = lock.parts();
    assert_eq!(version, "1.0");
    let keys: Vec<&str> = parts.iter().map(|(k, _)| k.as_str()).collect();
    assert_eq!(keys, vec!["g:a:1", "g:b:1"]);
    let again = LockFile::from_parts(version, parts, metadata).unwrap();
    assert_eq!(format!("{:?}", again), format!("{:?}", lock));
    let (v1, p1, m1) = lock.parts();
    let (v2, p2, m2) = again.parts();
    assert_eq!(format!("{:?}", (v1, p1, m1)), format!("{:?}", (v2, p2, m2)));
}

#[test]
fn from_parts_keeps_the_metadata_as_read() {
    let metadata = LockMetadata {
        created_at: "c".to_string(),
        updated_at: "u".to_string(),
        total_dependencies: 7,
        total_size: 99,
    };
    let lock = LockFile::from_parts(
        "2.0".to_string(),
        vec![("g:a:1".to_string(), locked("g", "a", "1", &[]))],
        metadata,
    )
    .unwrap();
    assert_eq!(lock.version(), "2.0");
    assert_eq!(lock.metadata().total_dependencies, 7);
    assert_eq!(lock.metadata().total_size, 99);
    assert_eq!(lock.len(), 1);
    assert!(lock.has_dependency("g", "a", "1"));
}

#[test]
fn from_parts_rejects_a_wrong_key() {
    let metadata = LockMetadata {
        created_at: "c".to_string(),
        updated_at: "u".to_string(),
        total_dependencies: 1,
        total_size: 0,
    };
    match LockFile::from_parts(
        "1.0".to_string(),
        vec![("g:a:2".to_string(), locked("g", "a", "1", &[]))],
        metadata,
    ) {
        Err(LockError::KeyMismatch(key)) => assert_eq!(key, "g:a:2"),
        other => panic!("expected a key mismatch, got {:?}", other),
    }
}

#[test]
fn from_parts_rejects_a_repeated_key() {
    let metadata = LockMetadata {
        created_at: "c".to_string(),
        updated_at: "u".to_string(),
        total_dependencies: 2,
        total_size: 0,
    };
    match LockFile::from_parts(
        "1.0".to_string(),
        vec![
            ("g:a:1".to_string(), locked("g", "a", "1", &[])),
            ("g:b:1".to_string(), locked("g", "b", "1", &[])),
            ("g:a:1".to_string(), locked("g", "a", "1", &["g:b:1"])),
        ],
        metadata,
    ) {
        Err(LockError::DuplicateKey(key)) => assert_eq!(key, "g:a:1"),
        other => panic!("expected a duplicate key, got {:?}", other),
    }
}

fn entry_table(dep: &LockedDependency) -> toml::Value {
    let mut table = toml::Table::new();
    table.insert("group_id".to_string(), toml::Value::String(dep.group_id.clone()));
    table.insert("artifact_id".to_string(), toml::Value::String(dep.artifact_id.clone()));
    table.insert("version".to_string(), toml::Value::String(dep.version.clone()));
    if let Some(classifier) = &dep.classifier {
        table.insert("classifier".to_string(), toml::Value::String(classifier.clone()));
    }
    table.insert("scope".to_string(), toml::Value::String(dep.scope.clone()));
    table.insert("checksum".to_string(), toml::Value::String(dep.checksum.clone()));
    table.insert("url".to_string(), toml::Value::String(dep.url.clone()));
    table.insert(
        "dependencies".to_string(),
        toml::Value::Array(dep.dependencies.iter().map(|d| toml::Value::String(d.clone())).collect()),
    );
    toml::Value::Table(table)
}

fn text(value: &toml::Value, key: &str) -> String {
    value.get(key).and_then(|v| v.as_str()).unwrap().to_string()
}

fn write_out(lock: &LockFile) -> String {
    let (version, parts, metadata) = lock.parts();
    let mut dependencies = toml::Table::new();
    for (key, dep) in &parts {
        dependencies.insert(key.clone(), entry_table(dep));
    }
    let mut meta = toml::Table::new();
    meta.insert("created_at".to_string(), toml::Value::String(metadata.created_at));
    meta.insert("updated_at".to_string(), toml::Value::String(metadata.updated_at));
    meta.insert("total_dependencies".to_string(), toml::Value::Integer(metadata.total_dependencies as i64));
    meta.insert("total_size".to_string(), toml::Value::Integer(metadata.total_size as i64));
    let mut root = toml::Table::new();
    root.insert("version".to_string(), toml::Value::String(version));
    root.insert("dependencies".to_string(), toml::Value::Table(dependencies));
    root.insert("metadata".to_string(), toml::Value::Table(meta));
    toml::to_string_pretty(&root).unwrap()
}

fn read_in(content: &str) -> LockFile {
    let root: toml::Table = toml::from_str(content).unwrap();
    let mut parts = Vec::new();
    for (key, value) in root["dependencies"].as_table().unwrap() {
        parts.push((
            key.clone(),
            LockedDependency {
                group_id: text(value, "group_id"),
                artifact_id: text(value, "artifact_id"),
                version: text(value, "version"),
                classifier: value.get("classifier").and_then(|v| v.as_str()).map(|s| s.to_string()),
                scope: text(value, "scope"),
                checksum: text(value, "checksum"),
                url: text(value, "url"),
                dependencies: value["dependencies"]
                    .as_array()
                    .unwrap()
                    .iter()
                    .map(|d| d.as_str().unwrap().to_string())
                    .collect(),
            },
        ));
    }
    let meta = &root["metadata"];
    let metadata = LockMetadata {
        created_at: text(meta, "created_at"),
        updated_at: text(meta, "updated_at"),
        total_dependencies: meta["total_dependencies"].as_integer().unwrap() as usize,
        total_size: meta["total_size"].as_integer().unwrap() as u64,
    };
    LockFile::from_parts(text(&toml::Value::Table(root.clone()), "version"), parts, metadata).unwrap()
}

#[test]
fn written_lock_file_reads_back_the_same() {
    let mut lock = store();
    lock.add_dependency_at(locked("z", "last", "1", &["a:first:2", "m:mid:3"]), "t1".to_string());
    let mut classified = locked("a", "first", "2", &[]);
    classified.classifier = Some("sources".to_string());
    lock.add_dependency_at(classified, "t2".to_string());
    lock.add_dependency_at(locked("m", "mid", "3", &["a:first:2"]), "t3".to_string());
    let written = write_out(&lock);
    let read = read_in(&written);
    assert_eq!(format!("{:?}", read), format!("{:?}", lock));
    assert_eq!(write_out(&read), written);
    let keys: Vec<String> = read.dependencies().iter().map(|d| d.coordinate()).collect();
    assert_eq!(keys, vec!["z:last:1", "a:first:2", "m:mid:3"]);
}

#[test]
fn resolution_is_recorded_complete() {
    let mut table = MetadataTable::new();
    table.insert(
        "g",
        "a",
        Some("1"),
        vec![Dependency::new("g", "b", "1").with_scope(DependencyScope::Runtime), Dependency::new("g", "c", "1")],
    );
    table.insert("g", "b", Some("1"), vec![Dependency::new("g", "c", "1")]);
    let mut resolver = DependencyResolver::new();
    resolver
        .resolve_dependencies(&[Dependency::new("g", "a", "1").with_classifier("all")], &table)
        .unwrap();
    let entries = resolver.entries();
    assert_eq!(entries.len(), 3);
    assert_eq!(entries[2].dependency.coordinate(), "g:a:1:all");
    assert_eq!(entries[2].dependency.lock_coordinate(), "g:a:1");
    assert_eq!(entries[2].edges, vec!["g:b:1", "g:c:1"]);

    let mut lock = store();
    lock.add_dependency_at(locked("g", "c", "1", &[]), "t0".to_string());
    lock.add_dependency_at(locked("x", "y", "1", &[]), "t0".to_string());
    lock.record_resolution_at(&resolver, "t1".to_string());
    let keys: Vec<String> = lock.dependencies().iter().map(|d| d.coordinate()).collect();
    assert_eq!(keys, vec!["g:c:1", "x:y:1", "g:b:1", "g:a:1"]);
    assert!(lock.is_complete());
    assert_eq!(lock.metadata().total_dependencies, 4);
    assert_eq!(lock.metadata().updated_at, "t1");
    let a = lock.get_dependency("g", "a", "1").unwrap();
    assert_eq!(a.dependencies, vec!["g:b:1", "g:c:1"]);
    assert_eq!(a.classifier, Some("all".to_string()));
    assert_eq!(a.scope, "compile");
    assert_eq!(a.checksum, "");
    assert_eq!(a.url, "https://repo1.maven.org/maven2/g/a/1/a-1-all.jar");
    assert_eq!(lock.get_dependency("g", "b", "1").unwrap().scope, "runtime");
    assert_eq!(lock.get_dependency("g", "c", "1").unwrap().checksum, "");

    let mut again = store();
    again.record_resolution(&resolver);
    assert_eq!(again.len(), 3);
    assert!(again.is_complete());
}

#[test]
fn scope_words() {
    assert_eq!(scope_name(DependencyScope::Compile), "compile");
    assert_eq!(scope_name(DependencyScope::Runtime), "runtime");
    assert_eq!(scope_name(DependencyScope::Test), "test");
    assert_eq!(scope_name(DependencyScope::Provided), "provided");
    assert_eq!(scope_name(DependencyScope::System), "system");
}

#[test]
fn entries_that_differ_in_classifier_share_a_lock_key() {
    let mut table = MetadataTable::new();
    table.insert("g", "a", Some("1"), vec![Dependency::new("g", "b", "1").with_classifier("tests")]);
    let mut resolver = DependencyResolver::new();
    let specs = vec![Dependency::new("g", "a", "1"), Dependency::new("g", "b", "1")];
    resolver.resolve_dependencies(&specs, &table).unwrap();
    let keys: Vec<String> = resolver.entries().iter().map(|e| e.dependency.coordinate()).collect();
    assert_eq!(keys, vec!["g:b:1:tests", "g:a:1", "g:b:1"]);
    assert_eq!(resolver.entries()[1].edges, vec!["g:b:1:tests"]);

    let mut lock = store();
    lock.record_resolution_at(&resolver, "t1".to_string());
    let keys: Vec<String> = lock.dependencies().iter().map(|d| d.coordinate()).collect();
    assert_eq!(keys, vec!["g:b:1", "g:a:1"]);
    assert_eq!(lock.get_dependency("g", "a", "1").unwrap().dependencies, vec!["g:b:1"]);
    assert_eq!(lock.get_dependency("g", "b", "1").unwrap().classifier, None);
    assert!(lock.is_complete());
}

#[test]
fn lock_entry_of_a_resolved_dependency() {
    let mut table = MetadataTable::new();
    table.insert(
        "org.x",
        "a",
        Some("1"),
        vec![Dependency::new("g", "b", "2").with_classifier("tests"), Dependency::new("g", "c", "3")],
    );
    let mut resolver = DependencyResolver::new();
    let spec = Dependency::new("org.x", "a", "1").with_scope(DependencyScope::Test).with_classifier("all");
    resolver.resolve_dependencies(&[spec], &table).unwrap();
    assert_eq!(resolver.edge_target(2, 0), 0);
    assert_eq!(resolver.edge_target(2, 1), 1);
    let entry = locked_from(&resolver, 2);
    assert_eq!(entry.coordinate(), "org.x:a:1");
    assert_eq!(entry.scope, "test");
    assert_eq!(entry.classifier, Some("all".to_string()));
    assert_eq!(entry.checksum, "");
    assert_eq!(entry.url, "https://repo1.maven.org/maven2/org/x/a/1/a-1-all.jar");
    assert_eq!(entry.dependencies, vec!["g:b:2", "g:c:3"]);
    let leaf = locked_from(&resolver, 0);
    assert_eq!(leaf.coordinate(), "g:b:2");
    assert_eq!(leaf.classifier, Some("tests".to_string()));
    assert!(leaf.dependencies.is_empty());
}
