use jx::config::JxConfig;
use jx::project::{DependencyScope, Project, ProjectDependency, ProjectError, ProjectType};

#[test]
fn new_project_has_the_usual_layout() {
    let p = Project::new("demo", ProjectType::Gradle);
    assert_eq!(p.name, "demo");
    assert_eq!(p.version, "1.0.0");
    assert_eq!(p.description, Some("A Java project created with jx".to_string()));
    assert_eq!(p.project_type, ProjectType::Gradle);
    assert_eq!(p.java_version, "11");
    assert_eq!(p.source_dirs, vec!["src/main/java"]);
    assert_eq!(p.test_dirs, vec!["src/test/java"]);
    assert_eq!(p.resource_dirs, vec!["src/main/resources"]);
    assert_eq!(p.target_dir, "target");
    assert_eq!(p.main_class, Some("com.example.Main".to_string()));
    assert_eq!(p.test_class, Some("com.example.MainTest".to_string()));
    assert!(p.dependencies.is_empty());
    assert_eq!(p.repositories.len(), 1);
    assert_eq!(p.repositories[0].name, "Maven Central");
    assert_eq!(p.repositories[0].url, "https://repo1.maven.org/maven2/");
    assert_eq!(p.repositories[0].username, None);
    assert_eq!(p.repositories[0].password, None);
}

#[test]
fn project_dependencies_come_and_go() {
    let mut p = Project::new("demo", ProjectType::Maven);
    assert!(!p.has_dependency("g", "a"));
    p.add_dependency(ProjectDependency::new("g", "a", "1", DependencyScope::Compile));
    p.add_dependency(ProjectDependency::new("g", "b", "1", DependencyScope::Test));
    p.add_dependency(ProjectDependency::new("g", "a", "2", DependencyScope::Runtime));
    assert!(p.has_dependency("g", "a"));
    assert_eq!(p.get_dependency("g", "a").unwrap().version, "1");
    assert_eq!(p.get_dependency("g", "b").unwrap().scope, DependencyScope::Test);
    assert!(p.get_dependency("g", "c").is_none());
    assert!(p.remove_dependency("g", "a"));
    assert_eq!(p.dependencies.len(), 1);
    assert_eq!(p.dependencies[0].artifact_id, "b");
    assert!(!p.remove_dependency("g", "a"));
    assert!(!p.has_dependency("g", "a"));
    assert_eq!(p.name, "demo");
}

#[test]
fn project_dependency_coordinate() {
    let d = ProjectDependency::new("org.example", "lib", "1.2", DependencyScope::Provided);
    assert_eq!(d.coordinate(), "org.example:lib:1.2");
    assert!(!d.optional);
    assert_eq!(d.scope, DependencyScope::Provided);
}

#[test]
fn classpath_lists_target_then_jars() {
    let mut p = Project::new("demo", ProjectType::Jx);
    assert_eq!(p.get_classpath(), vec!["target"]);
    p.add_dependency(ProjectDependency::new("g", "a", "1.0", DependencyScope::Compile));
    p.add_dependency(ProjectDependency::new("h", "b", "2.1", DependencyScope::Test));
    assert_eq!(p.get_classpath(), vec!["target", "lib/a-1.0.jar", "lib/b-2.1.jar"]);
}

#[test]
fn validation_checks_name_version_sources_in_order() {
    let mut p = Project::new("demo", ProjectType::Jx);
    assert_eq!(p.validate(), Ok(()));
    p.source_dirs.clear();
    assert_eq!(p.validate(), Err(ProjectError::NoSourceDirs));
    p.version.clear();
    assert_eq!(p.validate(), Err(ProjectError::EmptyVersion));
    p.name.clear();
    assert_eq!(p.validate(), Err(ProjectError::EmptyName));
}

#[test]
fn default_configuration() {
    let c = JxConfig::default();
    assert_eq!(c.project.name, "my-java-project");
    assert_eq!(c.project.version, "1.0.0");
    assert_eq!(c.project.description, Some("A Java project created with jx".to_string()));
    assert_eq!(c.project.authors, Some(vec!["jx team".to_string()]));
    assert_eq!(c.project.license, Some("MIT".to_string()));
    assert_eq!(c.project.homepage, None);
    assert_eq!(c.project.repository, None);
    assert_eq!(c.build.source_dir, Some("src/main/java".to_string()));
    assert_eq!(c.build.target_dir, Some("target".to_string()));
    assert_eq!(c.build.main_class, Some("com.example.Main".to_string()));
    assert_eq!(c.build.test_class, Some("com.example.MainTest".to_string()));
    assert_eq!(c.build.java_version, Some("11".to_string()));
    assert_eq!(c.dependencies.compile.map(|v| v.len()), Some(0));
    assert_eq!(c.dependencies.runtime.map(|v| v.len()), Some(0));
    assert_eq!(c.dependencies.test.map(|v| v.len()), Some(0));
    assert_eq!(c.dependencies.provided.map(|v| v.len()), Some(0));
    assert_eq!(c.repositories.maven_central, Some("https://repo1.maven.org/maven2/".to_string()));
    assert_eq!(c.repositories.jcenter, Some("https://jcenter.bintray.com/".to_string()));
    assert_eq!(c.repositories.custom.map(|v| v.len()), Some(0));
}
