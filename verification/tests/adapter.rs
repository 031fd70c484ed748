use jx::adapter::{
    parse_gradle_dependencies, parse_jx_dependencies, parse_maven_dependencies, read_tag,
    to_dependencies, ConfigDependency,
};
use jx::dependency::DependencyScope;
use jx::project::{choose_config, Project, ProjectError, ProjectType};

fn rows(list: &[ConfigDependency]) -> Vec<(String, String, String, String)> {
    list.iter()
        .map(|d| (d.group_id.clone(), d.artifact_id.clone(), d.version.clone(), d.scope.clone()))
        .collect()
}

fn row(g: &str, a: &str, v: &str, s: &str) -> (String, String, String, String) {
    (g.to_string(), a.to_string(), v.to_string(), s.to_string())
}

#[test]
fn maven_dependencies_one_tag_to_a_line() {
    let pom = "<project>\n  <artifactId>demo</artifactId>\n  <dependencies>\n    <dependency>\n      <groupId>junit</groupId>\n      <artifactId>junit</artifactId>\n      <version>4.13</version>\n      <scope>test</scope>\n      <other>x</other>\n      <version></version>\n      <version>unfinished\n    </dependency>\n    <dependency>\n      <groupId>org.x</groupId>\n      <artifactId>lib</artifactId>\n    </dependency>\n    <groupId>stray</groupId>\n    <dependency>\n      <groupId>org.y</groupId>\n      <artifactId>core</artifactId>\n      <version>0.9</version>\n      <version>1.0</version>\n    </dependency>\n  </dependencies>\n  <dependency>\n    <groupId>late</groupId>\n  </dependency>\n</project>\n";
    assert_eq!(
        rows(&parse_maven_dependencies(pom)),
        vec![row("junit", "junit", "4.13", "test"), row("org.y", "core", "1.0", "compile")]
    );
}

#[test]
fn maven_value_stands_between_the_tags() {
    let pom = "<dependencies>\n<dependency>\n<groupId>junit</groupId>\n<artifactId>junit</artifactId>\n<version>4.13.2</version>\n</dependency>\n</dependencies>";
    let found = parse_maven_dependencies(pom);
    assert_eq!(found.len(), 1);
    assert_eq!(found[0].group_id, "junit");
    assert_eq!(found[0].artifact_id, "junit");
    assert_eq!(found[0].version, "4.13.2");
    assert_eq!(found[0].scope, "compile");
}

#[test]
fn maven_line_without_its_closing_tag_says_nothing() {
    let pom = "<dependencies>\n<dependency>\n<groupId>g>\n<artifactId>a</artifactId>\n<version>1</version>\n</dependency>\n<dependency>\n<groupId>g</groupId>\n<artifactId>a</artifactId> \n<version>1</versio>\n</dependency>\n<dependency>\n<groupId>g</groupId>\n\t<artifactId>a</artifactId>\n<version>1</version><!-- -->\n<version>2</version>\n<scope>a</scope>b</scope>\n</dependency>\n</dependencies>";
    assert_eq!(rows(&parse_maven_dependencies(pom)), vec![row("g", "a", "2", "a</scope>b")]);
}

#[test]
fn maven_without_dependencies() {
    assert!(parse_maven_dependencies("").is_empty());
    assert!(parse_maven_dependencies("<project>\n</project>").is_empty());
    assert!(parse_maven_dependencies("</dependencies>\n<dependencies>\n<dependency>\n<groupId>g</groupId>\n<artifactId>a</artifactId>\n<version>1</version>\n</dependency>").is_empty());
    assert_eq!(parse_maven_dependencies("<dependencies>\n<dependency>\n<groupId>g</groupId>\n<artifactId>a</artifactId>\n<version>1</version>\n</dependency>").len(), 1);
}

#[test]
fn gradle_dependencies() {
    let script = "plugins {\n  id 'java'\n}\n\ndependencies {\n    implementation 'org.x:lib:1.0'\n    testImplementation 'junit:junit:4.13'\n    runtimeOnly 'org.y:run'\n    compileOnly 'solo'\n    api 'org.z:api:2:extra'\n}\n\nafter {\n  implementation 'late:late:1'\n}\n";
    assert_eq!(
        rows(&parse_gradle_dependencies(script)),
        vec![
            row("org.x", "lib", "1.0", "implementation"),
            row("junit", "junit", "4.13", "testImplementation"),
            row("org.y", "run", "*", "runtimeOnly"),
            row("org.z", "api", "2", "implementation"),
        ]
    );
}

#[test]
fn gradle_block_must_be_opened_on_its_own_line() {
    assert!(parse_gradle_dependencies("dependencies { implementation 'a:b:1' }").is_empty());
    assert!(parse_gradle_dependencies("implementation 'a:b:1'").is_empty());
}

#[test]
fn native_dependencies() {
    let text = "[project]\nname = \"demo\"\n\n[dependencies]\norg.x:lib = \"1.0\"\n  junit:junit=\"4.13\"  \nsolo = \"1\"\na:b:c = \"2\"\na:b = \"x=y\"\n\n[build]\nq:r = \"3\"\n[dependencies]\ns:t = 4\n";
    assert_eq!(
        rows(&parse_jx_dependencies(text)),
        vec![
            row("org.x", "lib", "1.0", "compile"),
            row("junit", "junit", "4.13", "compile"),
            row("s", "t", "4", "compile"),
        ]
    );
}

#[test]
fn declared_dependencies_become_resolver_dependencies() {
    let declared = parse_gradle_dependencies("dependencies {\nruntimeOnly 'g:a:1'\ncompileOnly 'g:b:2'\n}");
    let deps = to_dependencies(&declared);
    assert_eq!(deps.len(), 2);
    assert_eq!(deps[0].coordinate(), "g:a:1");
    assert_eq!(deps[0].scope, DependencyScope::Runtime);
    assert_eq!(deps[1].scope, DependencyScope::Provided);
    let maven = parse_maven_dependencies("<dependencies>\n<dependency>\n<groupId>g</groupId>\n<artifactId>a</artifactId>\n<version>1</version>\n<scope>test</scope>\n</dependency>\n<dependency>\n<groupId>g</groupId>\n<artifactId>b</artifactId>\n<version>1</version>\n<scope>odd</scope>\n</dependency>\n</dependencies>");
    let deps = to_dependencies(&maven);
    assert_eq!(deps[0].scope, DependencyScope::Test);
    assert_eq!(deps[1].scope, DependencyScope::Compile);
    assert!(!deps[0].optional);
    assert_eq!(deps[0].classifier, None);
}

#[test]
fn project_from_native_configuration() {
    let p = Project::from_jx_config("[project]\nname = \"demo\"\ntype = \"gradle\"\n").unwrap();
    assert_eq!(p.name, "demo");
    assert_eq!(p.project_type, ProjectType::Gradle);
    assert_eq!(p.version, "1.0.0");
    let p = Project::from_jx_config("[project]\ntype = \"maven\"\n").unwrap();
    assert_eq!(p.name, "unknown");
    assert_eq!(p.project_type, ProjectType::Maven);
    let p = Project::from_jx_config("[project]\nname = 3\ntype = \"other\"\n").unwrap();
    assert_eq!(p.name, "unknown");
    assert_eq!(p.project_type, ProjectType::Jx);
    let p = Project::from_jx_config("project = \"text\"\n").unwrap();
    assert_eq!(p.name, "unknown");
    assert_eq!(p.project_type, ProjectType::Jx);
}

#[test]
fn project_from_native_configuration_errors() {
    assert_eq!(
        Project::from_jx_config("[build]\nx = 1\n").map(|p| p.name),
        Err(ProjectError::MissingProjectSection)
    );
    assert_eq!(Project::from_jx_config("").map(|p| p.name), Err(ProjectError::MissingProjectSection));
    assert_eq!(
        Project::from_jx_config("[project\nname = ").map(|p| p.name),
        Err(ProjectError::InvalidToml)
    );
}

#[test]
fn project_from_parsed_toml() {
    let value: toml::Value = toml::from_str("[project]\nname = \"n\"\n[other]\nname = \"m\"\n").unwrap();
    let p = Project::from_toml(&value).unwrap();
    assert_eq!(p.name, "n");
    assert_eq!(p.project_type, ProjectType::Jx);
    let value: toml::Value = toml::from_str("[other]\nname = \"m\"\n").unwrap();
    assert_eq!(Project::from_toml(&value).map(|p| p.name), Err(ProjectError::MissingProjectSection));
}

#[test]
fn project_from_pom() {
    let p = Project::from_maven_pom(
        "<project>\n  <artifactId>first</artifactId>\n  <version>2.0</version>\n  <artifactId> second </artifactId>  \n  <artifactId>open\n</project>",
    );
    assert_eq!(p.name, " second ");
    assert_eq!(p.project_type, ProjectType::Maven);
    assert_eq!(p.version, "1.0.0");
    assert_eq!(Project::from_maven_pom("<project/>").name, "unknown");
    assert_eq!(Project::from_maven_pom("<artifactId></artifactId>").name, "");
}

#[test]
fn project_from_gradle_script() {
    let p = Project::from_gradle_build("plugins {}\nrootProject.name = 'demo'\nname = 'other'\n");
    assert_eq!(p.name, "demo");
    assert_eq!(p.project_type, ProjectType::Gradle);
    assert_eq!(Project::from_gradle_build("rootProject.name = \"demo\"").name, "unknown");
    assert_eq!(Project::from_gradle_build("rootProject.name = 'a' + 'b'").name, "a' + 'b");
    assert_eq!(Project::from_gradle_build("rootProject.name = 'open").name, "unknown");
    assert_eq!(Project::from_gradle_build("  rootProject.name='x'\nrootProject.name = 'y'").name, "y");
}

#[test]
fn configuration_is_chosen_in_order() {
    assert_eq!(choose_config(true, true, true), Some(ProjectType::Jx));
    assert_eq!(choose_config(false, true, true), Some(ProjectType::Maven));
    assert_eq!(choose_config(false, false, true), Some(ProjectType::Gradle));
    assert_eq!(choose_config(false, false, false), None);
}

#[test]
fn tag_values() {
    assert_eq!(read_tag("<version>4.13.2</version>", "<version>", "</version>"), Some("4.13.2".to_string()));
    assert_eq!(read_tag("<version></version>", "<version>", "</version>"), None);
    assert_eq!(read_tag("<version>1</versio>", "<version>", "</version>"), None);
    assert_eq!(read_tag(" <version>1</version>", "<version>", "</version>"), None);
    assert_eq!(read_tag("<version>", "<version>", "</version>"), None);
    assert_eq!(read_tag("<a>", "<a>", "a>"), None);
    assert_eq!(read_tag("<a>é</a>", "<a>", "</a>"), Some("é".to_string()));
    assert_eq!(read_tag("<a><a>x</a></a>", "<a>", "</a>"), Some("<a>x</a>".to_string()));
}
