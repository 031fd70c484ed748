use jx::dependency::Coordinate;
use jx::editor::{
    add_to_gradle, add_to_jx_config, add_to_maven, find_beginning, find_holding, find_reading, join_lines,
    remove_from_gradle, remove_from_jx_config, remove_from_maven, replace_all, update_gradle_dependency,
    update_jx_config, update_jx_dependency, update_maven_dependency, EditError, BASIC_JX_CONFIG,
};

fn coordinate(group: &str, artifact: &str, version: Option<&str>) -> Coordinate {
    Coordinate {
        group_id: group.to_string(),
        artifact_id: artifact.to_string(),
        version: version.map(|v| v.to_string()),
    }
}

#[test]
fn replacing_agrees_with_std() {
    let texts = ["", "a", "aaa", "abab", "a = \"1\" = \"", "::", "a:b:c", "xaxaax", "é = \"ü\""];
    let patterns = ["a", "aa", "ab", " = \"", ":", "x", "é", "zzz"];
    let targets = ["", "b", "aa", " = \"*\"", ":+"];
    for text in texts {
        for pattern in patterns {
            for to in targets {
                assert_eq!(replace_all(text, pattern, to), text.replace(pattern, to), "{:?} {:?} {:?}", text, pattern, to);
            }
        }
    }
    assert_eq!(replace_all("abc", "", "x"), "abc");
}

#[test]
fn joining_lines() {
    assert_eq!(join_lines(&vec!["a".to_string(), "".to_string(), "b".to_string()]), "a\n\nb");
    assert_eq!(join_lines(&Vec::new()), "");
    assert_eq!(join_lines(&vec!["only".to_string()]), "only");
}

#[test]
fn finding_lines() {
    let all: Vec<String> = ["  [a]  ", "x:y = 1", "[a]", "  say 'x:y:1'"].iter().map(|s| s.to_string()).collect();
    assert_eq!(find_reading(&all, "[a]"), Some(0));
    assert_eq!(find_reading(&all, "[b]"), None);
    assert_eq!(find_beginning(&all, "x:y"), Some(1));
    assert_eq!(find_beginning(&all, "say"), Some(3));
    assert_eq!(find_beginning(&all, "y"), None);
    assert_eq!(find_holding(&all, "'x:y"), Some(3));
    assert_eq!(find_holding(&all, ":y"), Some(1));
    assert_eq!(find_holding(&all, "zzz"), None);
}

#[test]
fn native_configuration_takes_a_dependency() {
    assert_eq!(
        add_to_jx_config("[project]\nname = \"p\"\n\n  [dependencies]  \na:b = \"1\"\n", &coordinate("g", "x", Some("2.0"))),
        "[project]\nname = \"p\"\n\n  [dependencies]  \ng:x = \"2.0\"\na:b = \"1\""
    );
    assert_eq!(
        add_to_jx_config("[project]\r\nname = \"p\"", &coordinate("g", "x", None)),
        "[project]\nname = \"p\"\n[dependencies]\ng:x = \"*\""
    );
    assert_eq!(add_to_jx_config("", &coordinate("g", "x", None)), "[dependencies]\ng:x = \"*\"");
    assert_eq!(
        add_to_jx_config(BASIC_JX_CONFIG, &coordinate("g", "x", Some("1"))),
        "[project]\nname = \"my-java-project\"\ntype = \"maven\"\nversion = \"1.0.0\"\njava_version = \"11\"\n\n[build]\nmain_class = \"com.example.Main\"\ntest_class = \"com.example.MainTest\"\n\n[dependencies]\ng:x = \"1\""
    );
}

#[test]
fn pom_takes_a_dependency() {
    let pom = "<project>\n  <dependencies>\n    <dependency>\n    </dependency>\n  </dependencies>\n  </dependencies>\n</project>\n";
    assert_eq!(
        add_to_maven(pom, &coordinate("g", "x", Some("2.0")), "test").unwrap(),
        "<project>\n  <dependencies>\n    <dependency>\n    </dependency>\n        <dependency>\n            <groupId>g</groupId>\n            <artifactId>x</artifactId>\n            <version>2.0</version>\n            <scope>test</scope>\n        </dependency>\n  </dependencies>\n  </dependencies>\n</project>"
    );
    assert_eq!(
        add_to_maven("a\n<dependencies>\nb", &coordinate("g", "x", None), "compile").unwrap(),
        "        <dependency>\n            <groupId>g</groupId>\n            <artifactId>x</artifactId>\n            <version>*</version>\n            <scope>compile</scope>\n        </dependency>\na\n<dependencies>\nb"
    );
    assert_eq!(
        add_to_maven("<project>\n</dependencies>\n</project>", &coordinate("g", "x", None), "compile"),
        Err(EditError::NoDependenciesSection)
    );
    assert_eq!(add_to_maven("", &coordinate("g", "x", None), "compile"), Err(EditError::NoDependenciesSection));
}

#[test]
fn gradle_script_takes_a_dependency() {
    assert_eq!(
        add_to_gradle("plugins {}\n  dependencies {\n}\ndependencies {\n}", &coordinate("g", "x", Some("2.0")), "implementation").unwrap(),
        "plugins {}\n  dependencies {\n    implementation 'g:x:2.0'\n}\ndependencies {\n}"
    );
    assert_eq!(
        add_to_gradle("dependencies {", &coordinate("g", "x", None), "testImplementation").unwrap(),
        "dependencies {\n    testImplementation 'g:x'"
    );
    assert_eq!(
        add_to_gradle("dependencies{\n}", &coordinate("g", "x", None), "api"),
        Err(EditError::NoDependenciesSection)
    );
}

#[test]
fn dependencies_are_taken_out() {
    assert_eq!(
        remove_from_jx_config("[dependencies]\na:b = \"1\"\n  g:x = \"2\"\ng:x = \"3\"\n", "g", "x"),
        ("[dependencies]\na:b = \"1\"\ng:x = \"3\"".to_string(), true)
    );
    assert_eq!(
        remove_from_jx_config("[dependencies]\na:b = \"1\"\n", "g", "x"),
        ("[dependencies]\na:b = \"1\"".to_string(), false)
    );
    assert_eq!(
        remove_from_gradle("dependencies {\n  implementation 'a:b:1'\n  api 'g:x:2'\n  api 'g:x:3'\n}", "g", "x"),
        ("dependencies {\n  implementation 'a:b:1'\n  api 'g:x:3'\n}".to_string(), true)
    );
    assert_eq!(remove_from_gradle("api \"g:x:2\"", "g", "x"), ("api \"g:x:2\"".to_string(), false));
}

const POM: &str = "<dependencies>\n  <dependency>\n    <groupId>a</groupId>\n    <artifactId>b</artifactId>\n    <version>1</version>\n  </dependency>\n  <dependency>\n    <groupId>g</groupId>\n  <dependency>\n    <groupId>g</groupId>\n    <artifactId>x</artifactId>\n    <scope>test</scope>\n    <version>2</version>\n    <version>3</version>\n  </dependency>\n  <dependency>\n    <groupId>g</groupId>\n    <artifactId>x</artifactId>\n  </dependency>\n</dependencies>";

#[test]
fn pom_element_is_taken_out() {
    assert_eq!(
        remove_from_maven(POM, "g", "x"),
        (
            "<dependencies>\n  <dependency>\n    <groupId>a</groupId>\n    <artifactId>b</artifactId>\n    <version>1</version>\n  </dependency>\n  <dependency>\n    <groupId>g</groupId>\n  <dependency>\n    <groupId>g</groupId>\n    <artifactId>x</artifactId>\n  </dependency>\n</dependencies>".to_string(),
            true
        )
    );
    assert_eq!(remove_from_maven(POM, "g", "b"), (POM.to_string(), false));
    assert_eq!(remove_from_maven("", "g", "x"), ("".to_string(), false));
    assert_eq!(
        remove_from_maven("</dependency>\n<dependency>\n<groupId>g</groupId><artifactId>x</artifactId>\n</dependency>\ntail\n", "g", "x"),
        ("</dependency>\ntail".to_string(), true)
    );
}

#[test]
fn versions_are_set_free() {
    assert_eq!(
        update_jx_dependency("[dependencies]\n  g:x = \"2\"  \ng:x = \"3\"", "g", "x"),
        ("[dependencies]\ng:x = \"*\"2\"\ng:x = \"3\"".to_string(), true)
    );
    assert_eq!(update_jx_dependency("a:b = \"1\"", "g", "x"), ("a:b = \"1\"".to_string(), false));
    assert_eq!(
        update_jx_config("[dependencies]\n  g:x = \"2\"\na:b = \"*\"\nplain\n c = \"1\" = \"2\""),
        "[dependencies]\ng:x = \"*\"2\"\na:b = \"*\"\nplain\nc = \"*\"1\" = \"*\"2\""
    );
    assert_eq!(
        update_gradle_dependency("dependencies {\n    api 'g:x:1'\n    api 'g:x:2'\n}", "g", "x"),
        ("dependencies {\napi 'g:+x:+1'\n    api 'g:x:2'\n}".to_string(), true)
    );
    assert_eq!(update_gradle_dependency("api 'a:b:1'", "g", "x"), ("api 'a:b:1'".to_string(), false));
    assert_eq!(
        update_maven_dependency(POM, "g", "x"),
        (POM.replacen("    <version>2</version>", "            <version>*</version>", 1), true)
    );
    assert_eq!(update_maven_dependency(POM, "a", "b").0, POM.replacen("    <version>1</version>", "            <version>*</version>", 1));
    assert_eq!(update_maven_dependency(POM, "g", "nothing"), (POM.to_string(), false));
    assert_eq!(
        update_maven_dependency("<dependency>\n<groupId>g</groupId>\n<artifactId>x</artifactId>\n</dependency>", "g", "x"),
        ("<dependency>\n<groupId>g</groupId>\n<artifactId>x</artifactId>\n</dependency>".to_string(), false)
    );
}
