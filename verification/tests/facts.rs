use jx::facts::{
    cut, detect_test_framework, find_main_class, get_gradle_project_info, get_gradle_test_config,
    get_jx_project_info, get_jx_test_config, get_main_class_from_config, get_maven_project_info,
    get_maven_test_config, strip_prefix, ConfigFile, ProjectInfo, TestFacts,
};

#[test]
fn cutting_by_places() {
    assert_eq!(cut("<a>xyz</a>", 3, 4, false), Some("xyz".to_string()));
    assert_eq!(cut("<a></a>", 3, 4, false), Some("".to_string()));
    assert_eq!(cut("<a></a>", 3, 4, true), None);
    assert_eq!(cut("<a></a>", 4, 4, false), None);
    assert_eq!(cut("", 0, 0, false), Some("".to_string()));
    assert_eq!(cut("", 0, 1, false), None);
    assert_eq!(cut("héllo", 1, 1, true), Some("éll".to_string()));
}

#[test]
fn unknown_project() {
    let info = ProjectInfo::unknown();
    assert_eq!(info.name, "未知");
    assert_eq!(info.version, "未知");
    assert_eq!(info.description, None);
    assert_eq!(info.group_id, None);
    let info = ProjectInfo::named("demo");
    assert_eq!(info.name, "demo");
    assert_eq!(info.version, "未知");
    assert_eq!(info.source_encoding, None);
}

#[test]
fn pom_facts() {
    let pom = "<project>\n  <groupId>com.example</groupId>\n  <artifactId>demo-app</artifactId>\n  <version>1.2.3</version>\n  <packaging>jar</packaging>\n  <description>A demo</description>\n  <maven.compiler.source>17</maven.compiler.source>\n  <maven.compiler.source></maven.compiler.source>\n  <project.build.sourceEncoding>UTF-8</project.build.sourceEncoding>\n  <groupId>x</groupId>\n  <version></version>\n</project>\n";
    let info = get_maven_project_info(pom);
    assert_eq!(info.group_id, Some("x".to_string()));
    assert_eq!(info.artifact_id, Some("demo-app".to_string()));
    assert_eq!(info.name, "demo-app");
    assert_eq!(info.version, "");
    assert_eq!(info.packaging, Some("jar".to_string()));
    assert_eq!(info.description, Some("A demo".to_string()));
    assert_eq!(info.java_version, Some("17".to_string()));
    assert_eq!(info.source_encoding, Some("UTF-8".to_string()));
    let info = get_maven_project_info("");
    assert_eq!(info.name, "未知");
    assert_eq!(info.version, "未知");
    let info = get_maven_project_info("  <groupId>com.example</groupId>\n<version>1.2.3</version>  \n<artifactId>a</artifactId\n<groupId></groupId\n");
    assert_eq!(info.group_id, Some("com.example".to_string()));
    assert_eq!(info.version, "1.2.3");
    assert_eq!(info.artifact_id, None);
    assert_eq!(info.name, "未知");
}

#[test]
fn gradle_facts() {
    let script = "rootProject.name = 'demo'\nversion = '2.0'\ngroup = 'com.example'\nsourceCompatibility = '17'\nversionCatalog 'x' 'y'\ngroup 'open\n";
    let info = get_gradle_project_info(script);
    assert_eq!(info.name, "demo");
    assert_eq!(info.version, "x' 'y");
    assert_eq!(info.group_id, Some("com.example".to_string()));
    assert_eq!(info.java_version, Some("17".to_string()));
    assert_eq!(info.artifact_id, None);
}

#[test]
fn native_facts() {
    let text = "[project]\nname = \"demo\"\nversion = \"1.0\"\ndescription = \"words\"\njava_version = \"21\"\nname = \"\nversion = \"\"\n";
    let info = get_jx_project_info(text);
    assert_eq!(info.name, "demo");
    assert_eq!(info.version, "");
    assert_eq!(info.description, Some("words".to_string()));
    assert_eq!(info.java_version, Some("21".to_string()));
}

#[test]
fn test_frameworks() {
    assert_eq!(detect_test_framework("uses junit and testng"), "JUnit");
    assert_eq!(detect_test_framework("uses testng"), "TestNG");
    assert_eq!(detect_test_framework("uses nothing"), "JUnit");
    assert_eq!(detect_test_framework("JUnit TestNG"), "JUnit");
}

#[test]
fn test_facts() {
    let usual = TestFacts::usual();
    assert_eq!(usual.test_framework, "JUnit");
    assert_eq!(usual.java_version, Some("11".to_string()));
    assert_eq!(usual.main_class, None);
    assert_eq!(usual.test_class, None);

    let facts = get_maven_test_config(
        "<maven.compiler.source>17</maven.compiler.source>\n<maven.compiler.target>21</maven.compiler.target>\n<maven.compiler.target></maven.compiler.target>\n<artifactId>testng</artifactId>",
    );
    assert_eq!(facts.java_version, Some("21".to_string()));
    assert_eq!(facts.test_framework, "TestNG");
    assert_eq!(facts.main_class, None);
    assert_eq!(get_maven_test_config("").java_version, Some("11".to_string()));

    let facts = get_gradle_test_config("sourceCompatibility = '17'\nmainClass = 'com.x.Main'\ntestImplementation 'junit:junit:4'");
    assert_eq!(facts.java_version, Some("17".to_string()));
    assert_eq!(facts.main_class, Some("com.x.Main".to_string()));
    assert_eq!(facts.test_framework, "JUnit");

    let facts = get_jx_test_config("main_class = \"a.B\"\ntest_class = \"a.BTest\"\njava_version = \"8\"\nmain_class = \"\"\njava_version = \"");
    assert_eq!(facts.main_class, Some("a.B".to_string()));
    assert_eq!(facts.test_class, Some("a.BTest".to_string()));
    assert_eq!(facts.java_version, Some("8".to_string()));
    assert_eq!(facts.test_framework, "JUnit");
}

#[test]
fn prefix_runs_are_stripped() {
    for (text, prefix) in [("ababc", "ab"), ("abc", "x"), ("aaa", "a"), ("", "a"), ("abc", ""), ("éé1", "é")] {
        assert_eq!(strip_prefix(text, prefix), text.trim_start_matches(prefix), "{:?} {:?}", text, prefix);
    }
}

#[test]
fn main_classes() {
    let jx = "[build]\n  main_class = \"com.x.App\"\"\nmain_class = \"other\"\n";
    assert_eq!(get_main_class_from_config(ConfigFile::Jx, jx), "com.x.App");
    assert_eq!(get_main_class_from_config(ConfigFile::Jx, "[build]\n"), "com.example.Main");
    assert_eq!(get_main_class_from_config(ConfigFile::Gradle, "application {\n  mainClass = 'a.B'\n}"), "a.B");
    assert_eq!(get_main_class_from_config(ConfigFile::Gradle, jx), "com.example.Main");
    assert_eq!(get_main_class_from_config(ConfigFile::Pom, jx), "com.example.Main");
    assert_eq!(get_main_class_from_config(ConfigFile::Other, jx), "com.example.Main");
    assert_eq!(find_main_class("k = k = v;;", "k = ", ';'), "v");
}
