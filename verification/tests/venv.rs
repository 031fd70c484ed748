use jx::dependency::{count_total_dependencies, Dependency, DependencyNode};
use jx::info::{detect_build_kind, detect_project_type, get_scope_icon, size_unit, SizeUnit};
use jx::metadata::add_transitive_dependencies;
use jx::search::{
    matches_query, parse_jar_filename, read_central_answer, read_central_docs, search_declared,
    search_maven_central_fallback, search_url,
};
use jx::text::decimal;
use jx::venv::{
    build_java_download_url, get_java_filename_from_url, parse_java_version, parse_small_number,
    venv_config_text, BuildTool, JavaRelease, VenvError,
};

#[test]
fn small_numbers_agree_with_std() {
    for text in [
        "", "+", "0", "7", "+7", "007", "255", "256", "0255", "300", "99999999999999999999", "-1", "1a",
        "a1", " 1", "1 ", "++1", "1+", "١", "25", "+255", "+256",
    ] {
        assert_eq!(parse_small_number(text), text.parse::<u8>().ok(), "{:?}", text);
    }
    for n in 0..=300u32 {
        let text = n.to_string();
        assert_eq!(parse_small_number(&text), text.parse::<u8>().ok());
    }
}

#[test]
fn java_versions() {
    assert!(matches!(parse_java_version("8"), Ok(8)));
    assert!(matches!(parse_java_version("11"), Ok(11)));
    assert!(matches!(parse_java_version("25"), Ok(25)));
    assert!(matches!(parse_java_version("1.8"), Ok(8)));
    assert!(matches!(parse_java_version("17.0.2"), Ok(17)));
    assert!(matches!(parse_java_version("21.0"), Ok(21)));
    assert!(matches!(parse_java_version("7"), Err(VenvError::UnsupportedJavaVersion(7))));
    assert!(matches!(parse_java_version("26"), Err(VenvError::UnsupportedJavaVersion(26))));
    assert!(matches!(parse_java_version("1.7"), Err(VenvError::UnsupportedJavaVersion(7))));
    for text in ["", "x", "1.8.0", "1.", ".5", "300", "11-ea"] {
        match parse_java_version(text) {
            Err(VenvError::InvalidJavaVersion(t)) => assert_eq!(t, text),
            other => panic!("{:?} gave {:?}", text, other),
        }
    }
}

fn release(os: &str, arch: &str, image: &str, name: &str, link: &str) -> JavaRelease {
    JavaRelease {
        os: os.to_string(),
        architecture: arch.to_string(),
        image_type: image.to_string(),
        package_name: name.to_string(),
        link: link.to_string(),
    }
}

#[test]
fn download_is_the_first_release_that_fits() {
    let releases = vec![
        release("linux", "x64", "jre", "a.tar.gz", "l1"),
        release("linux", "aarch64", "jdk", "b.tar.gz", "l2"),
        release("linux", "x64", "jdk", "c.zip", "l3"),
        release("linux", "x64", "jdk", "d.tar.gz", "l4"),
        release("linux", "x64", "jdk", "e.tar.gz", "l5"),
        release("windows", "x64", "jdk", "f.zip", "l6"),
        release("mac", "x64", "jdk", "g.tar.gz", "l7"),
    ];
    assert_eq!(build_java_download_url(&releases, 17, "x64", "linux").unwrap(), "l4");
    assert_eq!(build_java_download_url(&releases, 17, "aarch64", "linux").unwrap(), "l2");
    assert_eq!(build_java_download_url(&releases, 17, "x64", "windows").unwrap(), "l6");
    assert_eq!(build_java_download_url(&releases, 17, "x64", "mac").unwrap(), "l7");
    assert!(matches!(
        build_java_download_url(&releases, 17, "arm", "linux"),
        Err(VenvError::NoDownload(17))
    ));
    assert!(matches!(
        build_java_download_url(&releases, 17, "x64", "solaris"),
        Err(VenvError::NoDownload(17))
    ));
    assert!(matches!(build_java_download_url(&Vec::new(), 21, "x64", "linux"), Err(VenvError::NoRelease(21))));
}

#[test]
fn filename_from_address() {
    assert_eq!(
        get_java_filename_from_url("https://x.org/a/OpenJDK17U-jdk_x64_linux_17.0.9%2B9.tar.gz").unwrap(),
        "OpenJDK17U-jdk_x64_linux_17.0.9+9.tar.gz"
    );
    assert_eq!(get_java_filename_from_url("https://x.org/plain.zip").unwrap(), "plain.zip");
    assert_eq!(get_java_filename_from_url("https://x.org/").unwrap(), "");
    match get_java_filename_from_url("no slash here") {
        Err(VenvError::NoFilename(url)) => assert_eq!(url, "no slash here"),
        other => panic!("{:?}", other),
    }
    match get_java_filename_from_url("https://x.org/bad%FFname") {
        Err(VenvError::BadEncoding(text)) => assert_eq!(text, "bad%FFname"),
        other => panic!("{:?}", other),
    }
}

#[test]
fn configuration_text_of_an_environment() {
    let text = venv_config_text("2024-05-06 07:08:09", "17", &BuildTool::Gradle("8.5".to_string()));
    assert_eq!(
        text,
        "# jx虚拟环境配置文件\n# 创建时间: 2024-05-06 07:08:09\njava_version = \"17\"\nbuild_tool = \"gradle\"\nbuild_tool_version = \"8.5\"\n\n[paths]\nbin = \"bin\"\nlib = \"lib\"\nconf = \"conf\"\ncache = \"cache\"\n"
    );
    let tool = BuildTool::Maven("3.9.5".to_string());
    assert_eq!(tool.tool_name(), "maven");
    assert_eq!(tool.tool_version(), "3.9.5");
    assert!(matches!(tool.clone(), BuildTool::Maven(v) if v == "3.9.5"));
}

#[test]
fn jar_file_names() {
    let info = parse_jar_filename("commons-lang3.jar").unwrap();
    assert_eq!((info.group_id.as_str(), info.artifact_id.as_str(), info.version.as_str()), ("unknown", "commons", "lang3"));
    let info = parse_jar_filename("org-apache-commons-io-2.11.0.jar").unwrap();
    assert_eq!(
        (info.group_id.as_str(), info.artifact_id.as_str(), info.version.as_str()),
        ("org.apache.commons", "io", "2.11.0")
    );
    let info = parse_jar_filename("a-b-c.jar").unwrap();
    assert_eq!((info.group_id.as_str(), info.artifact_id.as_str(), info.version.as_str()), ("a", "b", "c"));
    let info = parse_jar_filename("junit-4.13.2.jar").unwrap();
    assert_eq!((info.group_id.as_str(), info.artifact_id.as_str(), info.version.as_str()), ("unknown", "junit", "4.13.2"));
    assert!(parse_jar_filename("junit.jar").is_none());
    assert!(parse_jar_filename("a-1.zip").is_none());
    assert!(parse_jar_filename("jar").is_none());
    let info = parse_jar_filename("-.jar").unwrap();
    assert_eq!((info.group_id.as_str(), info.artifact_id.as_str(), info.version.as_str()), ("unknown", "", ""));
}

#[test]
fn stand_in_search() {
    let found = search_maven_central_fallback("SPRING", 20);
    let names: Vec<&str> = found.iter().map(|r| r.artifact_id.as_str()).collect();
    assert_eq!(
        names,
        vec!["spring-core", "spring-web", "spring-boot-starter", "spring-context", "spring-beans"]
    );
    assert_eq!(found[0].group_id, "org.springframework");
    assert_eq!(found[0].version, "5.3.0");
    assert_eq!(found[0].description, Some("Spring Framework核心模块".to_string()));
    assert_eq!(found[0].source, "maven-central-fallback");
    let found = search_maven_central_fallback("spring", 2);
    assert_eq!(found.len(), 2);
    assert_eq!(found[1].artifact_id, "spring-web");
    assert_eq!(search_maven_central_fallback("apache", 20).len(), 4);
    assert_eq!(search_maven_central_fallback("", 100).len(), 21);
    assert!(search_maven_central_fallback("spring", 0).is_empty());
    assert!(search_maven_central_fallback("no such thing", 20).is_empty());
    assert!(search_maven_central_fallback("5.3.0", 20).is_empty());
}

#[test]
fn search_address() {
    assert_eq!(
        search_url("spring boot/x", 20),
        "https://search.maven.org/solrsearch/select?q=spring%20boot%2Fx&rows=20&wt=json"
    );
    assert_eq!(search_url("a-b_c.d~e", 0), "https://search.maven.org/solrsearch/select?q=a-b_c.d~e&rows=0&wt=json");
}

#[test]
fn decimal_digits() {
    for n in [0usize, 1, 9, 10, 11, 99, 100, 12345, 1000000, usize::MAX] {
        assert_eq!(decimal(n), n.to_string());
    }
}

#[test]
fn kinds_of_projects() {
    assert_eq!(detect_project_type(true, true, true, true), "jx");
    assert_eq!(detect_project_type(false, true, true, false), "Maven + Gradle");
    assert_eq!(detect_project_type(false, true, false, true), "Maven + Gradle");
    assert_eq!(detect_project_type(false, true, false, false), "Maven");
    assert_eq!(detect_project_type(false, false, true, false), "Gradle");
    assert_eq!(detect_project_type(false, false, false, true), "Gradle");
    assert_eq!(detect_project_type(false, false, false, false), "未知");
}

#[test]
fn scope_labels() {
    assert_eq!(get_scope_icon("compile"), "📦 编译");
    assert_eq!(get_scope_icon("runtime"), "🔄 运行时");
    assert_eq!(get_scope_icon("test"), "🧪 测试");
    assert_eq!(get_scope_icon("provided"), "⚡ 提供");
    assert_eq!(get_scope_icon("system"), "💻 系统");
    assert_eq!(get_scope_icon("implementation"), "📦 实现");
    assert_eq!(get_scope_icon("compileOnly"), "📝 仅编译");
    assert_eq!(get_scope_icon("runtimeOnly"), "🔄 仅运行时");
    assert_eq!(get_scope_icon("testImplementation"), "🧪 测试实现");
    assert_eq!(get_scope_icon("anything"), "📦 其他");
}

#[test]
fn offline_requirements_hang_below_a_node() {
    let mut node = DependencyNode::new(Dependency::new("org.mockito", "mockito-junit-jupiter", "4.5.1"), 2);
    node.add_child(DependencyNode::new(Dependency::new("x", "y", "1"), 3));
    add_transitive_dependencies(&mut node);
    let keys: Vec<String> = node.children.iter().map(|c| c.dependency.coordinate()).collect();
    assert_eq!(keys, vec!["x:y:1", "org.mockito:mockito-core:4.5.1", "org.junit.jupiter:junit-jupiter-api:5.8.2"]);
    assert!(node.children.iter().all(|c| c.depth == 3 && c.children.is_empty()));
    assert_eq!(node.depth, 2);
    assert_eq!(count_total_dependencies(&vec![node]), 4);
    assert_eq!(count_total_dependencies(&Vec::new()), 0);
}

#[test]
fn build_systems() {
    assert_eq!(detect_build_kind(true, true, false), "both");
    assert_eq!(detect_build_kind(true, false, true), "both");
    assert_eq!(detect_build_kind(true, false, false), "maven");
    assert_eq!(detect_build_kind(false, true, false), "gradle");
    assert_eq!(detect_build_kind(false, false, true), "gradle");
    assert_eq!(detect_build_kind(false, false, false), "unknown");
}

#[test]
fn answer_of_the_central_index() {
    let answer = r#"{"responseHeader":{"status":0},"response":{"numFound":3,"docs":[
        {"id":"x","g":"org.x","a":"lib","v":"1.0","description":"A library","p":"jar"},
        {"g":"org.y","a":"core"},
        {"g":"org.z","a":"tool","v":"2.1","description":7},
        {"g":null,"a":"n","v":"1"},
        "text",
        {"g":"org.w","a":"w","v":"3","v2":{"g":"inner"}}
    ]}}"#;
    let found = read_central_answer(answer, "spring", 20);
    let rows: Vec<(String, String, String, Option<String>)> = found
        .iter()
        .map(|r| (r.group_id.clone(), r.artifact_id.clone(), r.version.clone(), r.description.clone()))
        .collect();
    assert_eq!(
        rows,
        vec![
            ("org.x".to_string(), "lib".to_string(), "1.0".to_string(), Some("A library".to_string())),
            ("org.z".to_string(), "tool".to_string(), "2.1".to_string(), None),
            ("org.w".to_string(), "w".to_string(), "3".to_string(), None),
        ]
    );
    assert!(found.iter().all(|r| r.source == "maven-central"));
    let value: serde_json::Value = serde_json::from_str(answer).unwrap();
    assert_eq!(read_central_docs(&value).len(), 3);
}

#[test]
fn answer_without_results_falls_back() {
    for answer in [
        "",
        "not json",
        "{}",
        "[]",
        r#"{"response":{}}"#,
        r#"{"response":{"docs":{}}}"#,
        r#"{"response":{"docs":[]}}"#,
        r#"{"response":[{"docs":[{"g":"a","a":"b","v":"c"}]}]}"#,
        r#"{"docs":[{"g":"a","a":"b","v":"c"}]}"#,
    ] {
        let found = read_central_answer(answer, "junit", 20);
        assert_eq!(found.len(), 2, "{:?}", answer);
        assert_eq!(found[0].source, "maven-central-fallback");
        assert_eq!(found[0].artifact_id, "junit");
        assert_eq!(found[1].artifact_id, "mockito-junit-jupiter");
    }
}

#[test]
fn declared_dependencies_that_hold_the_query() {
    let declared = jx::adapter::parse_gradle_dependencies(
        "dependencies {\nimplementation 'org.Spring:core:1'\napi 'a:b:2'\napi 'x:my-spring-y:3'\n}",
    );
    let found = search_declared(&declared, "SPRING", "words", "build.gradle");
    assert_eq!(found.len(), 2);
    assert_eq!(found[0].group_id, "org.Spring");
    assert_eq!(found[1].artifact_id, "my-spring-y");
    assert_eq!(found[1].description, Some("words".to_string()));
    assert_eq!(found[1].source, "build.gradle");
    assert!(matches_query("Commons-IO.jar", "commons"));
    assert!(matches_query("abc", ""));
    assert!(!matches_query("abc", "abcd"));
}

#[test]
fn size_units_by_powers_of_1024() {
    assert_eq!(size_unit(0), SizeUnit::Bytes);
    assert_eq!(size_unit(1023), SizeUnit::Bytes);
    assert_eq!(size_unit(1024), SizeUnit::Kilobytes);
    assert_eq!(size_unit(1024 * 1024 - 1), SizeUnit::Kilobytes);
    assert_eq!(size_unit(1024 * 1024), SizeUnit::Megabytes);
    assert_eq!(size_unit(1024 * 1024 * 1024 - 1), SizeUnit::Megabytes);
    assert_eq!(size_unit(1024 * 1024 * 1024), SizeUnit::Gigabytes);
    assert_eq!(size_unit(u64::MAX), SizeUnit::Gigabytes);
    assert_eq!(SizeUnit::Bytes.bytes(), 1);
    assert_eq!(SizeUnit::Kilobytes.bytes(), 1024);
    assert_eq!(SizeUnit::Megabytes.bytes(), 1048576);
    assert_eq!(SizeUnit::Gigabytes.bytes(), 1073741824);
    assert_eq!(SizeUnit::Bytes.label(), "B");
    assert_eq!(SizeUnit::Kilobytes.label(), "KB");
    assert_eq!(SizeUnit::Megabytes.label(), "MB");
    assert_eq!(SizeUnit::Gigabytes.label(), "GB");
}
