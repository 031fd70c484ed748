use jx::download::Downloader;
use jx::install::Installer;
use jx::registry::{MavenRegistry, MavenRepository};

fn repo(name: &str) -> MavenRepository {
    MavenRepository {
        name: name.to_string(),
        url: format!("https://{}.example/", name),
        username: None,
        password: None,
        releases: true,
        snapshots: true,
    }
}

#[test]
fn registry_starts_with_two_repositories() {
    let registry = MavenRegistry::new();
    let central = registry.get_repository("Maven Central").unwrap();
    assert_eq!(central.url, "https://repo1.maven.org/maven2/");
    assert!(central.releases);
    assert!(!central.snapshots);
    assert_eq!(central.username, None);
    let jcenter = registry.get_repository("JCenter").unwrap();
    assert_eq!(jcenter.url, "https://jcenter.bintray.com/");
    assert!(registry.get_repository("other").is_none());
    assert_eq!(registry.get_cache_size(), 0);
}

#[test]
fn add_and_remove_repositories() {
    let mut registry = MavenRegistry::new();
    registry.add_repository(repo("mine"));
    registry.add_repository(repo("yours"));
    registry.add_repository(repo("mine"));
    assert_eq!(registry.get_repository("mine").unwrap().url, "https://mine.example/");
    assert!(registry.remove_repository("mine"));
    assert!(registry.get_repository("mine").is_none());
    assert!(registry.get_repository("yours").is_some());
    assert!(registry.get_repository("Maven Central").is_some());
    assert!(!registry.remove_repository("mine"));
    assert!(!registry.remove_repository("nobody"));
}

#[test]
fn metadata_is_cached_once_per_artifact() {
    let mut registry = MavenRegistry::new();
    let m = registry.get_artifact_metadata("g", "a");
    assert_eq!(m.group_id, "g");
    assert_eq!(m.artifact_id, "a");
    assert_eq!(m.versions, vec!["1.0.0"]);
    assert_eq!(m.latest, "1.0.0");
    assert_eq!(m.release, Some("1.0.0".to_string()));
    assert_eq!(m.last_updated, "2024-01-01");
    assert_eq!(registry.get_cache_size(), 1);
    let again = registry.get_artifact_metadata("g", "a");
    assert_eq!(again.artifact_id, "a");
    assert_eq!(registry.get_cache_size(), 1);
    registry.get_artifact_metadata("g", "b");
    assert_eq!(registry.get_cache_size(), 2);
    registry.clear_cache();
    assert_eq!(registry.get_cache_size(), 0);
    assert!(registry.get_repository("JCenter").is_some());
}

#[test]
fn download_url_of_the_registry() {
    let registry = MavenRegistry::new();
    assert_eq!(
        registry.get_download_url("org.apache.commons", "commons-lang3", "3.12.0", None),
        "https://repo1.maven.org/maven2/org/apache/commons/commons-lang3/3.12.0/commons-lang3-3.12.0.jar"
    );
    assert_eq!(
        registry.get_download_url("junit", "junit", "4.13", Some("sources")),
        "https://repo1.maven.org/maven2/junit/junit/4.13/junit-4.13-sources.jar"
    );
}

#[test]
fn downloader_paths_and_urls() {
    let downloader = Downloader::in_home("/home/me");
    assert_eq!(downloader.cache_dir(), "/home/me/.jx/cache");
    assert_eq!(
        downloader.cache_path("org.example", "lib", "1.0", None),
        "/home/me/.jx/cache/org.example/lib/lib-1.0.jar"
    );
    assert_eq!(
        downloader.cache_path("org.example", "lib", "1.0", Some("tests")),
        "/home/me/.jx/cache/org.example/lib/lib-1.0-tests.jar"
    );
    assert_eq!(
        downloader.build_maven_central_url("org.example", "lib", "1.0", None),
        "https://repo1.maven.org/maven2/org/example/lib/1.0/lib-1.0.jar"
    );
    assert_eq!(
        downloader.build_maven_central_url("org.example", "lib", "1.0", Some("tests")),
        "https://repo1.maven.org/maven2/org/example/lib/1.0/lib-1.0-tests.jar"
    );
}

#[test]
fn installer_puts_jars_under_lib() {
    let installer = Installer::new();
    assert_eq!(installer.lib_dir(), "lib");
    assert_eq!(installer.lib_path("a-1.0.jar"), "lib/a-1.0.jar");
}

#[test]
fn defaults_are_the_new_values() {
    assert_eq!(Installer::default().lib_dir(), "lib");
    let registry = MavenRegistry::default();
    assert!(registry.get_repository("Maven Central").is_some());
    assert_eq!(registry.get_cache_size(), 0);
    assert_eq!(jx::resolve::DependencyResolver::default().len(), 0);
}
