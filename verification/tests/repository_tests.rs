use lpm::command::add::validate_package_name;
use lpm::luarocks::formats::rockspec::RockSpec;
use lpm::luarocks::formats::rockspec::RockSpecSource;
use lpm::luarocks::luarocks_repo::LuaRocksNamespaceRepo;
use lpm::luarocks::luarocks_repo::LuaRocksRepoPackage;
use lpm::luarocks::luarocks_repo::LuaRocksRepoPackageVersion;
use lpm::repository::lpm_lockfile::LPMLockfile;
use lpm::repository::lpm_lockfile::LPMLockfilePackage;
use lpm::repository::lpm_repository::LPMRepository;
use lpm::repository::lpm_repository::LPMRepositoryInfo;
use lpm::repository::repository::check_if_folder_is_a_repo;

fn sample_rockspec(url: &str) -> RockSpec {
    RockSpec {
        rockspec_format: None,
        package: "json".to_string(),
        version: "1.0-1".to_string(),
        description: None,
        source: RockSpecSource { url: url.to_string() },
    }
}

fn sample_repo() -> LPMRepository {
    LPMRepository::new(
        LPMRepositoryInfo { name: "proj".to_string(), version: "0.1".to_string() },
        ".".to_string(),
    )
}

#[test]
fn package_name_needs_a_namespace() {
    let err = validate_package_name("json").unwrap_err();
    assert_eq!(
        err,
        "Non-namespaced packages are not yet supported, please add packages as NAMESPACE/PACKAGE"
    );
}

#[test]
fn package_name_rejects_extra_separators() {
    let err = validate_package_name("a/b/c").unwrap_err();
    assert_eq!(err, "Unknown package format, please use as NAMESPACE/PACKAGE");
}

#[test]
fn package_name_splits_and_trims() {
    let (ns, pkg) = validate_package_name(" rxi / json ").unwrap();
    assert_eq!(ns, "rxi");
    assert_eq!(pkg, "json");
}

#[test]
fn namespace_repo_finds_packages_by_name() {
    let mut repo = LuaRocksNamespaceRepo::new("rxi".to_string());
    repo.packages.push(LuaRocksRepoPackage::new("json".to_string()));
    repo.packages.push(LuaRocksRepoPackage::new("classic".to_string()));
    assert_eq!(repo.get_package_by_name("classic").unwrap().name, "classic");
    assert!(repo.get_package_by_name("absent").is_none());
}

#[test]
fn package_versions_latest_and_specific() {
    let mut pkg = LuaRocksRepoPackage::new("json".to_string());
    assert!(pkg.get_latest_package_version().is_none());
    pkg.versions.push(LuaRocksRepoPackageVersion::new("1.0-1".to_string(), "rockspec".to_string()));
    pkg.versions.push(LuaRocksRepoPackageVersion::new("1.1-1".to_string(), "rockspec".to_string()));
    assert_eq!(pkg.get_latest_package_version().unwrap().version, "1.1-1");
    assert_eq!(pkg.get_specific_package_version("1.0-1").unwrap().version, "1.0-1");
    assert!(pkg.get_specific_package_version("9.9-9").is_none());
}

#[test]
fn lockfile_records_packages_in_order() {
    let mut lock = LPMLockfile::new();
    lock.add_package(LPMLockfilePackage {
        name: "json".to_string(),
        version: "1.0-1".to_string(),
        source: "git+https://example.test/json".to_string(),
        last_commit_hash: Some("abc123".to_string()),
    });
    assert_eq!(lock.version, 1);
    assert_eq!(lock.packages.len(), 1);
    assert_eq!(lock.packages[0].name, "json");
}

#[test]
fn add_package_records_dependency_and_lock_entry() {
    let mut repo = sample_repo();
    let spec = sample_rockspec("git+https://example.test/json.git");
    repo.add_package(&spec, "abc123".to_string()).unwrap();
    assert_eq!(repo.dependencies, vec![("json".to_string(), "1.0-1".to_string())]);
    assert_eq!(repo.lockfile.packages.len(), 1);
    assert_eq!(repo.lockfile.packages[0].source, "git+https://example.test/json.git");
    assert_eq!(repo.lockfile.packages[0].last_commit_hash, Some("abc123".to_string()));
    assert_eq!(
        repo.get_repository_package_version(&"json".to_string()),
        Some("1.0-1".to_string())
    );
}

#[test]
fn add_package_skips_installed_packages() {
    let mut repo = sample_repo();
    let spec = sample_rockspec("git+https://example.test/json.git");
    repo.add_package(&spec, "abc123".to_string()).unwrap();
    repo.add_package(&spec, "def456".to_string()).unwrap();
    assert_eq!(repo.dependencies.len(), 1);
    assert_eq!(repo.lockfile.packages.len(), 1);
}

#[test]
fn add_package_rejects_non_git_sources() {
    let mut repo = sample_repo();
    let spec = sample_rockspec("https://example.test/json.tar.gz");
    let err = repo.add_package(&spec, "abc123".to_string()).unwrap_err();
    assert_eq!(err, "Only git packages are supported for now");
    assert!(repo.dependencies.is_empty());
    assert!(repo.lockfile.packages.is_empty());
}

#[test]
fn git_clone_url_strips_the_marker() {
    let spec = sample_rockspec("git+https://example.test/json.git");
    assert_eq!(
        LPMRepository::git_clone_url(&spec).unwrap(),
        "https://example.test/json.git"
    );
    let plain = sample_rockspec("https://example.test/json.git");
    assert!(LPMRepository::git_clone_url(&plain).is_err());
}

#[test]
fn repository_file_paths() {
    let repo = sample_repo();
    assert_eq!(repo.get_package_file_path(), "./package.toml");
    assert_eq!(repo.get_lockfile_file_path(), "./package.lock.toml");
}

#[test]
fn folder_is_a_repo_when_the_manifest_is_listed() {
    let listing = vec!["src".to_string(), "package.toml".to_string()];
    assert!(check_if_folder_is_a_repo(&listing));
    assert!(LPMRepository::is_folder_repository(&listing));
    let bare = vec!["src".to_string()];
    assert!(!check_if_folder_is_a_repo(&bare));
    assert!(!LPMRepository::is_folder_repository(&bare));
}
