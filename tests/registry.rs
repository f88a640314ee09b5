use nosman::error::CommandError;
use nosman::index::{Index, PackageReleaseEntry, PackageType};
use nosman::module::{InstalledModule, ModuleType};
use nosman::semver::SemVer;
use nosman::workspace::{
    current_root, find_root_from, get_nosman_dir_for, get_nosman_index_filepath,
    get_nosman_index_filepath_for, set_current_root, workspace_exists, exists_in, ScanOutcome,
    Workspace, WorkspaceContext, RescanFlags,
};

fn module(name: &str, version: &str, manifest: &str) -> InstalledModule {
    let mut m = InstalledModule::new(manifest.to_string());
    m.info.id.name = name.to_string();
    m.info.id.version = version.to_string();
    m
}

fn release(version: &str, platform: Option<&str>) -> PackageReleaseEntry {
    PackageReleaseEntry {
        version: version.to_string(),
        url: format!("https://example.com/{version}.zip"),
        plugin_api_version: None,
        subsystem_api_version: None,
        release_date: None,
        dependencies: None,
        category: None,
        module_tags: None,
        release_tags: None,
        platform: platform.map(|p| p.to_string()),
    }
}

fn v(s: &str) -> SemVer {
    SemVer::parse_from_string(s).unwrap()
}

#[test]
fn empty_registry_is_valid() {
    let ws = Workspace::new_empty("/ws".to_string());
    assert!(ws.installed_modules.is_empty());
    assert!(ws.get_installed_module("a", "1.0.0").is_none());
}

#[test]
fn exact_lookup() {
    let mut ws = Workspace::new_empty("/ws".to_string());
    ws.add(module("nos.a", "1.0.0", "Module/a/a.noscfg"));
    ws.add(module("nos.a", "1.1.0", "Module/a11/a.noscfg"));
    let m = ws.get_installed_module("nos.a", "1.1.0").unwrap();
    assert_eq!(m.manifest_path, "Module/a11/a.noscfg");
    assert!(ws.get_installed_module("nos.a", "1.2.0").is_none());
    assert!(ws.get_installed_module("nos.b", "1.0.0").is_none());
}

#[test]
fn add_overwrites_same_version() {
    let mut ws = Workspace::new_empty("/ws".to_string());
    ws.add(module("nos.a", "1.0.0", "first/a.noscfg"));
    ws.add(module("nos.a", "1.0.0", "second/a.noscfg"));
    assert_eq!(ws.installed_modules.len(), 1);
    assert_eq!(ws.get_installed_module("nos.a", "1.0.0").unwrap().manifest_path, "second/a.noscfg");
}

#[test]
fn latest_installed_within_range() {
    let mut ws = Workspace::new_empty("/ws".to_string());
    ws.add(module("nos.a", "1.2.0", "a120/a.noscfg"));
    ws.add(module("nos.a", "1.2.10", "a1210/a.noscfg"));
    ws.add(module("nos.a", "1.2.9", "a129/a.noscfg"));
    ws.add(module("nos.a", "1.3.0", "a130/a.noscfg"));
    let start = v("1.2");
    let end = start.get_one_up();
    let m = ws.get_latest_installed_module_within_range("nos.a", &start, &end).unwrap();
    assert_eq!(m.info.id.version, "1.2.10");
    let m = ws.get_latest_installed_module_for_version("nos.a", "1.3").unwrap();
    assert_eq!(m.info.id.version, "1.3.0");
}

#[test]
fn one_malformed_version_blocks_resolution() {
    let mut ws = Workspace::new_empty("/ws".to_string());
    ws.add(module("nos.a", "1.0.0", "ok/a.noscfg"));
    ws.add(module("nos.a", "x.y.z", "bad/a.noscfg"));
    let start = v("1");
    let end = v("2");
    assert!(ws.get_latest_installed_module_within_range("nos.a", &start, &end).is_none());
    // another package is not affected
    ws.add(module("nos.b", "1.0.0", "b/b.noscfg"));
    assert!(ws.get_latest_installed_module_within_range("nos.b", &start, &end).is_some());
}

#[test]
fn version_request_errors() {
    let mut ws = Workspace::new_empty("/ws".to_string());
    ws.add(module("nos.a", "1.0.0", "a/a.noscfg"));
    assert_eq!(
        ws.get_latest_installed_module_for_version("nos.a", "abc").unwrap_err(),
        "Invalid semantic version: abc."
    );
    assert_eq!(
        ws.get_latest_installed_module_for_version("nos.a", "1").unwrap_err(),
        "Please provide a minor version too!"
    );
    assert_eq!(
        ws.get_latest_installed_module_for_version("nos.a", "1.4").unwrap_err(),
        "No installed version in range [1.4, 1.5) for module nos.a"
    );
}

#[test]
fn remove_existing_and_missing() {
    let mut ws = Workspace::new_empty("/ws".to_string());
    ws.add(module("nos.a", "1.0.0", "a/a.noscfg"));
    let removed = ws.remove("nos.a", "1.0.0").unwrap();
    assert_eq!(removed.manifest_path, "a/a.noscfg");
    assert!(ws.installed_modules.is_empty());
    match ws.remove("nos.a", "1.0.0") {
        Err(CommandError::InvalidArgumentError { message }) => {
            assert_eq!(message, "Module nos.a version 1.0.0 is not installed")
        }
        _ => panic!("expected an invalid-argument error"),
    }
}

#[test]
fn remove_all_hands_back_everything() {
    let mut ws = Workspace::new_empty("/ws".to_string());
    ws.add(module("nos.a", "1.0.0", "a/a.noscfg"));
    ws.add(module("nos.b", "2.0.0", "b/b.nossys"));
    let all = ws.remove_all();
    assert_eq!(all.len(), 2);
    assert!(ws.installed_modules.is_empty());
}

#[test]
fn duplicate_manifest_collision_keeps_first_without_force() {
    let mut ws = Workspace::new_empty("/ws".to_string());
    let out = ws.scan_modules_in_folder(
        vec![module("nos.a", "1.0.0", "one/a.noscfg"), module("nos.a", "1.0.0", "two/a.noscfg")],
        false,
    );
    assert_eq!(out, vec![ScanOutcome::Added, ScanOutcome::SkippedDuplicate]);
    assert_eq!(ws.get_installed_module("nos.a", "1.0.0").unwrap().manifest_path, "one/a.noscfg");
}

#[test]
fn duplicate_manifest_collision_takes_second_with_force() {
    let mut ws = Workspace::new_empty("/ws".to_string());
    let out = ws.scan_modules_in_folder(
        vec![module("nos.a", "1.0.0", "one/a.noscfg"), module("nos.a", "1.0.0", "two/a.noscfg")],
        true,
    );
    assert_eq!(out, vec![ScanOutcome::Added, ScanOutcome::Replaced]);
    assert_eq!(ws.installed_modules.len(), 1);
    assert_eq!(ws.get_installed_module("nos.a", "1.0.0").unwrap().manifest_path, "two/a.noscfg");
}

#[test]
fn scanned_module_type_is_kept() {
    let mut ws = Workspace::new_empty("/ws".to_string());
    let mut m = module("nos.s", "0.1.0", "s/s.nossys");
    m.module_type = ModuleType::Subsystem;
    assert_eq!(ws.add_scanned_module(m, false), ScanOutcome::Added);
    assert_eq!(ws.get_installed_module("nos.s", "0.1.0").unwrap().module_type, ModuleType::Subsystem);
}

#[test]
fn index_exact_and_platform_filter() {
    let mut idx = Index::new();
    let name = "nos.p".to_string();
    idx.add_package(&name, PackageType::Plugin, release("1.0.0", Some("x86_64-windows")));
    idx.add_package(&name, PackageType::Plugin, release("1.0.0", Some("x86_64-linux")));
    idx.add_package(&name, PackageType::Plugin, release("1.1.0", None));
    assert_eq!(idx.packages.len(), 1);
    let (t, r) = idx.get_package("nos.p", "1.0.0", "x86_64-linux").unwrap();
    assert_eq!(*t, PackageType::Plugin);
    assert_eq!(r.platform.as_deref(), Some("x86_64-linux"));
    assert!(idx.get_package("nos.p", "1.0.0", "aarch64-macos").is_none());
    assert!(idx.get_package("nos.p", "1.1.0", "aarch64-macos").is_some());
    assert!(idx.get_package("nos.q", "1.1.0", "x86_64-linux").is_none());
}

#[test]
fn index_latest_release_respects_platform() {
    let mut idx = Index::new();
    let name = "nos.p".to_string();
    idx.add_package(&name, PackageType::Plugin, release("1.0.0", None));
    idx.add_package(&name, PackageType::Plugin, release("2.0.0", Some("x86_64-windows")));
    idx.add_package(&name, PackageType::Plugin, release("1.5.0", Some("x86_64-linux")));
    let (_, r) = idx.get_latest_release("nos.p", "x86_64-linux").unwrap();
    assert_eq!(r.version, "1.5.0");
    let (_, r) = idx.get_latest_release("nos.p", "x86_64-windows").unwrap();
    assert_eq!(r.version, "2.0.0");
}

#[test]
fn index_range_includes_start_excludes_end() {
    let mut idx = Index::new();
    let name = "nos.p".to_string();
    idx.add_package(&name, PackageType::Plugin, release("1.2.0", None));
    idx.add_package(&name, PackageType::Plugin, release("1.3.0", None));
    let start = v("1.2");
    let end = start.get_one_up();
    let (_, r) = idx.get_latest_compatible_release_within_range("nos.p", &start, &end, "any").unwrap();
    assert_eq!(r.version, "1.2.0");
    idx.add_package(&name, PackageType::Plugin, release("1.2.7", None));
    let (_, r) = idx.get_latest_compatible_release_within_range("nos.p", &start, &end, "any").unwrap();
    assert_eq!(r.version, "1.2.7");
}

#[test]
fn index_range_fails_closed() {
    let mut idx = Index::new();
    let name = "nos.p".to_string();
    idx.add_package(&name, PackageType::Plugin, release("1.2.0", None));
    idx.add_package(&name, PackageType::Plugin, release("bogus", None));
    let start = v("1.2");
    let end = start.get_one_up();
    assert!(idx.get_latest_compatible_release_within_range("nos.p", &start, &end, "any").is_none());
}

#[test]
fn package_type_modules() {
    assert!(PackageType::Plugin.is_module());
    assert!(PackageType::Subsystem.is_module());
    assert!(!PackageType::Nodos.is_module());
    assert!(!PackageType::Engine.is_module());
    assert!(!PackageType::Generic.is_module());
}

#[test]
fn workspace_paths() {
    let root = "/home/u/ws".to_string();
    assert_eq!(get_nosman_dir_for(&root), "/home/u/ws/.nosman");
    assert_eq!(get_nosman_index_filepath_for(&root), "/home/u/ws/.nosman/index");
    assert_eq!(get_nosman_index_filepath_for(&"/".to_string()), "/.nosman/index");
    let ws = Workspace::new_empty(root.clone());
    assert_eq!(ws.get_nosman_index_filepath(), "/home/u/ws/.nosman/index");
    let remote = nosman::index::Remote::new("default", "https://github.com/nodos-dev/index");
    assert_eq!(ws.get_remote_repo_dir(&remote), "/home/u/ws/.nosman/remote/default");
}

#[test]
fn context_root_is_set_once() {
    let mut ctx = WorkspaceContext::new();
    assert!(current_root(&ctx).is_none());
    assert!(get_nosman_index_filepath(&ctx).is_none());
    assert!(!workspace_exists(&ctx, |_f: &String| true));
    assert!(set_current_root(&mut ctx, "/a".to_string()));
    assert!(!set_current_root(&mut ctx, "/b".to_string()));
    assert_eq!(current_root(&ctx).unwrap(), "/a");
    assert_eq!(get_nosman_index_filepath(&ctx).unwrap(), "/a/.nosman/index");
    assert!(workspace_exists(&ctx, |f: &String| f == "/a/.nosman/index"));
}

#[test]
fn root_found_upwards() {
    let start = "/home/u/ws/Module/x".to_string();
    let found = find_root_from(&start, |f: &String| f == "/home/u/ws/.nosman/index");
    assert_eq!(found.as_deref(), Some("/home/u/ws"));
    assert!(find_root_from(&start, |_f: &String| false).is_none());
    let found = find_root_from(&"/x".to_string(), |f: &String| f == "/.nosman/index");
    assert_eq!(found.as_deref(), Some("/"));
    assert!(exists_in(&"/w".to_string(), |f: &String| f == "/w/.nosman/index"));
}

#[test]
fn rescan_flags() {
    let all = RescanFlags::all();
    assert!(all.contains(RescanFlags::SCAN_MODULES));
    assert!(all.contains(RescanFlags::FETCH_PACKAGE_INDEX));
    assert!(all.contains(RescanFlags::ADD_DEFAULT_PACKAGE_INDEX_IF_NO_REMOTE_EXISTS));
    let some = RescanFlags(RescanFlags::SCAN_MODULES);
    assert!(!some.contains(RescanFlags::FETCH_PACKAGE_INDEX));
    assert_eq!(some.bits(), 1);
}

#[test]
fn version_without_upper_bound_is_rejected() {
    let ws = Workspace::new_empty("/ws".to_string());
    assert_eq!(
        ws.get_latest_installed_module_for_version("nos.a", "1.4294967295").unwrap_err(),
        "Version has no upper bound: 1.4294967295"
    );
}

#[test]
fn only_the_raised_part_must_stay_below_its_maximum() {
    let mut ws = Workspace::new_empty("/ws".to_string());
    ws.add(module("nos.a", "1.4294967295.3", "a/a.noscfg"));
    let m = ws.get_latest_installed_module_for_version("nos.a", "1.4294967295.3").unwrap();
    assert_eq!(m.info.id.version, "1.4294967295.3");
}

#[test]
fn a_build_number_sorts_above_none() {
    let mut ws = Workspace::new_empty("/ws".to_string());
    ws.add(module("nos.a", "1.2.3", "plain/a.noscfg"));
    ws.add(module("nos.a", "1.2.3.b7", "built/a.noscfg"));
    let m = ws.get_latest_installed_module_for_version("nos.a", "1.2").unwrap();
    assert_eq!(m.info.id.version, "1.2.3.b7");
}
