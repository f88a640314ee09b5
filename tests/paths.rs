use nosman::module::{get_module_manifest_file_in_folder, get_plugin_manifest_file, get_subsystem_manifest_file, InstalledModule, ModuleType, PackageIdentifier};
use nosman::path::{extension, get_rel_path_based_on, join, parent_dir};
use nosman::platform::Platform;

fn strings(v: &[&str]) -> Vec<String> {
    v.iter().map(|s| s.to_string()).collect()
}

#[test]
fn joins() {
    assert_eq!(join("a", "b"), "a/b");
    assert_eq!(join("a/", "b"), "a/b");
    assert_eq!(join("", "b"), "b");
    assert_eq!(join("a", "/b"), "/b");
}

#[test]
fn extensions_and_parents() {
    assert_eq!(extension("/x/y/m.noscfg").as_deref(), Some("noscfg"));
    assert_eq!(extension("/x/.hidden"), None);
    assert_eq!(extension("/x.d/file"), None);
    assert_eq!(parent_dir("/x/y/m.noscfg"), "/x/y");
    assert_eq!(parent_dir("/m"), "/");
    assert_eq!(parent_dir("m"), "");
}

#[test]
fn module_dir_is_manifest_folder() {
    let m = InstalledModule::new("Module/nos.a/a.noscfg".to_string());
    assert_eq!(m.get_module_dir(), "Module/nos.a");
    let id = PackageIdentifier { name: "nos.a".to_string(), version: "1.0.0".to_string() };
    assert_eq!(id.to_string(), "nos.a-1.0.0");
}

#[test]
fn manifest_selection() {
    let files = strings(&["/m/a.noscfg", "/m/readme.md"]);
    assert_eq!(get_plugin_manifest_file("/m", &files).unwrap().as_deref(), Some("/m/a.noscfg"));
    assert_eq!(get_subsystem_manifest_file("/m", &files).unwrap(), None);
    let (t, p) = get_module_manifest_file_in_folder("/m", &files).unwrap().unwrap();
    assert_eq!(t, ModuleType::Plugin);
    assert_eq!(p, "/m/a.noscfg");
    let files = strings(&["/s/s.nossys"]);
    let (t, _) = get_module_manifest_file_in_folder("/s", &files).unwrap().unwrap();
    assert_eq!(t, ModuleType::Subsystem);
    assert_eq!(get_module_manifest_file_in_folder("/e", &strings(&["/e/x.txt"])).unwrap(), None);
}

#[test]
fn ambiguous_manifests_are_rejected() {
    let files = strings(&["/m/a.noscfg", "/m/b.noscfg"]);
    assert_eq!(get_plugin_manifest_file("/m", &files).unwrap_err(), "Multiple manifest files found in /m");
    let files = strings(&["/m/a.noscfg", "/m/b.nossys"]);
    assert_eq!(
        get_module_manifest_file_in_folder("/m", &files).unwrap_err(),
        "Multiple module manifest files found in /m"
    );
}

#[test]
fn relative_paths() {
    let r = get_rel_path_based_on(&"/ws/Module/a/a.noscfg".to_string(), &"/ws".to_string());
    assert_eq!(r.as_deref(), Some("Module/a/a.noscfg"));
    let r = get_rel_path_based_on(&"/ws/x".to_string(), &"/ws/y".to_string());
    assert_eq!(r.as_deref(), Some("../x"));
}

#[test]
fn platforms() {
    let p = Platform::from_str("x86_64-linux").unwrap();
    assert_eq!(p.arch, "x86_64");
    assert_eq!(p.os, "linux");
    assert_eq!(p.to_string(), "x86_64-linux");
    assert!(Platform::from_str("x86_64").is_none());
    assert!(Platform::from_str("a-b-c").is_none());
    assert_eq!(Platform::new("aarch64".to_string(), "macos".to_string()).to_string(), "aarch64-macos");
}
