use nosman::command::{GetCommand, InstallCommand, InstallPlan, PublishCommand, PublishOptions, Resolution, SampleCommand};
use nosman::error::CommandError;
use nosman::index::{PackageReleaseEntry, PackageType};
use nosman::module::InstalledModule;
use nosman::workspace::Workspace;

fn release(version: &str) -> PackageReleaseEntry {
    PackageReleaseEntry {
        version: version.to_string(),
        url: format!("https://example.com/{version}.zip"),
        plugin_api_version: None,
        subsystem_api_version: None,
        release_date: None,
        dependencies: None,
        category: None,
        module_tags: None,
        release_tags: None,
        platform: None,
    }
}

fn module(name: &str, version: &str) -> InstalledModule {
    let mut m = InstalledModule::new(format!("Module/{name}-{version}/m.noscfg"));
    m.info.id.name = name.to_string();
    m.info.id.version = version.to_string();
    m
}

fn workspace() -> Workspace {
    let mut ws = Workspace::new_empty("/ws".to_string());
    let p = "nos.p".to_string();
    ws.index_cache.add_package(&p, PackageType::Plugin, release("1.0.0"));
    ws.index_cache.add_package(&p, PackageType::Plugin, release("1.0.3"));
    let n = "nodos".to_string();
    ws.index_cache.add_package(&n, PackageType::Nodos, release("1.2.0"));
    ws.index_cache.add_package(&n, PackageType::Nodos, release("1.3.1"));
    let e = "engine".to_string();
    ws.index_cache.add_package(&e, PackageType::Engine, release("1.0.0"));
    ws
}

#[test]
fn reinstall_with_folder_present_is_a_no_op() {
    let mut ws = workspace();
    ws.add(module("nos.p", "1.0.0"));
    let plan = InstallCommand::plan_exact(&ws, "nos.p", "1.0.0", true, ".", None, "x86_64-linux").unwrap();
    assert!(matches!(plan, InstallPlan::AlreadyInstalled));
}

#[test]
fn reinstall_with_folder_gone_replaces_entry() {
    let mut ws = workspace();
    ws.add(module("nos.p", "1.0.0"));
    match InstallCommand::plan_exact(&ws, "nos.p", "1.0.0", false, ".", None, "x86_64-linux").unwrap() {
        InstallPlan::Download { url, out_dir, is_module, replace_entry } => {
            assert_eq!(url, "https://example.com/1.0.0.zip");
            assert_eq!(out_dir, "/ws/./nos.p-1.0.0");
            assert!(is_module);
            assert!(replace_entry);
        }
        InstallPlan::AlreadyInstalled => panic!("expected a download"),
    }
}

#[test]
fn fresh_install_paths() {
    let ws = workspace();
    match InstallCommand::plan_exact(&ws, "nos.p", "1.0.3", false, "/opt/out", None, "h").unwrap() {
        InstallPlan::Download { out_dir, replace_entry, .. } => {
            assert_eq!(out_dir, "/opt/out/nos.p-1.0.3");
            assert!(!replace_entry);
        }
        _ => panic!("expected a download"),
    }
    let prefix = "Plugins/P".to_string();
    match InstallCommand::plan_exact(&ws, "nos.p", "1.0.3", false, "out", Some(&prefix), "h").unwrap() {
        InstallPlan::Download { out_dir, .. } => assert_eq!(out_dir, "/ws/out/Plugins/P"),
        _ => panic!("expected a download"),
    }
    match InstallCommand::plan_exact(&ws, "engine", "1.0.0", false, "out", None, "h").unwrap() {
        InstallPlan::Download { out_dir, is_module, .. } => {
            assert_eq!(out_dir, "out");
            assert!(!is_module);
        }
        _ => panic!("expected a download"),
    }
}

#[test]
fn install_of_unknown_version_fails() {
    let ws = workspace();
    match InstallCommand::plan_exact(&ws, "nos.p", "9.9.9", false, ".", None, "h") {
        Err(CommandError::GenericError { message }) => assert_eq!(
            message,
            "None of the remotes contain package nos.p version 9.9.9. You can try rescan command to update index."
        ),
        _ => panic!("expected a generic error"),
    }
}

#[test]
fn range_request_prefers_installed() {
    let mut ws = workspace();
    ws.add(module("nos.p", "1.0.0"));
    match InstallCommand::resolve_requested(&ws, "nos.p", "1.0", "h").unwrap() {
        Resolution::Installed(v) => assert_eq!(v, "1.0.0"),
        Resolution::Release(_) => panic!("expected the installed module"),
    }
}

#[test]
fn range_request_picks_highest_release() {
    let ws = workspace();
    match InstallCommand::resolve_requested(&ws, "nos.p", "1.0", "h").unwrap() {
        Resolution::Release(v) => assert_eq!(v, "1.0.3"),
        Resolution::Installed(_) => panic!("expected a release"),
    }
}

#[test]
fn range_request_errors() {
    let ws = workspace();
    assert!(matches!(
        InstallCommand::resolve_requested(&ws, "nos.p", "1", "h"),
        Err(CommandError::InvalidArgumentError { .. })
    ));
    assert!(matches!(
        InstallCommand::resolve_requested(&ws, "nos.p", "junk", "h"),
        Err(CommandError::InvalidArgumentError { .. })
    ));
    match InstallCommand::resolve_requested(&ws, "nos.p", "2.0", "h") {
        Err(CommandError::InvalidArgumentError { message }) => assert_eq!(
            message,
            "No remote contained a version in range [2.0, 2.1) for module nos.p"
        ),
        _ => panic!("expected an error"),
    }
    match InstallCommand::resolve_requested(&ws, "engine", "1.0", "h") {
        Err(CommandError::InvalidArgumentError { message }) => {
            assert_eq!(message, "Package engine requires special treatment")
        }
        _ => panic!("expected an error"),
    }
}

#[test]
fn get_resolves_nodos_releases() {
    let ws = workspace();
    assert_eq!(GetCommand::resolve_release(&ws, "nodos", None, "h").unwrap().version, "1.3.1");
    let v = "1.2".to_string();
    assert_eq!(GetCommand::resolve_release(&ws, "nodos", Some(&v), "h").unwrap().version, "1.2.0");
    let v = "1.4".to_string();
    match GetCommand::resolve_release(&ws, "nodos", Some(&v), "h") {
        Err(CommandError::InvalidArgumentError { message }) => {
            assert_eq!(message, "No release found for nodos version 1.4")
        }
        _ => panic!("expected an error"),
    }
    match GetCommand::resolve_release(&ws, "nos.p", None, "h") {
        Err(CommandError::InvalidArgumentError { message }) => {
            assert_eq!(message, "Package nos.p found in the index is not a Nodos package")
        }
        _ => panic!("expected an error"),
    }
    let v = "1".to_string();
    match GetCommand::resolve_release(&ws, "nodos", Some(&v), "h") {
        Err(CommandError::InvalidArgumentError { message }) => {
            assert_eq!(message, "Please provide a minor version too!")
        }
        _ => panic!("expected an error"),
    }
}

#[test]
fn samples() {
    assert_eq!(SampleCommand::sample_package("dx12_app").as_deref(), Some("nos.sample.dxapp"));
    assert_eq!(SampleCommand::sample_package("vk_app").as_deref(), Some("nos.sample.vkapp"));
    assert_eq!(SampleCommand::sample_package("gl_app"), None);
}

#[test]
fn package_names() {
    assert!(PublishCommand::is_name_valid("nos.sys.vulkan_2"));
    assert!(!PublishCommand::is_name_valid("Nos.sys"));
    assert!(!PublishCommand::is_name_valid("nos-sys"));
    assert!(!PublishCommand::is_name_valid(""));
}

#[test]
fn empty_publish_options() {
    let o = PublishOptions::empty();
    assert!(o.release_globs.is_empty());
    assert!(o.additional_publish_triggering_globs.is_none());
}

#[test]
fn error_texts() {
    let e = CommandError::IOError { file: "a/b".to_string(), message: "denied".to_string() };
    assert_eq!(e.to_string(), "I/O (file a/b): denied");
    let e = CommandError::InvalidArgumentError { message: "x".to_string() };
    assert_eq!(e.to_string(), "Invalid argument: x");
    let e = CommandError::ZipError { message: "bad".to_string() };
    assert_eq!(e.to_string(), "Zip: bad");
    let e = CommandError::GenericError { message: "plain".to_string() };
    assert_eq!(e.to_string(), "plain");
}
