use vstd::prelude::*;
use crate::error::CommandError;
use crate::index::{
    all_versions_read, any_eligible, is_first_exact, is_latest, platform_ok, PackageReleaseEntry,
    PackageType,
};
use crate::path::{is_absolute, join, join_spec};
use crate::semver::{can_go_up, one_up, parse_spec, text_of, SemVer};
use crate::text::{append, chars_of, owned};
use crate::workspace::{
    candidate, is_latest_module, lookup, versions_read, Workspace,
};

verus! {

pub struct InitCommand {}

pub struct DeinitCommand {}

pub struct RemoteAddCommand {}

pub struct RemoteListCommand {}

pub struct InstallCommand {}

pub struct InfoCommand {}

pub struct RemoveCommand {}

pub struct RescanCommand {}

pub struct ListCommand {}

pub struct GetCommand {}

pub struct SampleCommand {}

pub struct PublishCommand {}

/// Which files a release of a module takes.
#[derive(Debug, Clone)]
pub struct PublishOptions {
    pub release_globs: Vec<String>,
    pub additional_publish_triggering_globs: Option<Vec<String>>,
}

impl PublishOptions {
    pub fn empty() -> (r: PublishOptions)
        ensures
            r.release_globs@.len() == 0,
            r.additional_publish_triggering_globs is None,
    {
        PublishOptions { release_globs: Vec::new(), additional_publish_triggering_globs: None }
    }
}

/// A version range `[start, one_up(start))` asked for by a text; none when
/// the text is no version, gives no minor version, or its bound overflows.
pub open spec fn requested_range(version: Seq<char>) -> Option<(SemVer, SemVer)> {
    match parse_spec(version) {
        Some(start) => if start.minor is Some && can_go_up(start) {
            Some((start, one_up(start)))
        } else {
            None
        },
        None => None,
    }
}

/// Why a text asks for no version range.
pub open spec fn range_error(version: Seq<char>) -> Seq<char> {
    match parse_spec(version) {
        None => "Invalid semantic version: "@ + version,
        Some(start) => if start.minor is None {
            "Please provide a minor version too!"@
        } else {
            "Version has no upper bound: "@ + version
        },
    }
}

/// The text an error carries.
pub open spec fn error_message(e: CommandError) -> Seq<char> {
    match e {
        CommandError::IOError { message, .. } => message@,
        CommandError::InvalidArgumentError { message } => message@,
        CommandError::ZipError { message } => message@,
        CommandError::GenericError { message } => message@,
    }
}

/// Reads the range a version text asks for.
fn range_of(version: &str) -> (r: Result<(SemVer, SemVer), CommandError>)
    ensures
        match r {
            Ok((s, e)) => requested_range(version@) == Some((s, e)),
            Err(err) => requested_range(version@) is None && err is InvalidArgumentError
                && error_message(err) == range_error(version@),
        },
{
    let start = match SemVer::parse_from_string(version) {
        None => {
            let mut m = owned("Invalid semantic version: ");
            append(&mut m, version);
            return Err(CommandError::InvalidArgumentError { message: m });
        },
        Some(v) => v,
    };
    if start.minor.is_none() {
        return Err(
            CommandError::InvalidArgumentError { message: owned("Please provide a minor version too!") },
        );
    }
    if !start.has_one_up() {
        let mut m = owned("Version has no upper bound: ");
        append(&mut m, version);
        return Err(CommandError::InvalidArgumentError { message: m });
    }
    let end = start.get_one_up();
    Ok((start, end))
}

/// The index has a candidate for an update of `name`: a release that fits
/// `host` (in the requested range, all versions reading, when a version is
/// asked for).
pub open spec fn release_found(
    workspace: Workspace,
    name: Seq<char>,
    version: Option<Seq<char>>,
    host: Seq<char>,
) -> bool {
    let idx = workspace.index_cache;
    &&& idx.position(name) is Some
    &&& {
        let p = idx.packages@[idx.position(name)->0];
        match version {
            None => any_eligible(p.releases@, None, host),
            Some(v) => all_versions_read(p.releases@) && any_eligible(
                p.releases@,
                requested_range(v),
                host,
            ),
        }
    }
}

/// The message when no release fits: it names the package, and the version
/// when one was asked for.
pub open spec fn no_release_message(name: Seq<char>, version: Option<Seq<char>>) -> Seq<char> {
    match version {
        None => "No release found for "@ + name,
        Some(v) => "No release found for "@ + name + " version "@ + v,
    }
}

impl GetCommand {
    /// The release that an update of `name` brings: the highest one
    /// compatible with `version` when one is asked for, the highest one
    /// otherwise; it must be a Nodos package.
    pub fn resolve_release<'a>(
        workspace: &'a Workspace,
        name: &str,
        version: Option<&String>,
        host: &str,
    ) -> (r: Result<&'a PackageReleaseEntry, CommandError>)
        requires
            workspace.wf(),
        ensures
            ({
                let idx = workspace.index_cache;
                let ver = match version {
                    Some(v) => Some(v@),
                    None => None,
                };
                let bounds = match version {
                    Some(v) => requested_range(v@),
                    None => None,
                };
                if version is Some && bounds is None {
                    r matches Err(e) && e is InvalidArgumentError && error_message(e) == range_error(
                        ver->0,
                    )
                } else if !release_found(*workspace, name@, ver, host@) {
                    r matches Err(e) && e is InvalidArgumentError && error_message(e)
                        == no_release_message(name@, ver)
                } else if idx.packages@[idx.position(name@)->0].package_type != PackageType::Nodos {
                    r matches Err(e) && e is InvalidArgumentError && error_message(e) == "Package "@
                        + name@ + " found in the index is not a Nodos package"@
                } else {
                    r matches Ok(rel) && exists|j: int|
                        is_latest(
                            idx.packages@[idx.position(name@)->0].releases@,
                            j,
                            bounds,
                            host@,
                        ) && *rel == idx.packages@[idx.position(name@)->0].releases@[j]
                }
            }),
    {
        let found = match version {
            Some(v) => {
                let (start, end) = match range_of(v.as_str()) {
                    Ok(b) => b,
                    Err(e) => {
                        return Err(e);
                    },
                };
                workspace.index_cache.get_latest_compatible_release_within_range(
                    name,
                    &start,
                    &end,
                    host,
                )
            },
            None => workspace.index_cache.get_latest_release(name, host),
        };
        match found {
            None => {
                let mut m = owned("No release found for ");
                append(&mut m, name);
                if let Some(v) = version {
                    append(&mut m, " version ");
                    append(&mut m, v.as_str());
                }
                Err(CommandError::InvalidArgumentError { message: m })
            },
            Some((t, rel)) => {
                if *t != PackageType::Nodos {
                    let mut m = owned("Package ");
                    append(&mut m, name);
                    append(&mut m, " found in the index is not a Nodos package");
                    return Err(CommandError::InvalidArgumentError { message: m });
                }
                Ok(rel)
            },
        }
    }
}

/// How a request for a version range is met.
#[derive(Debug, Clone)]
pub enum Resolution {
    /// An installed module already lies in the range; it has this version.
    Installed(String),
    /// This release version is to be installed.
    Release(String),
}

/// What installing an exact version comes to.
#[derive(Debug, Clone)]
pub enum InstallPlan {
    /// The module is registered and its folder is there: nothing to do.
    AlreadyInstalled,
    /// Download the archive at `url` and extract it into `out_dir`; for a
    /// module, scan that folder afterwards, replacing a registry entry whose
    /// folder had gone when `replace_entry`.
    Download { url: String, out_dir: String, is_module: bool, replace_entry: bool },
}

/// The folder a package is extracted into: under `prefix` when one is
/// given, in a `name-version` folder for a module, else `output_dir` itself;
/// a relative folder of a module lies under the workspace root.
pub open spec fn install_dir(
    root: Seq<char>,
    output_dir: Seq<char>,
    prefix: Option<Seq<char>>,
    name: Seq<char>,
    version: Seq<char>,
    is_module: bool,
) -> Seq<char> {
    let d = match prefix {
        Some(p) => join_spec(output_dir, p),
        None => if is_module {
            join_spec(output_dir, name + seq!['-'] + version)
        } else {
            output_dir
        },
    };
    if !is_absolute(d) && is_module {
        join_spec(root, d)
    } else {
        d
    }
}

impl InstallCommand {
    /// Meets a request for the versions compatible with `version`: an
    /// installed module in range is enough; otherwise the highest release in
    /// range, which must not be a Nodos or an Engine package.
    pub fn resolve_requested(
        workspace: &Workspace,
        name: &str,
        version: &str,
        host: &str,
    ) -> (r: Result<Resolution, CommandError>)
        requires
            workspace.wf(),
        ensures
            match requested_range(version@) {
                None => r matches Err(e) && e is InvalidArgumentError && error_message(e)
                    == range_error(version@),
                Some((start, end)) => {
                    let mods = workspace.installed_modules@;
                    let installed_in_range = versions_read(mods, name@) && exists|k: int|
                        0 <= k < mods.len() && candidate(#[trigger] mods[k], name@, start, end);
                    match r {
                        Ok(Resolution::Installed(v)) => installed_in_range && exists|j: int|
                            is_latest_module(mods, j, name@, start, end) && mods[j].info.id.version
                                == v,
                        Ok(Resolution::Release(v)) => {
                            let idx = workspace.index_cache;
                            &&& !installed_in_range
                            &&& idx.position(name@) is Some
                            &&& idx.packages@[idx.position(name@)->0].package_type != PackageType::Nodos
                            &&& idx.packages@[idx.position(name@)->0].package_type != PackageType::Engine
                            &&& exists|j: int|
                                is_latest(
                                    idx.packages@[idx.position(name@)->0].releases@,
                                    j,
                                    Some((start, end)),
                                    host@,
                                ) && idx.packages@[idx.position(name@)->0].releases@[j].version
                                    == v
                        },
                        Err(e) => {
                            let idx = workspace.index_cache;
                            let none_in_range = idx.position(name@) is None || {
                                let p = idx.packages@[idx.position(name@)->0];
                                !all_versions_read(p.releases@) || !any_eligible(
                                    p.releases@,
                                    Some((start, end)),
                                    host@,
                                )
                            };
                            &&& !installed_in_range
                            &&& e is InvalidArgumentError
                            &&& none_in_range ==> error_message(e)
                                == "No remote contained a version in range ["@ + text_of(start)
                                + ", "@ + text_of(end) + ") for module "@ + name@
                            &&& !none_in_range ==> {
                                let p = idx.packages@[idx.position(name@)->0];
                                &&& p.package_type == PackageType::Nodos || p.package_type
                                    == PackageType::Engine
                                &&& error_message(e) == "Package "@ + name@
                                    + " requires special treatment"@
                            }
                        },
                    }
                },
            },
    {
        let (start, end) = match range_of(version) {
            Ok(b) => b,
            Err(e) => {
                return Err(e);
            },
        };
        if let Some(m) = workspace.get_latest_installed_module_within_range(name, &start, &end) {
            return Ok(Resolution::Installed(m.info.id.version.clone()));
        }
        match workspace.index_cache.get_latest_compatible_release_within_range(
            name,
            &start,
            &end,
            host,
        ) {
            None => {
                let mut m = owned("No remote contained a version in range [");
                append(&mut m, start.to_string().as_str());
                append(&mut m, ", ");
                append(&mut m, end.to_string().as_str());
                append(&mut m, ") for module ");
                append(&mut m, name);
                Err(CommandError::InvalidArgumentError { message: m })
            },
            Some((t, rel)) => {
                if *t == PackageType::Nodos || *t == PackageType::Engine {
                    let mut m = owned("Package ");
                    append(&mut m, name);
                    append(&mut m, " requires special treatment");
                    return Err(CommandError::InvalidArgumentError { message: m });
                }
                Ok(Resolution::Release(rel.version.clone()))
            },
        }
    }

    /// What installing exactly `name`-`version` takes.  `installed_dir_present`
    /// tells whether the folder of the registered module of that name and
    /// version (if any) exists.  A registered module whose folder is there
    /// is left as it is: nothing is downloaded or written.
    pub fn plan_exact(
        workspace: &Workspace,
        name: &str,
        version: &str,
        installed_dir_present: bool,
        output_dir: &str,
        prefix: Option<&String>,
        host: &str,
    ) -> (r: Result<InstallPlan, CommandError>)
        requires
            workspace.wf(),
        ensures
            ({
                let registered = lookup(workspace.installed_modules@, name@, version@) is Some;
                let idx = workspace.index_cache;
                match r {
                    Ok(InstallPlan::AlreadyInstalled) => registered && installed_dir_present,
                    Ok(InstallPlan::Download { url, out_dir, is_module, replace_entry }) => {
                        &&& !(registered && installed_dir_present)
                        &&& replace_entry == registered
                        &&& idx.position(name@) is Some
                        &&& is_module == (idx.packages@[idx.position(name@)->0].package_type
                            == PackageType::Plugin || idx.packages@[idx.position(
                            name@,
                        )->0].package_type == PackageType::Subsystem)
                        &&& exists|j: int|
                            is_first_exact(
                                idx.packages@[idx.position(name@)->0].releases@,
                                j,
                                version@,
                                host@,
                            ) && idx.packages@[idx.position(name@)->0].releases@[j].url == url
                        &&& out_dir@ == install_dir(
                            workspace.root@,
                            output_dir@,
                            match prefix {
                                Some(p) => Some(p@),
                                None => None,
                            },
                            name@,
                            version@,
                            is_module,
                        )
                    },
                    Err(e) => {
                        &&& !(registered && installed_dir_present)
                        &&& e is GenericError
                        &&& (idx.position(name@) is None || forall|j: int|
                            0 <= j < idx.packages@[idx.position(name@)->0].releases@.len()
                                ==> !((#[trigger] idx.packages@[idx.position(
                                name@,
                            )->0].releases@[j]).version@ == version@ && platform_ok(
                                idx.packages@[idx.position(name@)->0].releases@[j],
                                host@,
                            )))
                    },
                }
            }),
    {
        let registered = workspace.get_installed_module(name, version).is_some();
        if registered && installed_dir_present {
            return Ok(InstallPlan::AlreadyInstalled);
        }
        match workspace.index_cache.get_package(name, version, host) {
            None => {
                let mut m = owned("None of the remotes contain package ");
                append(&mut m, name);
                append(&mut m, " version ");
                append(&mut m, version);
                append(&mut m, ". You can try rescan command to update index.");
                Err(CommandError::GenericError { message: m })
            },
            Some((t, rel)) => {
                let is_module = t.is_module();
                let d = match prefix {
                    Some(p) => join(output_dir, p.as_str()),
                    None => {
                        if is_module {
                            let mut folder = owned(name);
                            crate::text::push_char(&mut folder, '-');
                            append(&mut folder, version);
                            join(output_dir, folder.as_str())
                        } else {
                            owned(output_dir)
                        }
                    },
                };
                let dc = chars_of(d.as_str());
                let absolute = dc.len() > 0 && dc[0] == '/';
                let out_dir = if !absolute && is_module {
                    join(workspace.root.as_str(), d.as_str())
                } else {
                    d
                };
                Ok(
                    InstallPlan::Download {
                        url: rel.url.clone(),
                        out_dir,
                        is_module,
                        replace_entry: registered,
                    },
                )
            },
        }
    }
}

impl SampleCommand {
    /// The package behind a sample name.
    pub fn sample_package(name: &str) -> (r: Option<String>)
        ensures
            name@ == "dx12_app"@ ==> (r matches Some(p) && p@ == "nos.sample.dxapp"@),
            name@ == "vk_app"@ ==> (r matches Some(p) && p@ == "nos.sample.vkapp"@),
            name@ != "dx12_app"@ && name@ != "vk_app"@ ==> r is None,
    {
        proof {
            reveal_strlit("dx12_app");
            reveal_strlit("vk_app");
            assert("vk_app"@[0] != "dx12_app"@[0]);
        }
        if crate::text::str_eq(name, "dx12_app") {
            Some(owned("nos.sample.dxapp"))
        } else if crate::text::str_eq(name, "vk_app") {
            Some(owned("nos.sample.vkapp"))
        } else {
            None
        }
    }
}

/// The characters a published package name may use.
pub open spec fn name_char(c: char) -> bool {
    ('a' <= c && c <= 'z') || ('0' <= c && c <= '9') || c == '.' || c == '_'
}

impl PublishCommand {
    /// A package name: one or more of `a-z`, `0-9`, `.` and `_`.
    pub fn is_name_valid(name: &str) -> (r: bool)
        ensures
            r == (name@.len() > 0 && forall|i: int| 0 <= i < name@.len() ==> name_char(#[trigger] name@[i])),
    {
        let cs = chars_of(name);
        if cs.len() == 0 {
            return false;
        }
        let mut i: usize = 0;
        while i < cs.len()
            invariant
                i <= cs@.len(),
                cs@ == name@,
                forall|k: int| 0 <= k < i ==> name_char(#[trigger] cs@[k]),
            decreases cs.len() - i,
        {
            let c = cs[i];
            if !(('a' <= c && c <= 'z') || ('0' <= c && c <= '9') || c == '.' || c == '_') {
                assert(!name_char(name@[i as int]));
                return false;
            }
            i = i + 1;
        }
        true
    }
}

} // verus!
