use vstd::prelude::*;
use crate::path::{dir_of, extension, extension_of, parent_dir};
use crate::text::{append, owned, str_eq};

verus! {

/// A package name together with one of its versions.
#[derive(Debug, Clone, PartialEq, Eq, Hash)]
pub struct PackageIdentifier {
    pub name: String,
    pub version: String,
}

/// What a manifest says of its module.
#[derive(Debug, Clone, PartialEq, Eq, Hash)]
pub struct ModuleInfo {
    pub id: PackageIdentifier,
    pub display_name: Option<String>,
    pub description: Option<String>,
    pub dependencies: Option<Vec<PackageIdentifier>>,
    pub category: Option<String>,
    pub tags: Option<Vec<String>>,
}

/// The two kinds of module, told apart by the extension of their manifest.
#[derive(Debug, Clone, Copy, PartialEq, Eq, Structural, Hash)]
pub enum ModuleType {
    Plugin,
    Subsystem,
}

/// One entry of the registry.  Paths are relative to the workspace root.
#[derive(Debug, Clone, PartialEq, Eq, Hash)]
pub struct InstalledModule {
    pub info: ModuleInfo,
    pub manifest_path: String,
    pub public_include_folder: Option<String>,
    pub type_schema_files: Vec<String>,
    pub module_type: ModuleType,
}

pub open spec fn plugin_manifest_ext() -> Seq<char> {
    seq!['n', 'o', 's', 'c', 'f', 'g']
}

pub open spec fn subsystem_manifest_ext() -> Seq<char> {
    seq!['n', 'o', 's', 's', 'y', 's']
}

/// The identifying pair of a module.
pub open spec fn key_of(m: InstalledModule) -> (Seq<char>, Seq<char>) {
    (m.info.id.name@, m.info.id.version@)
}

/// The texts of a list of strings.
pub open spec fn views(v: Seq<String>) -> Seq<Seq<char>> {
    v.map_values(|s: String| s@)
}

/// The files of `files` whose extension is `ext`, in order.
pub open spec fn with_extension(files: Seq<Seq<char>>, ext: Seq<char>) -> Seq<Seq<char>>
    decreases files.len(),
{
    if files.len() == 0 {
        Seq::<Seq<char>>::empty()
    } else {
        let r = with_extension(files.drop_last(), ext);
        if extension_of(files.last()) == Some(ext) {
            r.push(files.last())
        } else {
            r
        }
    }
}

pub open spec fn multiple_manifests_message(folder: Seq<char>) -> Seq<char> {
    "Multiple manifest files found in "@ + folder
}

pub open spec fn multiple_module_manifests_message(folder: Seq<char>) -> Seq<char> {
    "Multiple module manifest files found in "@ + folder
}

/// What a search for one manifest among the files of a folder gives: none,
/// the only one, or an error when there are several.
pub open spec fn manifest_search(files: Seq<Seq<char>>, ext: Seq<char>, folder: Seq<char>) -> Result<
    Option<Seq<char>>,
    Seq<char>,
> {
    let found = with_extension(files, ext);
    if found.len() == 0 {
        Ok(None)
    } else if found.len() == 1 {
        Ok(Some(found[0]))
    } else {
        Err(multiple_manifests_message(folder))
    }
}

pub open spec fn view_result(r: Result<Option<String>, String>) -> Result<Option<Seq<char>>, Seq<char>> {
    match r {
        Ok(Some(p)) => Ok(Some(p@)),
        Ok(None) => Ok(None),
        Err(e) => Err(e@),
    }
}

impl InstalledModule {
    /// An entry with an empty identity for the manifest at `path`.
    pub fn new(path: String) -> (r: InstalledModule)
        ensures
            r.manifest_path == path,
            r.info.id.name@.len() == 0,
            r.info.id.version@.len() == 0,
            r.info.display_name is None,
            r.info.description is None,
            r.info.dependencies is None,
            r.info.category is None,
            r.info.tags is None,
            r.public_include_folder is None,
            r.type_schema_files@.len() == 0,
            r.module_type == ModuleType::Plugin,
    {
        InstalledModule {
            info: ModuleInfo {
                id: PackageIdentifier { name: String::new(), version: String::new() },
                display_name: None,
                description: None,
                dependencies: None,
                category: None,
                tags: None,
            },
            manifest_path: path,
            public_include_folder: None,
            type_schema_files: Vec::new(),
            module_type: ModuleType::Plugin,
        }
    }

    /// The folder that holds the module's manifest.
    pub fn get_module_dir(&self) -> (r: String)
        ensures
            r@ == dir_of(self.manifest_path@),
    {
        parent_dir(self.manifest_path.as_str())
    }
}

impl PackageIdentifier {
    /// `name-version`.
    pub fn to_string(&self) -> (r: String)
        ensures
            r@ == self.name@ + seq!['-'] + self.version@,
    {
        let mut s = owned(self.name.as_str());
        crate::text::push_char(&mut s, '-');
        append(&mut s, self.version.as_str());
        s
    }
}

/// The one file among `files` (the files of `folder`) with extension
/// `extension`; an error when there are several.
pub fn get_module_manifest_file(folder: &str, files: &Vec<String>, extension_wanted: &str) -> (r:
    Result<Option<String>, String>)
    ensures
        view_result(r) == manifest_search(views(files@), extension_wanted@, folder@),
{
    let ghost fs = views(files@);
    let mut found: Vec<String> = Vec::new();
    let mut i: usize = 0;
    while i < files.len()
        invariant
            i <= files.len(),
            fs == views(files@),
            views(found@) == with_extension(fs.subrange(0, i as int), extension_wanted@),
        decreases files.len() - i,
    {
        let ghost pre = fs.subrange(0, i as int + 1);
        assert(pre.drop_last() =~= fs.subrange(0, i as int));
        assert(pre.last() == files@[i as int]@);
        let e = extension(files[i].as_str());
        let hit = match e {
            Some(e) => str_eq(e.as_str(), extension_wanted),
            None => false,
        };
        if hit {
            found.push(files[i].clone());
            assert(views(found@) =~= views(found@.drop_last()).push(found@.last()@));
        }
        i = i + 1;
    }
    assert(fs.subrange(0, files@.len() as int) =~= fs);
    if found.len() == 0 {
        Ok(None)
    } else if found.len() == 1 {
        assert(views(found@)[0] == found@[0]@);
        Ok(Some(found[0].clone()))
    } else {
        let mut m = owned("Multiple manifest files found in ");
        append(&mut m, folder);
        Err(m)
    }
}

/// The plugin manifest among the files of `folder`.
pub fn get_plugin_manifest_file(folder: &str, files: &Vec<String>) -> (r: Result<
    Option<String>,
    String,
>)
    ensures
        view_result(r) == manifest_search(views(files@), plugin_manifest_ext(), folder@),
{
    proof {
        reveal_strlit("noscfg");
    }
    assert("noscfg"@ =~= plugin_manifest_ext());
    get_module_manifest_file(folder, files, "noscfg")
}

/// The subsystem manifest among the files of `folder`.
pub fn get_subsystem_manifest_file(folder: &str, files: &Vec<String>) -> (r: Result<
    Option<String>,
    String,
>)
    ensures
        view_result(r) == manifest_search(views(files@), subsystem_manifest_ext(), folder@),
{
    proof {
        reveal_strlit("nossys");
    }
    assert("nossys"@ =~= subsystem_manifest_ext());
    get_module_manifest_file(folder, files, "nossys")
}

/// What a folder holds as a module: nothing, a plugin or a subsystem
/// manifest, or an error when it is ambiguous.
pub open spec fn folder_manifest(files: Seq<Seq<char>>, folder: Seq<char>) -> Result<
    Option<(ModuleType, Seq<char>)>,
    Seq<char>,
> {
    let p = manifest_search(files, plugin_manifest_ext(), folder);
    let s = manifest_search(files, subsystem_manifest_ext(), folder);
    match (p, s) {
        (Err(e), _) => Err(e),
        (_, Err(e)) => Err(e),
        (Ok(Some(_)), Ok(Some(_))) => Err(multiple_module_manifests_message(folder)),
        (Ok(None), Ok(None)) => Ok(None),
        (Ok(Some(x)), Ok(None)) => Ok(Some((ModuleType::Plugin, x))),
        (Ok(None), Ok(Some(x))) => Ok(Some((ModuleType::Subsystem, x))),
    }
}

/// The manifest of the module that `folder` holds, given the files in it.
pub fn get_module_manifest_file_in_folder(folder: &str, files: &Vec<String>) -> (r: Result<
    Option<(ModuleType, String)>,
    String,
>)
    ensures
        match (r, folder_manifest(views(files@), folder@)) {
            (Ok(None), Ok(None)) => true,
            (Ok(Some((t, p))), Ok(Some((u, q)))) => t == u && p@ == q,
            (Err(e), Err(f)) => e@ == f,
            _ => false,
        },
{
    let plugin = get_plugin_manifest_file(folder, files);
    let plugin = match plugin {
        Err(e) => {
            return Err(e);
        },
        Ok(p) => p,
    };
    let subsystem = get_subsystem_manifest_file(folder, files);
    let subsystem = match subsystem {
        Err(e) => {
            return Err(e);
        },
        Ok(s) => s,
    };
    match (plugin, subsystem) {
        (Some(_), Some(_)) => {
            let mut m = owned("Multiple module manifest files found in ");
            append(&mut m, folder);
            Err(m)
        },
        (None, None) => Ok(None),
        (Some(p), None) => Ok(Some((ModuleType::Plugin, p))),
        (None, Some(s)) => Ok(Some((ModuleType::Subsystem, s))),
    }
}

} // verus!
