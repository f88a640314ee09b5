use vstd::prelude::*;
use crate::error::CommandError;
use crate::index::{Index, Remote};
use crate::module::{key_of, InstalledModule};
use crate::path::{dir_of, join, join_spec, parent_dir};
use crate::semver::{
    can_go_up, compare, in_range, lemma_compare_antisymmetric,
    lemma_compare_le_lt, one_up, parse_spec, text_of, SemVer,
};
use crate::text::{append, chars_of, owned, str_eq};

verus! {

/// The registry of a workspace: its root, its remotes, the modules found in
/// it and the cached package index.
#[derive(Debug)]
pub struct Workspace {
    pub root: String,
    pub remotes: Vec<Remote>,
    pub installed_modules: Vec<InstalledModule>,
    pub index_cache: Index,
}

/// Which parts of the registry a rescan rebuilds.
#[derive(Debug, Clone, Copy, PartialEq, Eq, Structural)]
pub struct RescanFlags(pub u8);

/// What became of a module found by a scan.
#[derive(Debug, Clone, Copy, PartialEq, Eq, Structural)]
pub enum ScanOutcome {
    Added,
    Replaced,
    SkippedDuplicate,
}

/// The position of the module `name`-`version` in `mods`.
pub open spec fn module_position(mods: Seq<InstalledModule>, name: Seq<char>, version: Seq<char>) -> Option<int> {
    if exists|i: int| 0 <= i < mods.len() && key_of(#[trigger] mods[i]) == (name, version) {
        Some(choose|i: int| 0 <= i < mods.len() && key_of(#[trigger] mods[i]) == (name, version))
    } else {
        None
    }
}

/// No two modules share a name and a version.
pub open spec fn keys_unique(mods: Seq<InstalledModule>) -> bool {
    forall|i: int, j: int|
        0 <= i < mods.len() && 0 <= j < mods.len() && i != j ==> key_of(#[trigger] mods[i])
            != key_of(#[trigger] mods[j])
}

/// The module registered as `name`-`version`.
pub open spec fn lookup(mods: Seq<InstalledModule>, name: Seq<char>, version: Seq<char>) -> Option<InstalledModule> {
    match module_position(mods, name, version) {
        Some(i) => Some(mods[i]),
        None => None,
    }
}

/// `m` put in the registry, in place of an entry with its name and version.
pub open spec fn upsert(mods: Seq<InstalledModule>, m: InstalledModule) -> Seq<InstalledModule> {
    match module_position(mods, key_of(m).0, key_of(m).1) {
        Some(i) => mods.update(i, m),
        None => mods.push(m),
    }
}

/// The registry after a scan found `m`: a duplicate is skipped unless
/// replacing is asked for.
pub open spec fn after_scan(mods: Seq<InstalledModule>, m: InstalledModule, force_replace: bool) -> Seq<InstalledModule> {
    if module_position(mods, key_of(m).0, key_of(m).1) is Some && !force_replace {
        mods
    } else {
        upsert(mods, m)
    }
}

pub open spec fn module_version(m: InstalledModule) -> Option<SemVer> {
    parse_spec(m.info.id.version@)
}

/// Every installed version of `name` reads as a version.
pub open spec fn versions_read(mods: Seq<InstalledModule>, name: Seq<char>) -> bool {
    forall|k: int|
        0 <= k < mods.len() && (#[trigger] mods[k]).info.id.name@ == name ==> module_version(
            mods[k],
        ) is Some
}

pub open spec fn candidate(m: InstalledModule, name: Seq<char>, start: SemVer, end: SemVer) -> bool {
    &&& m.info.id.name@ == name
    &&& module_version(m) is Some
    &&& in_range(module_version(m)->0, start, end)
}

/// `mods[j]` is a module `name` in `[start, end)`, and none of those is above it.
pub open spec fn is_latest_module(
    mods: Seq<InstalledModule>,
    j: int,
    name: Seq<char>,
    start: SemVer,
    end: SemVer,
) -> bool {
    &&& 0 <= j < mods.len()
    &&& candidate(mods[j], name, start, end)
    &&& forall|k: int|
        0 <= k < mods.len() && candidate(#[trigger] mods[k], name, start, end) ==> compare(
            module_version(mods[k])->0,
            module_version(mods[j])->0,
        ) <= 0
}

pub open spec fn nosman_dir_spec(root: Seq<char>) -> Seq<char> {
    join_spec(root, ".nosman"@)
}

pub open spec fn index_file_spec(root: Seq<char>) -> Seq<char> {
    join_spec(nosman_dir_spec(root), "index"@)
}

/// The folder above `p`, if there is one.
pub open spec fn parent_of(p: Seq<char>) -> Option<Seq<char>> {
    if p.len() == 0 || p == seq!['/'] {
        None
    } else {
        Some(dir_of(p))
    }
}

/// `q` is `p` or one of the folders above it.
pub open spec fn on_path_up(p: Seq<char>, q: Seq<char>) -> bool
    decreases p.len(),
{
    if p == q {
        true
    } else {
        match parent_of(p) {
            Some(up) => if up.len() < p.len() {
                on_path_up(up, q)
            } else {
                false
            },
            None => false,
        }
    }
}

pub proof fn lemma_parent_shorter(p: Seq<char>)
    requires
        parent_of(p) is Some,
    ensures
        parent_of(p)->0.len() < p.len(),
{
    crate::path::lemma_last_index_bounds(p, '/');
    if crate::path::last_index_of(p, '/') == 0 {
        assert(p.len() >= 2) by {
            if p.len() == 1 {
                assert(p =~= seq!['/']);
            }
        }
    }
}

impl RescanFlags {
    pub const SCAN_MODULES: u8 = 1;

    pub const FETCH_PACKAGE_INDEX: u8 = 2;

    pub const ADD_DEFAULT_PACKAGE_INDEX_IF_NO_REMOTE_EXISTS: u8 = 4;

    /// Every flag set.
    pub fn all() -> (r: RescanFlags)
        ensures
            r.0 == 7,
    {
        RescanFlags(7)
    }

    pub fn bits(&self) -> (r: u8)
        ensures
            r == self.0,
    {
        self.0
    }

    /// Every flag of `flag` is set in `self`.
    pub fn contains(&self, flag: u8) -> (r: bool)
        ensures
            r == (self.0 & flag == flag),
    {
        self.0 & flag == flag
    }
}

/// Where the current workspace lies, once it is known.
#[derive(Debug)]
pub struct WorkspaceContext {
    pub root: Option<String>,
}

impl WorkspaceContext {
    pub fn new() -> (r: WorkspaceContext)
        ensures
            r.root is None,
    {
        WorkspaceContext { root: None }
    }
}

/// Records the workspace root in `context`; a root already set stays.
pub fn set_current_root(context: &mut WorkspaceContext, path: String) -> (r: bool)
    ensures
        r == old(context).root is None,
        final(context).root == (if r {
            Some(path)
        } else {
            old(context).root
        }),
{
    if context.root.is_some() {
        return false;
    }
    context.root = Some(path);
    true
}

/// The workspace root recorded in `context`.
pub fn current_root(context: &WorkspaceContext) -> (r: Option<&String>)
    ensures
        match r {
            Some(p) => context.root == Some(*p),
            None => context.root is None,
        },
{
    match &context.root {
        Some(p) => Some(p),
        None => None,
    }
}

/// The registry file of the workspace recorded in `context`.
pub fn get_nosman_index_filepath(context: &WorkspaceContext) -> (r: Option<String>)
    ensures
        match r {
            Some(p) => context.root is Some && p@ == index_file_spec(context.root->0@),
            None => context.root is None,
        },
{
    match &context.root {
        Some(root) => Some(get_nosman_index_filepath_for(root)),
        None => None,
    }
}

/// The hidden control folder of the workspace at `path`.
pub fn get_nosman_dir_for(path: &String) -> (r: String)
    ensures
        r@ == nosman_dir_spec(path@),
{
    proof {
        reveal_strlit(".nosman");
    }
    join(path.as_str(), ".nosman")
}

/// The registry file of the workspace at `path`.
pub fn get_nosman_index_filepath_for(path: &String) -> (r: String)
    ensures
        r@ == index_file_spec(path@),
{
    let d = get_nosman_dir_for(path);
    proof {
        reveal_strlit("index");
    }
    join(d.as_str(), "index")
}

/// The folder above `p`, if there is one.
pub fn parent_path(p: &String) -> (r: Option<String>)
    ensures
        match r {
            Some(q) => parent_of(p@) == Some(q@),
            None => parent_of(p@) is None,
        },
{
    let cs = chars_of(p.as_str());
    if cs.len() == 0 || (cs.len() == 1 && cs[0] == '/') {
        proof {
            if cs.len() == 1 {
                assert(p@ =~= seq!['/']);
            }
        }
        return None;
    }
    assert(p@ != seq!['/']) by {
        if p@ == seq!['/'] {
            assert(p@.len() == 1);
        }
    }
    Some(parent_dir(p.as_str()))
}

/// `has_index` was asked about the registry file of `q` and said no.
pub open spec fn reported_absent<F: Fn(&String) -> bool>(has_index: F, q: Seq<char>) -> bool {
    exists|f: &String| f@ == index_file_spec(q) && #[trigger] call_ensures(has_index, (f,), false)
}

/// The nearest folder, from `path` upwards, whose registry file `has_index`
/// reports present (every folder before it reported absent); none when it reports every one of them absent.
pub fn find_root_from<F: Fn(&String) -> bool>(path: &String, has_index: F) -> (r: Option<String>)
    requires
        forall|s: &String| call_requires(has_index, (s,)),
    ensures
        match r {
            Some(root) => {
                &&& on_path_up(path@, root@)
                &&& exists|f: &String|
                    f@ == index_file_spec(root@) && call_ensures(has_index, (f,), true)
                &&& forall|q: Seq<char>|
                    on_path_up(path@, q) && !on_path_up(root@, q) ==> reported_absent(has_index, q)
            },
            None => forall|q: Seq<char>| on_path_up(path@, q) ==> reported_absent(has_index, q),
        },
{
    let mut current = path.clone();
    loop
        invariant
            forall|s: &String| call_requires(has_index, (s,)),
            on_path_up(path@, current@),
            forall|q: Seq<char>|
                on_path_up(path@, q) && !on_path_up(current@, q) ==> reported_absent(has_index, q),
        decreases current@.len(),
    {
        let index_file = get_nosman_index_filepath_for(&current);
        if has_index(&index_file) {
            return Some(current);
        }
        assert(reported_absent(has_index, current@));
        match parent_path(&current) {
            None => {
                assert forall|q: Seq<char>| on_path_up(path@, q) implies reported_absent(has_index, q) by {
                    if q != current@ {
                        assert(!on_path_up(current@, q));
                    }
                }
                return None;
            },
            Some(up) => {
                proof {
                    lemma_parent_shorter(current@);
                    lemma_on_path_up_step(path@, current@);
                    assert forall|q: Seq<char>|
                        on_path_up(path@, q) && !on_path_up(up@, q) implies reported_absent(has_index, q) by {
                        if q != current@ {
                            assert(!on_path_up(current@, q));
                        }
                    }
                }
                current = up;
            },
        }
    }
}

/// Going one folder up stays on the way up from `p`.
pub proof fn lemma_on_path_up_step(p: Seq<char>, q: Seq<char>)
    requires
        on_path_up(p, q),
        parent_of(q) is Some,
    ensures
        on_path_up(p, parent_of(q)->0),
    decreases p.len(),
{
    lemma_parent_shorter(q);
    if p == q {
        let up = parent_of(q)->0;
        if p != up {
            assert(on_path_up(up, up));
        }
    } else {
        let up = parent_of(p)->0;
        lemma_parent_shorter(p);
        lemma_on_path_up_step(up, q);
        if p == parent_of(q)->0 {
        }
    }
}

/// The registry file of the workspace at `path` is reported present.
pub fn exists_in<F: Fn(&String) -> bool>(path: &String, is_file: F) -> (r: bool)
    requires
        forall|s: &String| call_requires(is_file, (s,)),
    ensures
        exists|f: &String| f@ == index_file_spec(path@) && call_ensures(is_file, (f,), r),
{
    let f = get_nosman_index_filepath_for(path);
    is_file(&f)
}

/// The registry file of the current workspace is reported present; false
/// when no workspace is current.
pub fn workspace_exists<F: Fn(&String) -> bool>(context: &WorkspaceContext, is_file: F) -> (r: bool)
    requires
        forall|s: &String| call_requires(is_file, (s,)),
    ensures
        context.root is None ==> !r,
        context.root is Some ==> exists|f: &String|
            f@ == index_file_spec(context.root->0@) && call_ensures(is_file, (f,), r),
{
    match get_nosman_index_filepath(context) {
        None => false,
        Some(f) => is_file(&f),
    }
}

impl Workspace {
    pub open spec fn wf(&self) -> bool {
        keys_unique(self.installed_modules@) && self.index_cache.wf()
    }

    /// A workspace at `path` with nothing in it.
    pub fn new_empty(path: String) -> (r: Workspace)
        ensures
            r.wf(),
            r.root == path,
            r.remotes@.len() == 0,
            r.installed_modules@.len() == 0,
            r.index_cache.packages@.len() == 0,
    {
        Workspace {
            root: path,
            remotes: Vec::new(),
            installed_modules: Vec::new(),
            index_cache: Index::new(),
        }
    }

    /// Where the clone of `remote` is kept.
    pub fn get_remote_repo_dir(&self, remote: &Remote) -> (r: String)
        ensures
            r@ == join_spec(join_spec(nosman_dir_spec(self.root@), "remote"@), remote.name@),
    {
        let d = get_nosman_dir_for(&self.root);
        proof {
            reveal_strlit("remote");
        }
        let r = join(d.as_str(), "remote");
        join(r.as_str(), remote.name.as_str())
    }

    pub fn add_remote(&mut self, remote: Remote)
        ensures
            final(self).remotes@ == old(self).remotes@.push(remote),
            final(self).root == old(self).root,
            final(self).installed_modules == old(self).installed_modules,
            final(self).index_cache == old(self).index_cache,
    {
        self.remotes.push(remote);
    }

    /// The first remote called `name`.
    pub fn find_remote(&self, name: &str) -> (r: Option<&Remote>)
        ensures
            match r {
                Some(rem) => exists|i: int|
                    0 <= i < self.remotes@.len() && self.remotes@[i] == *rem && rem.name@ == name@
                        && forall|k: int| 0 <= k < i ==> (#[trigger] self.remotes@[k]).name@ != name@,
                None => forall|k: int|
                    0 <= k < self.remotes@.len() ==> (#[trigger] self.remotes@[k]).name@ != name@,
            },
    {
        let mut i: usize = 0;
        while i < self.remotes.len()
            invariant
                i <= self.remotes@.len(),
                forall|k: int| 0 <= k < i ==> (#[trigger] self.remotes@[k]).name@ != name@,
            decreases self.remotes.len() - i,
        {
            if str_eq(self.remotes[i].name.as_str(), name) {
                return Some(&self.remotes[i]);
            }
            i = i + 1;
        }
        None
    }

    /// The registry file of this workspace.
    pub fn get_nosman_index_filepath(&self) -> (r: String)
        ensures
            r@ == index_file_spec(self.root@),
    {
        get_nosman_index_filepath_for(&self.root)
    }

    fn position_of(&self, name: &str, version: &str) -> (r: Option<usize>)
        requires
            self.wf(),
        ensures
            match r {
                Some(i) => module_position(self.installed_modules@, name@, version@) == Some(
                    i as int,
                ),
                None => module_position(self.installed_modules@, name@, version@) is None,
            },
    {
        let mods = &self.installed_modules;
        let mut i: usize = 0;
        while i < mods.len()
            invariant
                *mods == self.installed_modules,
                keys_unique(mods@),
                i <= mods@.len(),
                forall|k: int| 0 <= k < i ==> key_of(#[trigger] mods@[k]) != (name@, version@),
            decreases mods.len() - i,
        {
            if str_eq(mods[i].info.id.name.as_str(), name) && str_eq(
                mods[i].info.id.version.as_str(),
                version,
            ) {
                assert(key_of(mods@[i as int]) == (name@, version@));
                let ghost c = choose|c: int|
                    0 <= c < mods@.len() && key_of(#[trigger] mods@[c]) == (name@, version@);
                assert(c == i as int) by {
                    if c != i as int {
                        assert(key_of(mods@[i as int]) != key_of(mods@[c]));
                    }
                }
                return Some(i);
            }
            i = i + 1;
        }
        None
    }

    /// The module registered with exactly this name and version.
    pub fn get_installed_module(&self, name: &str, version: &str) -> (r: Option<&InstalledModule>)
        requires
            self.wf(),
        ensures
            match r {
                Some(m) => lookup(self.installed_modules@, name@, version@) == Some(*m),
                None => lookup(self.installed_modules@, name@, version@) is None,
            },
    {
        match self.position_of(name, version) {
            Some(i) => Some(&self.installed_modules[i]),
            None => None,
        }
    }

    /// The highest installed version of `name` in `[version_start,
    /// version_end)`; none at all when an installed version of `name` does
    /// not read.
    pub fn get_latest_installed_module_within_range(
        &self,
        name: &str,
        version_start: &SemVer,
        version_end: &SemVer,
    ) -> (r: Option<&InstalledModule>)
        ensures
            match r {
                Some(m) => versions_read(self.installed_modules@, name@) && exists|j: int|
                    is_latest_module(
                        self.installed_modules@,
                        j,
                        name@,
                        *version_start,
                        *version_end,
                    ) && self.installed_modules@[j] == *m,
                None => !versions_read(self.installed_modules@, name@) || forall|k: int|
                    0 <= k < self.installed_modules@.len() ==> !candidate(
                        #[trigger] self.installed_modules@[k],
                        name@,
                        *version_start,
                        *version_end,
                    ),
            },
    {
        let mods = &self.installed_modules;
        let mut k: usize = 0;
        while k < mods.len()
            invariant
                *mods == self.installed_modules,
                k <= mods@.len(),
                forall|m: int|
                    0 <= m < k && (#[trigger] mods@[m]).info.id.name@ == name@ ==> module_version(
                        mods@[m],
                    ) is Some,
            decreases mods.len() - k,
        {
            if str_eq(mods[k].info.id.name.as_str(), name) {
                if SemVer::parse_from_string(mods[k].info.id.version.as_str()).is_none() {
                    assert(module_version(mods@[k as int]) is None);
                    assert(mods@[k as int].info.id.name@ == name@);
                    assert(!versions_read(self.installed_modules@, name@));
                    return None;
                }
            }
            k = k + 1;
        }
        let mut best: Option<(usize, SemVer)> = None;
        let mut k: usize = 0;
        while k < mods.len()
            invariant
                *mods == self.installed_modules,
                k <= mods@.len(),
                versions_read(mods@, name@),
                match best {
                    None => forall|m: int|
                        0 <= m < k ==> !candidate(
                            #[trigger] mods@[m],
                            name@,
                            *version_start,
                            *version_end,
                        ),
                    Some((j, v)) => {
                        &&& j < k
                        &&& candidate(mods@[j as int], name@, *version_start, *version_end)
                        &&& module_version(mods@[j as int]) == Some(v)
                        &&& forall|m: int|
                            0 <= m < k && candidate(
                                #[trigger] mods@[m],
                                name@,
                                *version_start,
                                *version_end,
                            ) ==> compare(module_version(mods@[m])->0, v) <= 0
                    },
                },
            decreases mods.len() - k,
        {
            if str_eq(mods[k].info.id.name.as_str(), name) {
                if let Some(v) = SemVer::parse_from_string(mods[k].info.id.version.as_str()) {
                    if v.is_within(version_start, version_end) {
                        match best {
                            None => {
                                best = Some((k, v));
                            },
                            Some((j, w)) => {
                                if matches!(v.compare_to(&w), core::cmp::Ordering::Greater) {
                                    proof {
                                        lemma_compare_antisymmetric(v, w);
                                        assert forall|m: int|
                                            0 <= m < k && candidate(
                                                #[trigger] mods@[m],
                                                name@,
                                                *version_start,
                                                *version_end,
                                            ) implies compare(module_version(mods@[m])->0, v)
                                            <= 0 by {
                                            lemma_compare_le_lt(module_version(mods@[m])->0, w, v);
                                        }
                                    }
                                    best = Some((k, v));
                                }
                            },
                        }
                    }
                }
            }
            k = k + 1;
        }
        match best {
            None => None,
            Some((j, _)) => Some(&mods[j]),
        }
    }

    /// The highest installed version of `module_name` compatible with
    /// `requested_version` (which must give a minor version).
    pub fn get_latest_installed_module_for_version(
        &self,
        module_name: &str,
        requested_version: &str,
    ) -> (r: Result<&InstalledModule, String>)
        ensures
            match parse_spec(requested_version@) {
                None => r matches Err(e) && e@ == "Invalid semantic version: "@ + requested_version@
                    + "."@,
                Some(start) => {
                    if start.minor is None {
                        r matches Err(e) && e@ == "Please provide a minor version too!"@
                    } else if !can_go_up(start) {
                        r matches Err(e) && e@ == "Version has no upper bound: "@
                            + requested_version@
                    } else {
                        let end = one_up(start);
                        match r {
                            Ok(m) => versions_read(self.installed_modules@, module_name@)
                                && exists|j: int|
                                is_latest_module(
                                    self.installed_modules@,
                                    j,
                                    module_name@,
                                    start,
                                    end,
                                ) && self.installed_modules@[j] == *m,
                            Err(e) => {
                                &&& e@ == "No installed version in range ["@ + text_of(start) + ", "@
                                    + text_of(end) + ") for module "@ + module_name@
                                &&& !versions_read(self.installed_modules@, module_name@)
                                    || forall|k: int|
                                    0 <= k < self.installed_modules@.len() ==> !candidate(
                                        #[trigger] self.installed_modules@[k],
                                        module_name@,
                                        start,
                                        end,
                                    )
                            },
                        }
                    }
                },
            },
    {
        let start = match SemVer::parse_from_string(requested_version) {
            None => {
                let mut m = owned("Invalid semantic version: ");
                append(&mut m, requested_version);
                append(&mut m, ".");
                return Err(m);
            },
            Some(v) => v,
        };
        if start.minor.is_none() {
            return Err(owned("Please provide a minor version too!"));
        }
        if !start.has_one_up() {
            let mut m = owned("Version has no upper bound: ");
            append(&mut m, requested_version);
            return Err(m);
        }
        let end = start.get_one_up();
        match self.get_latest_installed_module_within_range(module_name, &start, &end) {
            Some(m) => Ok(m),
            None => {
                let mut m = owned("No installed version in range [");
                append(&mut m, start.to_string().as_str());
                append(&mut m, ", ");
                append(&mut m, end.to_string().as_str());
                append(&mut m, ") for module ");
                append(&mut m, module_name);
                Err(m)
            },
        }
    }

    /// Puts `module` in the registry, in place of an entry with its name and
    /// version.
    pub fn add(&mut self, module: InstalledModule)
        requires
            old(self).wf(),
        ensures
            final(self).wf(),
            final(self).installed_modules@ == upsert(old(self).installed_modules@, module),
            final(self).root == old(self).root,
            final(self).remotes == old(self).remotes,
            final(self).index_cache == old(self).index_cache,
    {
        let ghost mods0 = self.installed_modules@;
        match self.position_of(module.info.id.name.as_str(), module.info.id.version.as_str()) {
            Some(i) => {
                self.installed_modules.set(i, module);
                proof {
                    assert forall|a: int, b: int|
                        0 <= a < self.installed_modules@.len() && 0 <= b
                            < self.installed_modules@.len() && a != b implies key_of(
                        #[trigger] self.installed_modules@[a],
                    ) != key_of(#[trigger] self.installed_modules@[b]) by {
                        assert(key_of(self.installed_modules@[a]) == key_of(mods0[a]));
                        assert(key_of(self.installed_modules@[b]) == key_of(mods0[b]));
                    }
                }
            },
            None => {
                self.installed_modules.push(module);
                proof {
                    let n = mods0.len() as int;
                    assert forall|a: int, b: int|
                        0 <= a < self.installed_modules@.len() && 0 <= b
                            < self.installed_modules@.len() && a != b implies key_of(
                        #[trigger] self.installed_modules@[a],
                    ) != key_of(#[trigger] self.installed_modules@[b]) by {
                        if a == n {
                            assert(self.installed_modules@[b] == mods0[b]);
                        } else if b == n {
                            assert(self.installed_modules@[a] == mods0[a]);
                        } else {
                            assert(self.installed_modules@[a] == mods0[a]);
                            assert(self.installed_modules@[b] == mods0[b]);
                        }
                    }
                }
            },
        }
    }

    /// Takes the module `name`-`version` out of the registry and hands it
    /// back, so that its folder can be deleted; an error when there is none.
    pub fn remove(&mut self, name: &str, version: &str) -> (r: Result<InstalledModule, CommandError>)
        requires
            old(self).wf(),
        ensures
            final(self).wf(),
            final(self).root == old(self).root,
            final(self).remotes == old(self).remotes,
            final(self).index_cache == old(self).index_cache,
            match module_position(old(self).installed_modules@, name@, version@) {
                Some(i) => r == Ok::<InstalledModule, CommandError>(old(self).installed_modules@[i])
                    && final(self).installed_modules@ == old(self).installed_modules@.remove(i),
                None => r matches Err(CommandError::InvalidArgumentError { .. })
                    && final(self).installed_modules == old(self).installed_modules,
            },
    {
        match self.position_of(name, version) {
            None => {
                let mut m = owned("Module ");
                append(&mut m, name);
                append(&mut m, " version ");
                append(&mut m, version);
                append(&mut m, " is not installed");
                Err(CommandError::InvalidArgumentError { message: m })
            },
            Some(i) => {
                let ghost mods0 = self.installed_modules@;
                let m = self.installed_modules.remove(i);
                proof {
                    assert forall|a: int, b: int|
                        0 <= a < self.installed_modules@.len() && 0 <= b
                            < self.installed_modules@.len() && a != b implies key_of(
                        #[trigger] self.installed_modules@[a],
                    ) != key_of(#[trigger] self.installed_modules@[b]) by {
                        let a0 = if a < i {
                            a
                        } else {
                            a + 1
                        };
                        let b0 = if b < i {
                            b
                        } else {
                            b + 1
                        };
                        assert(self.installed_modules@[a] == mods0[a0]);
                        assert(self.installed_modules@[b] == mods0[b0]);
                    }
                }
                Ok(m)
            },
        }
    }

    /// Empties the registry and hands back what it held.
    pub fn remove_all(&mut self) -> (r: Vec<InstalledModule>)
        requires
            old(self).wf(),
        ensures
            final(self).wf(),
            r@ == old(self).installed_modules@,
            final(self).installed_modules@.len() == 0,
            final(self).root == old(self).root,
            final(self).remotes == old(self).remotes,
            final(self).index_cache == old(self).index_cache,
    {
        let mut taken: Vec<InstalledModule> = Vec::new();
        std::mem::swap(&mut taken, &mut self.installed_modules);
        taken
    }

    /// Registers a module that a scan found.  An entry with the same name
    /// and version is replaced when `force_replace_in_registry` is set, and
    /// kept (the new one skipped) otherwise.
    pub fn add_scanned_module(&mut self, module: InstalledModule, force_replace_in_registry: bool) -> (r:
        ScanOutcome)
        requires
            old(self).wf(),
        ensures
            final(self).wf(),
            final(self).installed_modules@ == after_scan(
                old(self).installed_modules@,
                module,
                force_replace_in_registry,
            ),
            final(self).root == old(self).root,
            final(self).remotes == old(self).remotes,
            final(self).index_cache == old(self).index_cache,
            r == scan_outcome(old(self).installed_modules@, module, force_replace_in_registry),
    {
        let found = self.position_of(module.info.id.name.as_str(), module.info.id.version.as_str());
        if found.is_some() && !force_replace_in_registry {
            return ScanOutcome::SkippedDuplicate;
        }
        self.add(module);
        if found.is_some() {
            ScanOutcome::Replaced
        } else {
            ScanOutcome::Added
        }
    }

    /// Registers every module that a scan found, in order.
    pub fn scan_modules_in_folder(&mut self, found: Vec<InstalledModule>, force_replace_in_registry: bool) -> (r:
        Vec<ScanOutcome>)
        requires
            old(self).wf(),
        ensures
            final(self).wf(),
            r@.len() == found@.len(),
            forall|i: int|
                0 <= i < found@.len() ==> #[trigger] r@[i] == scan_outcome(
                    scan_all(
                        old(self).installed_modules@,
                        found@.subrange(0, i),
                        force_replace_in_registry,
                    ),
                    found@[i],
                    force_replace_in_registry,
                ),
            final(self).installed_modules@ == scan_all(
                old(self).installed_modules@,
                found@,
                force_replace_in_registry,
            ),
            final(self).root == old(self).root,
            final(self).remotes == old(self).remotes,
            final(self).index_cache == old(self).index_cache,
    {
        let ghost all = found@;
        let mut rest = found;
        let mut outcomes: Vec<ScanOutcome> = Vec::new();
        while rest.len() > 0
            invariant
                self.wf(),
                outcomes@.len() + rest@.len() == all.len(),
                rest@ == all.subrange(outcomes@.len() as int, all.len() as int),
                self.installed_modules@ == scan_all(
                    old(self).installed_modules@,
                    all.subrange(0, outcomes@.len() as int),
                    force_replace_in_registry,
                ),
                forall|j: int|
                    0 <= j < outcomes@.len() ==> #[trigger] outcomes@[j] == scan_outcome(
                        scan_all(old(self).installed_modules@, all.subrange(0, j), force_replace_in_registry),
                        all[j],
                        force_replace_in_registry,
                    ),
                self.root == old(self).root,
                self.remotes == old(self).remotes,
                self.index_cache == old(self).index_cache,
            decreases rest@.len(),
        {
            let ghost i = outcomes@.len() as int;
            let ghost pre = all.subrange(0, i + 1);
            assert(pre.drop_last() =~= all.subrange(0, i));
            assert(pre.last() == rest@[0]);
            let m = rest.remove(0);
            let o = self.add_scanned_module(m, force_replace_in_registry);
            outcomes.push(o);
            assert(rest@ =~= all.subrange(outcomes@.len() as int, all.len() as int));
        }
        assert(all.subrange(0, all.len() as int) =~= all);
        outcomes
    }
}

/// What a scan does with a module it found.
pub open spec fn scan_outcome(mods: Seq<InstalledModule>, m: InstalledModule, force_replace: bool) -> ScanOutcome {
    if module_position(mods, key_of(m).0, key_of(m).1) is None {
        ScanOutcome::Added
    } else if force_replace {
        ScanOutcome::Replaced
    } else {
        ScanOutcome::SkippedDuplicate
    }
}

/// The registry after a scan found `found`, in order.
pub open spec fn scan_all(mods: Seq<InstalledModule>, found: Seq<InstalledModule>, force_replace: bool) -> Seq<InstalledModule>
    decreases found.len(),
{
    if found.len() == 0 {
        mods
    } else {
        after_scan(scan_all(mods, found.drop_last(), force_replace), found.last(), force_replace)
    }
}

/// Of two scanned modules with the same name and version, the registry keeps
/// the first unless replacing is asked for, and then holds the second.
pub proof fn lemma_duplicate_scan(
    mods: Seq<InstalledModule>,
    first: InstalledModule,
    second: InstalledModule,
    force_replace: bool,
)
    requires
        keys_unique(mods),
        key_of(first) == key_of(second),
        module_position(mods, key_of(first).0, key_of(first).1) is None,
    ensures
        ({
            let after = after_scan(after_scan(mods, first, force_replace), second, force_replace);
            lookup(after, key_of(first).0, key_of(first).1) == Some(
                if force_replace {
                    second
                } else {
                    first
                },
            )
        }),
{
    let (n, v) = key_of(first);
    let m1 = after_scan(mods, first, force_replace);
    assert(m1 == mods.push(first));
    let k = mods.len() as int;
    assert(key_of(m1[k]) == (n, v));
    lemma_position_unique(m1, n, v, k);
    let m2 = after_scan(m1, second, force_replace);
    if force_replace {
        assert(m2 == m1.update(k, second));
        lemma_position_unique(m2, n, v, k);
    } else {
        assert(m2 == m1);
    }
}

/// With unique keys, the position of a key is where it stands.
pub proof fn lemma_position_unique(mods: Seq<InstalledModule>, name: Seq<char>, version: Seq<char>, k: int)
    requires
        0 <= k < mods.len(),
        key_of(mods[k]) == (name, version),
        forall|i: int| 0 <= i < mods.len() && i != k ==> key_of(#[trigger] mods[i]) != (name, version),
    ensures
        module_position(mods, name, version) == Some(k),
{
}

/// The first module of `found` registered as `k`.
pub open spec fn first_with(found: Seq<InstalledModule>, k: (Seq<char>, Seq<char>)) -> Option<InstalledModule>
    decreases found.len(),
{
    if found.len() == 0 {
        None
    } else {
        match first_with(found.drop_last(), k) {
            Some(x) => Some(x),
            None => if key_of(found.last()) == k {
                Some(found.last())
            } else {
                None
            },
        }
    }
}

/// The last module of `found` registered as `k`.
pub open spec fn last_with(found: Seq<InstalledModule>, k: (Seq<char>, Seq<char>)) -> Option<InstalledModule>
    decreases found.len(),
{
    if found.len() == 0 {
        None
    } else if key_of(found.last()) == k {
        Some(found.last())
    } else {
        last_with(found.drop_last(), k)
    }
}

/// Putting `m` in keeps the keys unique, registers `m`, and leaves every
/// other key as it was.
pub proof fn lemma_upsert(mods: Seq<InstalledModule>, m: InstalledModule)
    requires
        keys_unique(mods),
    ensures
        keys_unique(upsert(mods, m)),
        lookup(upsert(mods, m), key_of(m).0, key_of(m).1) == Some(m),
        forall|k: (Seq<char>, Seq<char>)|
            k != key_of(m) ==> #[trigger] lookup(upsert(mods, m), k.0, k.1) == lookup(mods, k.0, k.1),
{
    let u = upsert(mods, m);
    match module_position(mods, key_of(m).0, key_of(m).1) {
        Some(i) => {
            assert(key_of(mods[i]) == key_of(m));
            assert forall|j: int| 0 <= j < u.len() implies key_of(#[trigger] u[j]) == key_of(mods[j]) by {}
            lemma_position_unique(u, key_of(m).0, key_of(m).1, i);
            assert forall|k: (Seq<char>, Seq<char>)|
                k != key_of(m) implies #[trigger] lookup(u, k.0, k.1) == lookup(mods, k.0, k.1) by {
                if let Some(j) = module_position(mods, k.0, k.1) {
                    assert(key_of(mods[j]) == k);
                    lemma_position_unique(u, k.0, k.1, j);
                } else {
                    if module_position(u, k.0, k.1) is Some {
                        let j = module_position(u, k.0, k.1)->0;
                        assert(key_of(u[j]) == k);
                        assert(key_of(mods[j]) == k);
                    }
                }
            }
        },
        None => {
            let n = mods.len() as int;
            assert forall|j: int| 0 <= j < n implies key_of(#[trigger] mods[j]) != key_of(m) by {}
            lemma_position_unique(u, key_of(m).0, key_of(m).1, n);
            assert forall|k: (Seq<char>, Seq<char>)|
                k != key_of(m) implies #[trigger] lookup(u, k.0, k.1) == lookup(mods, k.0, k.1) by {
                if let Some(j) = module_position(mods, k.0, k.1) {
                    assert(key_of(mods[j]) == k);
                    lemma_position_unique(u, k.0, k.1, j);
                } else {
                    if module_position(u, k.0, k.1) is Some {
                        let j = module_position(u, k.0, k.1)->0;
                        assert(key_of(u[j]) == k);
                        if j < n {
                            assert(key_of(mods[j]) == k);
                        }
                    }
                }
            }
        },
    }
}

/// However many modules a scan finds, a name and version that the registry
/// did not hold ends up with the first module found under it, or with the
/// last one when replacing is asked for.
pub proof fn lemma_scan_keeps_first_or_last(
    mods: Seq<InstalledModule>,
    found: Seq<InstalledModule>,
    k: (Seq<char>, Seq<char>),
    force_replace: bool,
)
    requires
        keys_unique(mods),
        lookup(mods, k.0, k.1) is None,
    ensures
        keys_unique(scan_all(mods, found, force_replace)),
        lookup(scan_all(mods, found, force_replace), k.0, k.1) == if force_replace {
            last_with(found, k)
        } else {
            first_with(found, k)
        },
    decreases found.len(),
{
    if found.len() > 0 {
        lemma_scan_keeps_first_or_last(mods, found.drop_last(), k, force_replace);
        let r = scan_all(mods, found.drop_last(), force_replace);
        let m = found.last();
        let skipped = module_position(r, key_of(m).0, key_of(m).1) is Some && !force_replace;
        if !skipped {
            lemma_upsert(r, m);
        }
        if key_of(m) != k && !skipped {
            assert(lookup(upsert(r, m), k.0, k.1) == lookup(r, k.0, k.1));
        }
        if key_of(m) == k && skipped {
            assert(lookup(r, k.0, k.1) is Some);
        }
    }
}

} // verus!
