use vstd::prelude::*;
use crate::module::PackageIdentifier;
use crate::semver::{
    compare, in_range, lemma_compare_antisymmetric, lemma_compare_le_lt, parse_spec, SemVer,
};
use crate::text::{owned, str_eq};

verus! {

/// The kind of a package.
#[derive(Debug, Clone, Copy, PartialEq, Eq, Structural, Hash)]
pub enum PackageType {
    Plugin,
    Subsystem,
    Nodos,
    Engine,
    Generic,
}

impl PackageType {
    /// Plugins and subsystems are modules; the other kinds are not.
    pub fn is_module(&self) -> (r: bool)
        ensures
            r == (*self == PackageType::Plugin || *self == PackageType::Subsystem),
    {
        match self {
            PackageType::Plugin | PackageType::Subsystem => true,
            _ => false,
        }
    }
}

/// One package as a remote lists it.
#[derive(Debug, Clone)]
pub struct PackageIndexEntry {
    pub name: String,
    pub releases_url: String,
    pub vendor: String,
    pub package_type: PackageType,
}

/// One published release of a package.
#[derive(Debug, Clone)]
pub struct PackageReleaseEntry {
    pub version: String,
    pub url: String,
    pub plugin_api_version: Option<SemVer>,
    pub subsystem_api_version: Option<SemVer>,
    pub release_date: Option<String>,
    pub dependencies: Option<Vec<PackageIdentifier>>,
    pub category: Option<String>,
    pub module_tags: Option<Vec<String>>,
    pub release_tags: Option<Vec<String>>,
    pub platform: Option<String>,
}

/// The release list of one package.
#[derive(Debug, Clone)]
pub struct PackageReleases {
    pub name: String,
    pub releases: Vec<PackageReleaseEntry>,
}

/// A named package index.
#[derive(Debug, Clone)]
pub struct Remote {
    pub name: String,
    pub url: String,
}

impl Remote {
    pub fn new(name: &str, url: &str) -> (r: Remote)
        ensures
            r.name@ == name@,
            r.url@ == url@,
    {
        Remote { name: owned(name), url: owned(url) }
    }
}

/// The cached releases of one package, with its kind.
#[derive(Debug, Clone)]
pub struct IndexedPackage {
    pub name: String,
    pub package_type: PackageType,
    pub releases: Vec<PackageReleaseEntry>,
}

/// The cached package index: each package name appears once.
#[derive(Debug, Clone)]
pub struct Index {
    pub packages: Vec<IndexedPackage>,
}

/// The release may be used on `host`: it names no platform, or that one.
pub open spec fn platform_ok(rel: PackageReleaseEntry, host: Seq<char>) -> bool {
    match rel.platform {
        None => true,
        Some(p) => p@ == host,
    }
}

/// The version a release entry names, when it reads.
pub open spec fn release_version(rel: PackageReleaseEntry) -> Option<SemVer> {
    parse_spec(rel.version@)
}

/// The release may be chosen: its version reads, it fits `host`, and it
/// lies in the bounds when there are any.
pub open spec fn eligible(
    rel: PackageReleaseEntry,
    bounds: Option<(SemVer, SemVer)>,
    host: Seq<char>,
) -> bool {
    &&& release_version(rel) is Some
    &&& platform_ok(rel, host)
    &&& match bounds {
        None => true,
        Some((start, end)) => in_range(release_version(rel)->0, start, end),
    }
}

/// `rels[j]` is eligible and no eligible release is above it.
pub open spec fn is_latest(
    rels: Seq<PackageReleaseEntry>,
    j: int,
    bounds: Option<(SemVer, SemVer)>,
    host: Seq<char>,
) -> bool {
    &&& 0 <= j < rels.len()
    &&& eligible(rels[j], bounds, host)
    &&& forall|k: int|
        0 <= k < rels.len() && eligible(#[trigger] rels[k], bounds, host) ==> compare(
            release_version(rels[k])->0,
            release_version(rels[j])->0,
        ) <= 0
}

/// Some release may be chosen.
pub open spec fn any_eligible(
    rels: Seq<PackageReleaseEntry>,
    bounds: Option<(SemVer, SemVer)>,
    host: Seq<char>,
) -> bool {
    exists|k: int| 0 <= k < rels.len() && eligible(#[trigger] rels[k], bounds, host)
}

/// Every release version of the list reads as a version.
pub open spec fn all_versions_read(rels: Seq<PackageReleaseEntry>) -> bool {
    forall|k: int| 0 <= k < rels.len() ==> (#[trigger] release_version(rels[k])) is Some
}

/// `rels[j]` is the first release with that exact version that fits `host`.
pub open spec fn is_first_exact(
    rels: Seq<PackageReleaseEntry>,
    j: int,
    version: Seq<char>,
    host: Seq<char>,
) -> bool {
    &&& 0 <= j < rels.len()
    &&& rels[j].version@ == version && platform_ok(rels[j], host)
    &&& forall|k: int|
        0 <= k < j ==> !((#[trigger] rels[k]).version@ == version && platform_ok(rels[k], host))
}

impl Index {
    pub open spec fn wf(&self) -> bool {
        forall|i: int, j: int|
            0 <= i < j < self.packages@.len() ==> (#[trigger] self.packages@[i]).name@
                != (#[trigger] self.packages@[j]).name@
    }

    /// The position of the package called `name`.
    pub open spec fn position(&self, name: Seq<char>) -> Option<int> {
        if exists|i: int| 0 <= i < self.packages@.len() && (#[trigger] self.packages@[i]).name@ == name {
            Some(
                choose|i: int| 0 <= i < self.packages@.len() && (#[trigger] self.packages@[i]).name@ == name,
            )
        } else {
            None
        }
    }

    pub fn new() -> (r: Index)
        ensures
            r.wf(),
            r.packages@.len() == 0,
    {
        Index { packages: Vec::new() }
    }

    fn find(&self, name: &str) -> (r: Option<usize>)
        requires
            self.wf(),
        ensures
            match r {
                Some(i) => self.position(name@) == Some(i as int),
                None => self.position(name@) is None,
            },
    {
        let mut i: usize = 0;
        while i < self.packages.len()
            invariant
                self.wf(),
                i <= self.packages@.len(),
                forall|k: int| 0 <= k < i ==> (#[trigger] self.packages@[k]).name@ != name@,
            decreases self.packages.len() - i,
        {
            if str_eq(self.packages[i].name.as_str(), name) {
                let ghost c = choose|c: int|
                    0 <= c < self.packages@.len() && (#[trigger] self.packages@[c]).name@ == name@;
                assert(c == i as int) by {
                    if c < i {
                    } else if c > i {
                        assert(self.packages@[i as int].name@ != self.packages@[c].name@);
                    }
                }
                return Some(i);
            }
            i = i + 1;
        }
        None
    }

    /// Records a release of `name`; a package met for the first time gets
    /// the kind `package_type`.
    pub fn add_package(&mut self, name: &String, package_type: PackageType, package: PackageReleaseEntry)
        requires
            old(self).wf(),
        ensures
            final(self).wf(),
            match old(self).position(name@) {
                Some(i) => {
                    &&& final(self).packages@.len() == old(self).packages@.len()
                    &&& forall|k: int|
                        0 <= k < old(self).packages@.len() && k != i ==> final(self).packages@[k]
                            == old(self).packages@[k]
                    &&& final(self).packages@[i].name == old(self).packages@[i].name
                    &&& final(self).packages@[i].package_type == old(self).packages@[i].package_type
                    &&& final(self).packages@[i].releases@ == old(self).packages@[i].releases@.push(
                        package,
                    )
                },
                None => {
                    &&& final(self).packages@.len() == old(self).packages@.len() + 1
                    &&& forall|k: int|
                        0 <= k < old(self).packages@.len() ==> final(self).packages@[k]
                            == old(self).packages@[k]
                    &&& final(self).packages@.last().name@ == name@
                    &&& final(self).packages@.last().package_type == package_type
                    &&& final(self).packages@.last().releases@ == seq![package]
                },
            },
    {
        match self.find(name.as_str()) {
            Some(i) => {
                let mut entry = self.packages.remove(i);
                let ghost e0 = entry;
                entry.releases.push(package);
                self.packages.insert(i, entry);
                assert(forall|k: int|
                    0 <= k < self.packages@.len() ==> #[trigger] self.packages@[k].name@ == old(
                        self,
                    ).packages@[k].name@);
            },
            None => {
                let mut releases = Vec::new();
                releases.push(package);
                self.packages.push(
                    IndexedPackage { name: name.clone(), package_type, releases },
                );
            },
        }
    }

    /// The first release of `name` with exactly `version` that fits `host`.
    pub fn get_package(&self, name: &str, version: &str, host: &str) -> (r: Option<
        (&PackageType, &PackageReleaseEntry),
    >)
        requires
            self.wf(),
        ensures
            match self.position(name@) {
                None => r is None,
                Some(i) => {
                    let p = self.packages@[i];
                    match r {
                        None => forall|j: int|
                            0 <= j < p.releases@.len() ==> !((#[trigger] p.releases@[j]).version@
                                == version@ && platform_ok(p.releases@[j], host@)),
                        Some((t, rel)) => *t == p.package_type && exists|j: int|
                            is_first_exact(p.releases@, j, version@, host@) && *rel
                                == p.releases@[j],
                    }
                },
            },
    {
        let i = match self.find(name) {
            None => {
                return None;
            },
            Some(i) => i,
        };
        let p = &self.packages[i];
        let mut j: usize = 0;
        while j < p.releases.len()
            invariant
                *p == self.packages@[i as int],
                self.position(name@) == Some(i as int),
                j <= p.releases@.len(),
                forall|k: int|
                    0 <= k < j ==> !((#[trigger] p.releases@[k]).version@ == version@
                        && platform_ok(p.releases@[k], host@)),
            decreases p.releases.len() - j,
        {
            let rel = &p.releases[j];
            let same = str_eq(rel.version.as_str(), version);
            let fits = match &rel.platform {
                None => true,
                Some(pl) => str_eq(pl.as_str(), host),
            };
            if same && fits {
                assert(is_first_exact(p.releases@, j as int, version@, host@));
                return Some((&p.package_type, rel));
            }
            j = j + 1;
        }
        None
    }

    /// The highest release of `name` that fits `host`, among those whose
    /// version reads.
    pub fn get_latest_release(&self, name: &str, host: &str) -> (r: Option<
        (&PackageType, &PackageReleaseEntry),
    >)
        requires
            self.wf(),
        ensures
            match self.position(name@) {
                None => r is None,
                Some(i) => {
                    let p = self.packages@[i];
                    match r {
                        None => !any_eligible(p.releases@, None, host@),
                        Some((t, rel)) => *t == p.package_type && exists|j: int|
                            is_latest(p.releases@, j, None, host@) && *rel == p.releases@[j],
                    }
                },
            },
    {
        let i = match self.find(name) {
            None => {
                return None;
            },
            Some(i) => i,
        };
        let p = &self.packages[i];
        match latest_index(&p.releases, None, host) {
            None => None,
            Some(j) => Some((&p.package_type, &p.releases[j])),
        }
    }

    /// The highest release of `name` in `[version_start, version_end)` that
    /// fits `host`; none at all when one of its versions does not read.
    pub fn get_latest_compatible_release_within_range(
        &self,
        name: &str,
        version_start: &SemVer,
        version_end: &SemVer,
        host: &str,
    ) -> (r: Option<(&PackageType, &PackageReleaseEntry)>)
        requires
            self.wf(),
        ensures
            match self.position(name@) {
                None => r is None,
                Some(i) => {
                    let p = self.packages@[i];
                    let bounds = Some((*version_start, *version_end));
                    match r {
                        None => !all_versions_read(p.releases@) || !any_eligible(
                            p.releases@,
                            bounds,
                            host@,
                        ),
                        Some((t, rel)) => *t == p.package_type && all_versions_read(p.releases@)
                            && exists|j: int|
                            is_latest(p.releases@, j, bounds, host@) && *rel == p.releases@[j],
                    }
                },
            },
    {
        let i = match self.find(name) {
            None => {
                return None;
            },
            Some(i) => i,
        };
        let p = &self.packages[i];
        if !versions_all_read(&p.releases) {
            return None;
        }
        match latest_index(&p.releases, Some((version_start, version_end)), host) {
            None => None,
            Some(j) => Some((&p.package_type, &p.releases[j])),
        }
    }
}

/// Every version in `rels` reads.
fn versions_all_read(rels: &Vec<PackageReleaseEntry>) -> (r: bool)
    ensures
        r == all_versions_read(rels@),
{
    let mut k: usize = 0;
    while k < rels.len()
        invariant
            k <= rels@.len(),
            forall|m: int| 0 <= m < k ==> (#[trigger] release_version(rels@[m])) is Some,
        decreases rels.len() - k,
    {
        if SemVer::parse_from_string(rels[k].version.as_str()).is_none() {
            assert(release_version(rels@[k as int]) is None);
            return false;
        }
        k = k + 1;
    }
    true
}

/// The position of a highest eligible release.
fn latest_index(
    rels: &Vec<PackageReleaseEntry>,
    bounds: Option<(&SemVer, &SemVer)>,
    host: &str,
) -> (r: Option<usize>)
    ensures
        ({
            let b = match bounds {
                None => None,
                Some((s, e)) => Some((*s, *e)),
            };
            match r {
                None => !any_eligible(rels@, b, host@),
                Some(j) => is_latest(rels@, j as int, b, host@),
            }
        }),
{
    let ghost b = match bounds {
        None => None,
        Some((s, e)) => Some((*s, *e)),
    };
    let mut best: Option<(usize, SemVer)> = None;
    let mut k: usize = 0;
    while k < rels.len()
        invariant
            k <= rels@.len(),
            b == (match bounds {
                None => None,
                Some((s, e)) => Some((*s, *e)),
            }),
            match best {
                None => forall|m: int| 0 <= m < k ==> !eligible(#[trigger] rels@[m], b, host@),
                Some((j, v)) => {
                    &&& j < k
                    &&& eligible(rels@[j as int], b, host@)
                    &&& release_version(rels@[j as int]) == Some(v)
                    &&& forall|m: int|
                        0 <= m < k && eligible(#[trigger] rels@[m], b, host@) ==> compare(
                            release_version(rels@[m])->0,
                            v,
                        ) <= 0
                },
            },
        decreases rels.len() - k,
    {
        let rel = &rels[k];
        let parsed = SemVer::parse_from_string(rel.version.as_str());
        if let Some(v) = parsed {
            let fits = match &rel.platform {
                None => true,
                Some(pl) => str_eq(pl.as_str(), host),
            };
            let inside = match bounds {
                None => true,
                Some((s, e)) => v.is_within(s, e),
            };
            if fits && inside {
                assert(eligible(rels@[k as int], b, host@));
                match best {
                    None => {
                        best = Some((k, v));
                    },
                    Some((j, w)) => {
                        if matches!(v.compare_to(&w), core::cmp::Ordering::Greater) {
                            proof {
                                lemma_compare_antisymmetric(v, w);
                                assert forall|m: int|
                                    0 <= m < k && eligible(#[trigger] rels@[m], b, host@) implies compare(
                                    release_version(rels@[m])->0,
                                    v,
                                ) <= 0 by {
                                    lemma_compare_le_lt(release_version(rels@[m])->0, w, v);
                                }
                            }
                            best = Some((k, v));
                        }
                    },
                }
            }
        }
        k = k + 1;
    }
    match best {
        None => None,
        Some((j, _)) => Some(j),
    }
}

} // verus!
