//! Metadata resolution: where a package's files live in the raw repository,
//! how the index's version list and the fetched metadata documents make up a
//! full package, and the caches that hold the results.

use crate::cache::{FetchError, TtlCache};
use crate::model::{
    metadata_reads, version_built, Package, PackageMetadata, PackageVersion, Readme, VersionMetadata,
};
use crate::version::{text_key, SemVer};
use vstd::prelude::*;
use vstd::string::StringExecFns;

verus! {

/// How many package metadata documents the repository keeps.
pub const PACKAGE_META_CAPACITY: usize = 10000;

/// How many full packages the repository keeps.
pub const PACKAGE_CAPACITY: usize = 2000;

/// How many version metadata documents the repository keeps.
pub const VERSION_META_CAPACITY: usize = 10000;

/// How long, in seconds, an outcome is kept.
pub const TIME_TO_LIVE: u64 = 30;

/// The raw repository that holds the packages' files, and the caches of what
/// was resolved from it.
pub struct Repository {
    pub raw_url: String,
    pub package_meta_cache: TtlCache<PackageMetadata>,
    pub version_meta_cache: TtlCache<VersionMetadata>,
    pub package_cache: TtlCache<Package>,
}

pub open spec fn packages_dir() -> Seq<char> {
    "/Packages/"@
}

/// Where a package's metadata file lies, relative to the raw repository.
pub open spec fn package_meta_path(id: Seq<char>) -> Seq<char> {
    packages_dir() + id + "/metadata.toml"@
}

/// Where a version's metadata file lies, relative to the raw repository.
pub open spec fn version_meta_path(id: Seq<char>, version: Seq<char>) -> Seq<char> {
    packages_dir() + id + "/v"@ + version + "/metadata.toml"@
}

/// Where a package's readme in one dialect lies, relative to the raw repository.
pub open spec fn readme_path(id: Seq<char>, asciidoc: bool) -> Seq<char> {
    packages_dir() + id + if asciidoc {
        "/README.adoc"@
    } else {
        "/README.md"@
    }
}

impl Repository {
    /// A repository over the raw files under `raw_url`, with empty caches.
    pub fn new(raw_url: String) -> (r: Repository)
        ensures
            r.raw_url == raw_url,
            r.package_meta_cache.view().entries.len() == 0,
            r.package_meta_cache.view().capacity == PACKAGE_META_CAPACITY,
            r.package_meta_cache.view().ttl == TIME_TO_LIVE,
            r.version_meta_cache.view().entries.len() == 0,
            r.version_meta_cache.view().capacity == VERSION_META_CAPACITY,
            r.version_meta_cache.view().ttl == TIME_TO_LIVE,
            r.package_cache.view().entries.len() == 0,
            r.package_cache.view().capacity == PACKAGE_CAPACITY,
            r.package_cache.view().ttl == TIME_TO_LIVE,
    {
        Repository {
            raw_url,
            package_meta_cache: TtlCache::new(PACKAGE_META_CAPACITY, TIME_TO_LIVE),
            version_meta_cache: TtlCache::new(VERSION_META_CAPACITY, TIME_TO_LIVE),
            package_cache: TtlCache::new(PACKAGE_CAPACITY, TIME_TO_LIVE),
        }
    }

    /// The locator of a file of the raw repository.
    pub fn path(&self, path: &str) -> (r: String)
        ensures
            r@ == self.raw_url@ + path@,
    {
        self.raw_url.clone().concat(path)
    }
}

/// The metadata file of a package.
pub fn package_meta_locator(id: &str) -> (r: String)
    ensures
        r@ == package_meta_path(id@),
{
    let r = String::from_str("/Packages/").concat(id).concat("/metadata.toml");
    assert(r@ =~= package_meta_path(id@));
    r
}

/// The metadata file of a version of a package.
pub fn version_meta_locator(id: &str, version: &str) -> (r: String)
    ensures
        r@ == version_meta_path(id@, version@),
{
    let r = String::from_str("/Packages/").concat(id).concat("/v").concat(version).concat(
        "/metadata.toml",
    );
    assert(r@ =~= version_meta_path(id@, version@));
    r
}

/// The readme of a package in one dialect: AsciiDoc or Markdown.
pub fn readme_locator(id: &str, asciidoc: bool) -> (r: String)
    ensures
        r@ == readme_path(id@, asciidoc),
{
    let base = String::from_str("/Packages/").concat(id);
    let r = if asciidoc {
        base.concat("/README.adoc")
    } else {
        base.concat("/README.md")
    };
    assert(r@ =~= readme_path(id@, asciidoc));
    r
}

/// The stored version strings that read as versions, in order.
pub open spec fn readable_versions(strings: Seq<String>) -> Seq<Seq<char>>
    decreases strings.len(),
{
    if strings.len() == 0 {
        seq![]
    } else {
        let rest = readable_versions(strings.drop_last());
        if text_key(strings.last()@) is Some {
            rest.push(strings.last()@)
        } else {
            rest
        }
    }
}

pub open spec fn version_texts(vs: Seq<SemVer>) -> Seq<Seq<char>> {
    vs.map_values(|v: SemVer| v.spec_text())
}

/// The versions of a package from its document's version strings; strings
/// that do not read as versions are left out.
pub fn versions_of_document(strings: &Vec<String>) -> (r: Vec<SemVer>)
    ensures
        version_texts(r@) == readable_versions(strings@),
{
    let mut r: Vec<SemVer> = Vec::new();
    let mut i: usize = 0;
    while i < strings.len()
        invariant
            i <= strings@.len(),
            version_texts(r@) == readable_versions(strings@.take(i as int)),
        decreases strings@.len() - i,
    {
        let ghost t = strings@.take(i + 1);
        assert(t.drop_last() =~= strings@.take(i as int));
        let ghost before = r@;
        match SemVer::parse(strings[i].as_str()) {
            Some(v) => {
                r.push(v);
                assert(version_texts(r@) =~= version_texts(before).push(strings@[i as int]@));
            },
            None => {},
        }
        i = i + 1;
    }
    assert(strings@.take(strings@.len() as int) =~= strings@);
    r
}

/// A fetched version metadata document gives a version: it was fetched, and
/// its requirements read.
pub open spec fn version_meta_usable(m: Result<VersionMetadata, FetchError>) -> bool {
    match m {
        Ok(meta) => metadata_reads(meta),
        Err(_) => false,
    }
}

/// The error that a version metadata document gives: its fetch error, or an
/// upstream error where a requirement does not read.
pub open spec fn version_meta_error(m: Result<VersionMetadata, FetchError>) -> FetchError {
    match m {
        Ok(_) => FetchError::Upstream,
        Err(e) => e,
    }
}

/// The versions of a package from the index's version list and each
/// version's fetched metadata, in the same order. One failure fails the
/// whole: the first failing version's error is returned and nothing else.
pub fn assemble_versions(versions: Vec<SemVer>, metas: Vec<Result<VersionMetadata, FetchError>>) -> (r: Result<Vec<PackageVersion>, FetchError>)
    requires
        versions@.len() == metas@.len(),
    ensures
        match r {
            Ok(vs) => {
                &&& forall|i: int| 0 <= i < metas@.len() ==> version_meta_usable(#[trigger] metas@[i])
                &&& vs@.len() == versions@.len()
                &&& forall|i: int| 0 <= i < vs@.len() ==> (metas@[i] matches Ok(m) && version_built(#[trigger] vs@[i], versions@[i], m))
            },
            Err(e) => exists|i: int|
                0 <= i < metas@.len() && !version_meta_usable(#[trigger] metas@[i]) && e == version_meta_error(metas@[i])
                    && forall|j: int| 0 <= j < i ==> version_meta_usable(#[trigger] metas@[j]),
        },
{
    let ghost all_versions = versions@;
    let ghost all_metas = metas@;
    let mut rest_versions = versions;
    let mut rest_metas = metas;
    let mut out: Vec<PackageVersion> = Vec::new();
    let mut k: usize = 0;
    let n = rest_versions.len();
    assert(all_versions.skip(0) =~= all_versions);
    assert(all_metas.skip(0) =~= all_metas);
    while rest_versions.len() > 0
        invariant
            all_versions == versions@,
            all_metas == metas@,
            n == all_versions.len(),
            all_versions.len() == all_metas.len(),
            k + rest_versions@.len() == n,
            rest_versions@ == all_versions.skip(k as int),
            rest_metas@ == all_metas.skip(k as int),
            out@.len() == k,
            forall|j: int| 0 <= j < k ==> version_meta_usable(#[trigger] all_metas[j]),
            forall|j: int| 0 <= j < k ==> (all_metas[j] matches Ok(m) && version_built(#[trigger] out@[j], all_versions[j], m)),
        decreases rest_versions@.len(),
    {
        let v = rest_versions.remove(0);
        let m = rest_metas.remove(0);
        assert(v == all_versions[k as int]);
        assert(m == all_metas[k as int]);
        assert(rest_versions@ =~= all_versions.skip(k + 1));
        assert(rest_metas@ =~= all_metas.skip(k + 1));
        match m {
            Err(e) => {
                return Err(e);
            },
            Ok(meta) => match PackageVersion::from_metadata(v, meta) {
                Some(pv) => {
                    out.push(pv);
                },
                None => {
                    return Err(FetchError::Upstream);
                },
            },
        }
        k = k + 1;
    }
    Ok(out)
}

/// A full package from its parts, each as it was resolved: its metadata, its
/// readme (an empty Markdown readme where neither dialect was found, see
/// `readme_or_empty`), and its versions (`None` where the index does not
/// know the package). The first failing part, in that order, gives the error.
pub fn assemble_package(
    id: String,
    metadata: Result<PackageMetadata, FetchError>,
    readme: Readme,
    versions: Option<Result<Vec<PackageVersion>, FetchError>>,
) -> (r: Result<Package, FetchError>)
    ensures
        match metadata {
            Err(e) => r == Err::<Package, FetchError>(e),
            Ok(m) => match versions {
                None => r == Err::<Package, FetchError>(FetchError::NotFound),
                Some(Err(e)) => r == Err::<Package, FetchError>(e),
                Some(Ok(vs)) => r matches Ok(p) && p.id == id && p.readme == readme && p.versions == vs
                    && p.name == m.name && p.short_description == m.short_description
                    && p.tags == m.tags && p.authors == m.authors,
            },
        },
{
    match metadata {
        Err(e) => Err(e),
        Ok(m) => match versions {
            None => Err(FetchError::NotFound),
            Some(Err(e)) => Err(e),
            Some(Ok(vs)) => Ok(Package::from_metadata(id, readme, vs, m)),
        },
    }
}

} // verus!
