//! Packages and their versions, as the metadata files describe them and as
//! the catalog holds them.

use crate::version::{Requirement, SemVer};
use vstd::prelude::*;

verus! {

/// A readme, in one of the two markup dialects.
#[derive(Clone)]
pub enum Readme {
    ASCIIDOC(String),
    Markdown(String),
}

/// A documentation note of a version.
#[derive(Clone)]
pub struct EEPROM {
    pub name: String,
    pub title: String,
    pub description: String,
}

/// Package-level metadata, as its metadata file states it.
#[derive(Clone)]
pub struct PackageMetadata {
    pub name: String,
    pub short_description: String,
    pub tags: Vec<String>,
    pub authors: Vec<String>,
}

/// A dependency as a version's metadata file states it.
#[derive(Clone)]
pub struct DependencyMetadata {
    pub id: String,
    pub version: Option<String>,
}

/// Version-level metadata, as its metadata file states it.
#[derive(Clone)]
pub struct VersionMetadata {
    pub fin_version: Option<String>,
    pub game_version: Option<String>,
    pub mod_dependencies: Vec<DependencyMetadata>,
    pub eeprom: Vec<EEPROM>,
}

/// A dependency of a catalog version, its requirement read.
pub struct ModDependency {
    pub id: String,
    pub version: Option<Requirement>,
}

/// A version of a catalog package.
pub struct PackageVersion {
    pub version: SemVer,
    pub fin_version: Option<Requirement>,
    pub game_version: Option<Requirement>,
    pub mod_dependencies: Vec<ModDependency>,
    pub eeprom: Vec<EEPROM>,
}

/// A catalog package.
pub struct Package {
    pub id: String,
    pub name: String,
    pub short_description: String,
    pub readme: Readme,
    pub tags: Vec<String>,
    pub authors: Vec<String>,
    pub versions: Vec<PackageVersion>,
}

pub open spec fn readme_text(r: Readme) -> Seq<char> {
    match r {
        Readme::ASCIIDOC(s) => s@,
        Readme::Markdown(s) => s@,
    }
}

impl Readme {
    /// The readme's text, whatever its dialect.
    pub fn text(&self) -> (r: &str)
        ensures
            r@ == readme_text(*self),
    {
        match self {
            Readme::ASCIIDOC(s) => s.as_str(),
            Readme::Markdown(s) => s.as_str(),
        }
    }
}

/// The readme of a package: the AsciiDoc file where there is one, else the
/// Markdown file, else none.
pub fn choose_readme(asciidoc: Option<String>, markdown: Option<String>) -> (r: Option<Readme>)
    ensures
        match asciidoc {
            Some(a) => r == Some(Readme::ASCIIDOC(a)),
            None => match markdown {
                Some(m) => r == Some(Readme::Markdown(m)),
                None => r is None,
            },
        },
{
    match asciidoc {
        Some(a) => Some(Readme::ASCIIDOC(a)),
        None => match markdown {
            Some(m) => Some(Readme::Markdown(m)),
            None => None,
        },
    }
}

/// The readme that the index builder records: as `choose_readme`, and an empty
/// Markdown readme where the package has neither file.
pub fn readme_or_empty(asciidoc: Option<String>, markdown: Option<String>) -> (r: Readme)
    ensures
        match asciidoc {
            Some(a) => r == Readme::ASCIIDOC(a),
            None => match markdown {
                Some(m) => r == Readme::Markdown(m),
                None => r matches Readme::Markdown(s) && s@.len() == 0,
            },
        },
{
    match choose_readme(asciidoc, markdown) {
        Some(r) => r,
        None => Readme::Markdown(String::new()),
    }
}

/// Every requirement that the version metadata states reads as a requirement.
pub open spec fn opt_requirement_reads(o: Option<String>) -> bool {
    match o {
        Some(s) => crate::version::semver_req_valid(s@),
        None => true,
    }
}

pub open spec fn metadata_reads(m: VersionMetadata) -> bool {
    &&& opt_requirement_reads(m.fin_version)
    &&& opt_requirement_reads(m.game_version)
    &&& forall|k: int|
        0 <= k < m.mod_dependencies@.len() ==> opt_requirement_reads(
            #[trigger] m.mod_dependencies@[k].version,
        )
}

pub open spec fn requirement_text(o: Option<Requirement>) -> Option<Seq<char>> {
    match o {
        Some(r) => Some(r.spec_text()),
        None => None,
    }
}

pub open spec fn string_text(o: Option<String>) -> Option<Seq<char>> {
    match o {
        Some(s) => Some(s@),
        None => None,
    }
}

fn read_requirement(o: Option<String>) -> (r: Option<Option<Requirement>>)
    ensures
        r is Some <==> opt_requirement_reads(o),
        r matches Some(q) ==> requirement_text(q) == string_text(o),
{
    match o {
        None => Some(None),
        Some(s) => match Requirement::parse(s.as_str()) {
            Some(q) => Some(Some(q)),
            None => None,
        },
    }
}

/// A catalog version holds the version number it was given and what its
/// metadata states, with each requirement read from the metadata's text.
pub open spec fn version_built(v: PackageVersion, version: SemVer, metadata: VersionMetadata) -> bool {
    &&& v.version == version
    &&& requirement_text(v.fin_version) == string_text(metadata.fin_version)
    &&& requirement_text(v.game_version) == string_text(metadata.game_version)
    &&& v.mod_dependencies@.len() == metadata.mod_dependencies@.len()
    &&& forall|k: int|
        0 <= k < v.mod_dependencies@.len() ==> {
            &&& (#[trigger] v.mod_dependencies@[k]).id@ == metadata.mod_dependencies@[k].id@
            &&& requirement_text(v.mod_dependencies@[k].version) == string_text(
                metadata.mod_dependencies@[k].version,
            )
        }
    &&& v.eeprom == metadata.eeprom
}

impl PackageVersion {
    /// A catalog version from the version number of its folder and its
    /// metadata; `None` where a requirement in the metadata does not read.
    pub fn from_metadata(version: SemVer, metadata: VersionMetadata) -> (r: Option<PackageVersion>)
        ensures
            r is Some <==> metadata_reads(metadata),
            r matches Some(v) ==> version_built(v, version, metadata),
    {
        let ghost meta = metadata;
        let VersionMetadata { fin_version, game_version, mod_dependencies, eeprom } = metadata;
        let fin_version = match read_requirement(fin_version) {
            Some(q) => q,
            None => return None,
        };
        let game_version = match read_requirement(game_version) {
            Some(q) => q,
            None => return None,
        };
        let mut deps: Vec<ModDependency> = Vec::new();
        let mut rest = mod_dependencies;
        let ghost all = rest@;
        let mut k: usize = 0;
        let n = rest.len();
        assert(all.skip(0) =~= all);
        while rest.len() > 0
            invariant
                meta == metadata,
                n == all.len(),
                all == meta.mod_dependencies@,
                k == deps@.len(),
                k + rest@.len() == all.len(),
                rest@ == all.skip(k as int),
                forall|j: int|
                    0 <= j < k ==> {
                        &&& (#[trigger] deps@[j]).id@ == all[j].id@
                        &&& requirement_text(deps@[j].version) == string_text(all[j].version)
                    },
                forall|j: int| 0 <= j < k ==> opt_requirement_reads(#[trigger] all[j].version),
            decreases rest@.len(),
        {
            let d = rest.remove(0);
            assert(d == all[k as int]);
            assert(rest@ =~= all.skip(k + 1));
            let version = match read_requirement(d.version) {
                Some(q) => q,
                None => return None,
            };
            deps.push(ModDependency { id: d.id, version });
            k = k + 1;
        }
        Some(PackageVersion { version, fin_version, game_version, mod_dependencies: deps, eeprom })
    }
}

impl Package {
    /// A catalog package from its id, readme, versions and package metadata.
    pub fn from_metadata(id: String, readme: Readme, versions: Vec<PackageVersion>, metadata: PackageMetadata) -> (r: Package)
        ensures
            r.id == id,
            r.readme == readme,
            r.versions == versions,
            r.name == metadata.name,
            r.short_description == metadata.short_description,
            r.tags == metadata.tags,
            r.authors == metadata.authors,
    {
        Package {
            id,
            name: metadata.name,
            short_description: metadata.short_description,
            readme,
            tags: metadata.tags,
            authors: metadata.authors,
            versions,
        }
    }
}

} // verus!
