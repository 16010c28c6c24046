//! The catalog schema and the document that the index builder emits for each
//! package.
//!
//! A document holds a package's searchable text and two repeated fields that
//! stay aligned by position: the version strings, newest first, and the
//! constraint record of each version.

use crate::codec::{
    decode_record, encode, lemma_round_trip, DependencyView, ModDependency as RecordDependency,
    RecordView, VersionData,
};
use crate::model::{
    readme_text, requirement_text, Package, PackageMetadata, PackageVersion, Readme,
};
use crate::version::{key_less, text_key, SemVer};
use vstd::prelude::*;
use vstd::string::StrSliceExecFns;

verus! {

/// How the search engine treats a field.
#[derive(Debug, PartialEq, Eq, Structural)]
pub enum FieldKind {
    /// Tokenized free text.
    Text,
    /// One untokenized term, matched exactly.
    Keyword,
    /// Raw bytes.
    Bytes,
}

/// One field of the catalog schema.
pub struct FieldSpec {
    pub name: String,
    pub kind: FieldKind,
    pub stored: bool,
    pub fast: bool,
}

/// The position of each role's field in the schema.
#[derive(Debug, PartialEq, Eq, Structural)]
pub struct PackageSchema {
    pub id: u32,
    pub name: u32,
    pub short_description: u32,
    pub readme: u32,
    pub tags: u32,
    pub authors: u32,
    pub versions: u32,
    pub version_data: u32,
}

/// A field that a role needs is missing from the schema.
#[derive(Debug, PartialEq, Eq)]
pub struct FieldNotFound {
    pub name: String,
}

/// The document of one package.
pub struct CatalogDocument {
    pub id: String,
    pub name: String,
    pub short_description: String,
    pub readme: String,
    pub tags: Vec<String>,
    pub authors: Vec<String>,
    pub versions: Vec<String>,
    pub version_data: Vec<Vec<u8>>,
}

pub open spec fn role_names() -> Seq<Seq<char>> {
    seq![
        "id"@,
        "name"@,
        "short_description"@,
        "readme"@,
        "tags"@,
        "authors"@,
        "versions"@,
        "version_data"@,
    ]
}

/// How the search engine treats a field: its kind, and whether it is stored
/// and has a fast column.
pub open spec fn field_options(f: FieldSpec) -> (FieldKind, bool, bool) {
    (f.kind, f.stored, f.fast)
}

/// The options of each role's field, in role order: the id is an exact-match
/// term, stored and fast; name, short description and readme are free text;
/// tags and authors are exact-match terms; the version strings are
/// exact-match terms, stored; the constraint records are stored bytes with a
/// fast column.
pub open spec fn role_options() -> Seq<(FieldKind, bool, bool)> {
    seq![
        (FieldKind::Keyword, true, true),
        (FieldKind::Text, false, false),
        (FieldKind::Text, false, false),
        (FieldKind::Text, false, false),
        (FieldKind::Keyword, false, false),
        (FieldKind::Keyword, false, false),
        (FieldKind::Keyword, true, false),
        (FieldKind::Bytes, true, true),
    ]
}

pub open spec fn schema_positions(s: PackageSchema) -> Seq<u32> {
    seq![
        s.id,
        s.name,
        s.short_description,
        s.readme,
        s.tags,
        s.authors,
        s.versions,
        s.version_data,
    ]
}

/// The first position of `name` among `names`, if any.
pub open spec fn position_of(names: Seq<Seq<char>>, name: Seq<char>) -> Option<int>
    decreases names.len(),
{
    if names.len() == 0 {
        None
    } else if names.last() == name {
        match position_of(names.drop_last(), name) {
            Some(i) => Some(i),
            None => Some(names.len() - 1),
        }
    } else {
        position_of(names.drop_last(), name)
    }
}

pub open spec fn field_names(fields: Seq<FieldSpec>) -> Seq<Seq<char>> {
    fields.map_values(|f: FieldSpec| f.name@)
}

pub open spec fn string_names(names: Seq<String>) -> Seq<Seq<char>> {
    names.map_values(|n: String| n@)
}

/// Each role's position in `s` is the first position of the role's name.
pub open spec fn resolves(names: Seq<Seq<char>>, s: PackageSchema) -> bool {
    forall|k: int| 0 <= k < 8 ==> position_of(names, #[trigger] role_names()[k]) == Some(schema_positions(s)[k] as int)
}

fn field(name: &str, kind: FieldKind, stored: bool, fast: bool) -> (f: FieldSpec)
    ensures
        f.name@ == name@,
        f.kind == kind,
        f.stored == stored,
        f.fast == fast,
{
    FieldSpec { name: name.to_owned(), kind, stored, fast }
}

/// The catalog schema: the fields in order, and the position of each role.
pub fn build_schema() -> (r: (Vec<FieldSpec>, PackageSchema))
    ensures
        r.0@.len() == 8,
        field_names(r.0@) == role_names(),
        schema_positions(r.1) == seq![0u32, 1, 2, 3, 4, 5, 6, 7],
        forall|k: int| 0 <= k < 8 ==> field_options(#[trigger] r.0@[k]) == role_options()[k],
{
    let mut fields: Vec<FieldSpec> = Vec::new();
    fields.push(field("id", FieldKind::Keyword, true, true));
    fields.push(field("name", FieldKind::Text, false, false));
    fields.push(field("short_description", FieldKind::Text, false, false));
    fields.push(field("readme", FieldKind::Text, false, false));
    fields.push(field("tags", FieldKind::Keyword, false, false));
    fields.push(field("authors", FieldKind::Keyword, false, false));
    fields.push(field("versions", FieldKind::Keyword, true, false));
    fields.push(field("version_data", FieldKind::Bytes, true, true));
    let schema = PackageSchema {
        id: 0,
        name: 1,
        short_description: 2,
        readme: 3,
        tags: 4,
        authors: 5,
        versions: 6,
        version_data: 7,
    };
    assert(field_names(fields@) =~= role_names());
    assert(schema_positions(schema) =~= seq![0u32, 1, 2, 3, 4, 5, 6, 7]);
    (fields, schema)
}

fn find_field(names: &Vec<String>, name: &str) -> (r: Option<u32>)
    ensures
        match r {
            Some(i) => position_of(string_names(names@), name@) == Some(i as int),
            None => position_of(string_names(names@), name@) is None || names@.len() > u32::MAX,
        },
{
    let wanted = name.to_owned();
    let mut i: usize = 0;
    while i < names.len()
        invariant
            i <= names@.len(),
            wanted@ == name@,
            position_of(string_names(names@).take(i as int), name@) is None,
        decreases names@.len() - i,
    {
        let ghost pre = string_names(names@).take(i as int + 1);
        assert(pre.drop_last() =~= string_names(names@).take(i as int));
        if names[i] == wanted {
            proof {
                lemma_position_prefix(string_names(names@), name@, i as int + 1);
            }
            if i > u32::MAX as usize {
                return None;
            }
            return Some(i as u32);
        }
        i = i + 1;
    }
    proof {
        assert(string_names(names@).take(names@.len() as int) =~= string_names(names@));
    }
    None
}

proof fn lemma_position_prefix(names: Seq<Seq<char>>, name: Seq<char>, n: int)
    requires
        0 <= n <= names.len(),
        position_of(names.take(n), name) matches Some(i),
    ensures
        position_of(names, name) == position_of(names.take(n), name),
    decreases names.len() - n,
{
    if n < names.len() {
        let m = names.take(n + 1);
        assert(m.drop_last() =~= names.take(n));
        lemma_position_prefix(names, name, n + 1);
    } else {
        assert(names.take(n) =~= names);
    }
}

/// Resolves each role's field by name in an existing schema, given the
/// schema's field names in order. Fails on the first role whose field is
/// missing.
pub fn load_schema(names: &Vec<String>) -> (r: Result<PackageSchema, FieldNotFound>)
    requires
        names@.len() <= u32::MAX,
    ensures
        match r {
            Ok(s) => resolves(string_names(names@), s),
            Err(e) => position_of(string_names(names@), e.name@) is None && role_names().contains(e.name@),
        },
{
    let id = match find_field(names, "id") {
        Some(i) => i,
        None => return Err(FieldNotFound { name: "id".to_owned() }),
    };
    let name = match find_field(names, "name") {
        Some(i) => i,
        None => return Err(FieldNotFound { name: "name".to_owned() }),
    };
    let short_description = match find_field(names, "short_description") {
        Some(i) => i,
        None => return Err(FieldNotFound { name: "short_description".to_owned() }),
    };
    let readme = match find_field(names, "readme") {
        Some(i) => i,
        None => return Err(FieldNotFound { name: "readme".to_owned() }),
    };
    let tags = match find_field(names, "tags") {
        Some(i) => i,
        None => return Err(FieldNotFound { name: "tags".to_owned() }),
    };
    let authors = match find_field(names, "authors") {
        Some(i) => i,
        None => return Err(FieldNotFound { name: "authors".to_owned() }),
    };
    let versions = match find_field(names, "versions") {
        Some(i) => i,
        None => return Err(FieldNotFound { name: "versions".to_owned() }),
    };
    let version_data = match find_field(names, "version_data") {
        Some(i) => i,
        None => return Err(FieldNotFound { name: "version_data".to_owned() }),
    };
    let s = PackageSchema {
        id,
        name,
        short_description,
        readme,
        tags,
        authors,
        versions,
        version_data,
    };
    proof {
        assert forall|k: int| 0 <= k < 8 implies position_of(
            string_names(names@),
            #[trigger] role_names()[k],
        ) == Some(schema_positions(s)[k] as int) by {
            if k == 0 {
            } else if k == 1 {
            } else if k == 2 {
            } else if k == 3 {
            } else if k == 4 {
            } else if k == 5 {
            } else if k == 6 {
            } else {
            }
        }
    }
    Ok(s)
}

/// The version folder name `v<semver>` read as a version.
pub open spec fn folder_version(name: Seq<char>) -> Option<Seq<char>> {
    if name.len() > 0 && name[0] == 'v' && text_key(name.skip(1)) is Some {
        Some(name.skip(1))
    } else {
        None
    }
}

/// Reads the version of a version folder named `v<semver>`.
pub fn version_of_folder(name: &str) -> (r: Option<SemVer>)
    ensures
        match r {
            Some(v) => folder_version(name@) == Some(v.spec_text()) && text_key(v.spec_text()) == Some(v.spec_key()),
            None => folder_version(name@) is None,
        },
{
    let n = name.unicode_len();
    if n == 0 || name.get_char(0) != 'v' {
        return None;
    }
    let rest = name.substring_char(1, n);
    assert(rest@ =~= name@.skip(1));
    SemVer::parse(rest)
}

pub open spec fn dependency_record(d: crate::model::ModDependency) -> DependencyView {
    DependencyView { id: d.id@, version: requirement_text(d.version) }
}

/// The constraint record of a catalog version.
pub open spec fn version_record(v: PackageVersion) -> RecordView {
    RecordView {
        fin_version: requirement_text(v.fin_version),
        game_version: requirement_text(v.game_version),
        mod_dependencies: v.mod_dependencies@.map_values(|d: crate::model::ModDependency| dependency_record(d)),
    }
}

fn requirement_string(o: &Option<crate::version::Requirement>) -> (r: Option<String>)
    ensures
        crate::codec::opt_text(r) == requirement_text(*o),
{
    match o {
        Some(q) => Some(q.as_str().to_owned()),
        None => None,
    }
}

/// The constraint record of a catalog version.
pub fn record_of(v: &PackageVersion) -> (r: VersionData)
    ensures
        r@ == version_record(*v),
{
    let mut deps: Vec<RecordDependency> = Vec::new();
    let mut i: usize = 0;
    while i < v.mod_dependencies.len()
        invariant
            i <= v.mod_dependencies@.len(),
            crate::codec::dependencies_view(deps@) == v.mod_dependencies@.take(i as int).map_values(
                |d: crate::model::ModDependency| dependency_record(d),
            ),
        decreases v.mod_dependencies@.len() - i,
    {
        let d = &v.mod_dependencies[i];
        let ghost before = deps@;
        deps.push(RecordDependency { id: d.id.clone(), version: requirement_string(&d.version) });
        assert(crate::codec::dependencies_view(deps@) =~= crate::codec::dependencies_view(before).push(dependency_record(*d)));
        assert(v.mod_dependencies@.take(i + 1) =~= v.mod_dependencies@.take(i as int).push(*d));
        assert(v.mod_dependencies@.take(i + 1).map_values(|d: crate::model::ModDependency| dependency_record(d))
            =~= v.mod_dependencies@.take(i as int).map_values(|d: crate::model::ModDependency| dependency_record(d)).push(dependency_record(*d)));
        i = i + 1;
    }
    assert(v.mod_dependencies@.take(v.mod_dependencies@.len() as int) =~= v.mod_dependencies@);
    let r = VersionData {
        fin_version: requirement_string(&v.fin_version),
        game_version: requirement_string(&v.game_version),
        mod_dependencies: deps,
    };
    assert(r@.mod_dependencies =~= version_record(*v).mod_dependencies);
    r
}

pub open spec fn version_keys(vs: Seq<PackageVersion>) -> Seq<Seq<u64>> {
    vs.map_values(|v: PackageVersion| v.version.spec_key())
}

/// No version comes before one of higher precedence.
pub open spec fn sorted_newest_first(ks: Seq<Seq<u64>>) -> bool {
    forall|i: int, j: int| 0 <= i < j < ks.len() ==> !key_less(#[trigger] ks[i], #[trigger] ks[j])
}

/// Build order: versions sorted newest first whose precedence keys differ
/// (versions that differ in more than build metadata) stand in strictly
/// descending precedence.
pub proof fn lemma_sorted_strictly_descending(ks: Seq<Seq<u64>>)
    requires
        sorted_newest_first(ks),
        forall|i: int, j: int| 0 <= i < j < ks.len() ==> #[trigger] ks[i] != #[trigger] ks[j],
    ensures
        forall|i: int, j: int| 0 <= i < j < ks.len() ==> key_less(#[trigger] ks[j], #[trigger] ks[i]),
{
    assert forall|i: int, j: int| 0 <= i < j < ks.len() implies key_less(#[trigger] ks[j], #[trigger] ks[i]) by {
        crate::version::lemma_key_less_total(ks[i], ks[j]);
    }
}

proof fn lemma_insert_multiset<A>(s: Seq<A>, p: int, x: A)
    requires
        0 <= p <= s.len(),
    ensures
        s.insert(p, x).to_multiset() =~= s.to_multiset().insert(x),
{
    let t = s.insert(p, x);
    assert(t.remove(p) =~= s);
    t.to_multiset_ensures();
    assert(t[p] == x);
    assert(t.contains(x));
}

proof fn lemma_insert_sorted(ks: Seq<Seq<u64>>, p: int, k: Seq<u64>)
    requires
        sorted_newest_first(ks),
        0 <= p <= ks.len(),
        forall|j: int| 0 <= j < p ==> !key_less(#[trigger] ks[j], k),
        p < ks.len() ==> key_less(ks[p], k),
    ensures
        sorted_newest_first(ks.insert(p, k)),
{
    let t = ks.insert(p, k);
    assert forall|j: int| p <= j < ks.len() implies !key_less(k, #[trigger] ks[j]) by {
        crate::version::lemma_key_less_asymmetric(ks[p], k);
        if j > p {
            crate::version::lemma_key_less_total(ks[p], ks[j]);
            if key_less(ks[j], ks[p]) {
                crate::version::lemma_key_less_transitive(ks[j], ks[p], k);
                crate::version::lemma_key_less_asymmetric(ks[j], k);
            }
        }
    }
    assert forall|i: int, j: int| 0 <= i < j < t.len() implies !key_less(#[trigger] t[i], #[trigger] t[j]) by {
        if j < p {
            assert(t[i] == ks[i] && t[j] == ks[j]);
        } else if j == p {
            assert(t[i] == ks[i] && t[j] == k);
        } else if i < p {
            assert(t[i] == ks[i] && t[j] == ks[j - 1]);
            crate::version::lemma_key_less_total(ks[i], k);
            crate::version::lemma_key_less_asymmetric(ks[j - 1], k);
            if key_less(ks[i], ks[j - 1]) {
                if ks[i] == k {
                } else {
                    crate::version::lemma_key_less_transitive(k, ks[i], ks[j - 1]);
                }
            }
        } else if i == p {
            assert(t[i] == k && t[j] == ks[j - 1]);
        } else {
            assert(t[i] == ks[i - 1] && t[j] == ks[j - 1]);
        }
    }
}

/// Sorts versions newest first, by precedence.
pub fn sort_versions(versions: &mut Vec<PackageVersion>)
    ensures
        final(versions)@.to_multiset() == old(versions)@.to_multiset(),
        sorted_newest_first(version_keys(final(versions)@)),
{
    let mut sorted: Vec<PackageVersion> = Vec::new();
    let ghost all = old(versions)@.to_multiset();
    proof {
        old(versions)@.to_multiset_ensures();
        sorted@.to_multiset_ensures();
    }
    while versions.len() > 0
        invariant
            versions@.to_multiset().add(sorted@.to_multiset()) == all,
            sorted_newest_first(version_keys(sorted@)),
        decreases versions@.len(),
    {
        let ghost before = versions@;
        let x = versions.pop().unwrap();
        proof {
            assert(before =~= versions@.push(x));
            versions@.to_multiset_ensures();
        }
        let mut p: usize = 0;
        while p < sorted.len() && !sorted[p].version.precedes(&x.version)
            invariant
                p <= sorted@.len(),
                forall|j: int| 0 <= j < p ==> !key_less(#[trigger] version_keys(sorted@)[j], x.version.spec_key()),
            decreases sorted@.len() - p,
        {
            p = p + 1;
        }
        let ghost ks = version_keys(sorted@);
        let ghost old_sorted = sorted@;
        sorted.insert(p, x);
        proof {
            assert(version_keys(sorted@) =~= ks.insert(p as int, x.version.spec_key()));
            lemma_insert_sorted(ks, p as int, x.version.spec_key());
            lemma_insert_multiset(old_sorted, p as int, x);
            assert(versions@.to_multiset().insert(x).add(old_sorted.to_multiset()) =~= versions@.to_multiset().add(old_sorted.to_multiset().insert(x)));
        }
    }
    proof {
        versions@.to_multiset_ensures();
        assert(versions@.to_multiset() =~= vstd::multiset::Multiset::empty());
        assert(sorted@.to_multiset() =~= all);
    }
    *versions = sorted;
}

/// A catalog package from the package folder's parts: its versions sorted
/// newest first.
pub fn build_package(
    id: String,
    readme: Readme,
    versions: Vec<PackageVersion>,
    metadata: PackageMetadata,
) -> (r: Package)
    ensures
        r.id == id,
        r.readme == readme,
        r.name == metadata.name,
        r.short_description == metadata.short_description,
        r.tags == metadata.tags,
        r.authors == metadata.authors,
        r.versions@.to_multiset() == versions@.to_multiset(),
        sorted_newest_first(version_keys(r.versions@)),
{
    let mut versions = versions;
    sort_versions(&mut versions);
    Package::from_metadata(id, readme, versions, metadata)
}

/// The document of a package: its text fields, and for each version, in
/// the package's order, the version string and the encoded constraint record
/// at the same position.
pub fn package_document(package: Package) -> (d: CatalogDocument)
    ensures
        d.id == package.id,
        d.name == package.name,
        d.short_description == package.short_description,
        d.readme@ == readme_text(package.readme),
        d.tags == package.tags,
        d.authors == package.authors,
        d.versions@.len() == package.versions@.len(),
        d.version_data@.len() == package.versions@.len(),
        forall|i: int|
            0 <= i < package.versions@.len() ==> (#[trigger] d.versions@[i])@
                == package.versions@[i].version.spec_text(),
        forall|i: int|
            0 <= i < package.versions@.len() ==> decode_record((#[trigger] d.version_data@[i])@)
                == Some(version_record(package.versions@[i])),
{
    let readme = package.readme.text().to_owned();
    let mut versions: Vec<String> = Vec::new();
    let mut version_data: Vec<Vec<u8>> = Vec::new();
    let mut i: usize = 0;
    while i < package.versions.len()
        invariant
            i <= package.versions@.len(),
            versions@.len() == i,
            version_data@.len() == i,
            forall|k: int| 0 <= k < i ==> (#[trigger] versions@[k])@ == package.versions@[k].version.spec_text(),
            forall|k: int|
                0 <= k < i ==> decode_record((#[trigger] version_data@[k])@) == Some(
                    version_record(package.versions@[k]),
                ),
        decreases package.versions@.len() - i,
    {
        let v = &package.versions[i];
        versions.push(v.version.as_str().to_owned());
        let record = record_of(v);
        let bytes = encode(&record);
        proof {
            lemma_round_trip(record@);
        }
        version_data.push(bytes);
        i = i + 1;
    }
    CatalogDocument {
        id: package.id,
        name: package.name,
        short_description: package.short_description,
        readme,
        tags: package.tags,
        authors: package.authors,
        versions,
        version_data,
    }
}

} // verus!
