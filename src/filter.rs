//! The constraint filter that search applies to candidate documents.
//!
//! A search may declare a host (FicsIt-Networks) version, a game version and,
//! in dependency mode, the versions of the packages that the caller has. A
//! version of a package is eligible when its constraint record decodes and
//! every declared axis accepts it; a document matches when one of its versions
//! is eligible, and reports the eligible version of highest precedence.

use crate::codec::{decode, decode_record, DependencyView, RecordView, VersionData};
use crate::version::{check_requirement, key_less, requirement_accepts, text_key, SemVer};
use vstd::prelude::*;
use vstd::string::StrSliceExecFns;

verus! {

/// The search parameters of a request. `other` holds the remaining
/// parameters in the order they came; those named `mod_<id>` declare the
/// version of package `<id>` that the caller has.
pub struct SearchQuery {
    pub search: Option<String>,
    pub check_mods: Option<bool>,
    pub game_version: Option<String>,
    pub fin_version: Option<String>,
    pub other: Vec<(String, Option<String>)>,
}

/// The page of matching documents that a request asks for.
pub struct Pagination {
    pub page: Option<usize>,
    pub page_size: Option<usize>,
}

/// The versions that a search declares, read from its parameters.
pub struct QueryVersions {
    pub fin_version: Option<SemVer>,
    pub game_version: Option<SemVer>,
    pub check_mods: bool,
    pub mods: Vec<(String, Option<SemVer>)>,
}

/// A candidate document as the search engine hands it out: its id, its
/// version strings and its constraint records, aligned by position.
pub struct StoredDocument {
    pub id: String,
    pub versions: Vec<String>,
    pub version_data: Vec<Vec<u8>>,
}

/// One document of a page: its position among the candidates, and the
/// position of its best eligible version where a constraint was declared.
#[derive(Debug, PartialEq, Eq, Structural)]
pub struct PackageHit {
    pub doc: usize,
    pub version: Option<usize>,
}

/// The text of a declared version, if any.
pub open spec fn declared_text(v: Option<SemVer>) -> Option<Seq<char>> {
    match v {
        Some(s) => Some(s.spec_text()),
        None => None,
    }
}

/// A parameter text read as a version: kept where semver reads it, dropped otherwise.
pub open spec fn read_version(t: Option<Seq<char>>) -> Option<Seq<char>> {
    match t {
        Some(s) => if text_key(s) is Some {
            Some(s)
        } else {
            None
        },
        None => None,
    }
}

pub open spec fn opt_view(o: Option<String>) -> Option<Seq<char>> {
    match o {
        Some(s) => Some(s@),
        None => None,
    }
}

pub open spec fn mod_prefix() -> Seq<char> {
    seq!['m', 'o', 'd', '_']
}

/// The package versions that the parameters declare: each parameter named
/// `mod_<id>`, in order, as `<id>` and its value read as a version.
pub open spec fn declared_mods(other: Seq<(String, Option<String>)>) -> Seq<(Seq<char>, Option<Seq<char>>)>
    decreases other.len(),
{
    if other.len() == 0 {
        seq![]
    } else {
        let rest = declared_mods(other.drop_last());
        let (k, v) = other.last();
        if k@.len() >= 4 && k@.take(4) == mod_prefix() {
            rest.push((k@.skip(4), read_version(opt_view(v))))
        } else {
            rest
        }
    }
}

pub open spec fn mods_view(mods: Seq<(String, Option<SemVer>)>) -> Seq<(Seq<char>, Option<Seq<char>>)> {
    mods.map_values(|m: (String, Option<SemVer>)| (m.0@, declared_text(m.1)))
}

/// What a search declares: its two axes and, in dependency mode, the package versions.
pub open spec fn query_reads(s: SearchQuery, q: QueryVersions) -> bool {
    &&& declared_text(q.fin_version) == read_version(opt_view(s.fin_version))
    &&& declared_text(q.game_version) == read_version(opt_view(s.game_version))
    &&& q.check_mods == (s.check_mods == Some(true))
    &&& mods_view(q.mods@) == declared_mods(s.other@)
}

/// The first declaration for package `id`, if any.
pub open spec fn lookup(mods: Seq<(Seq<char>, Option<Seq<char>>)>, id: Seq<char>) -> Option<Option<Seq<char>>>
    decreases mods.len(),
{
    if mods.len() == 0 {
        None
    } else if mods[0].0 == id {
        Some(mods[0].1)
    } else {
        lookup(mods.drop_first(), id)
    }
}

/// One axis: accepted where nothing is declared, where the version states no
/// requirement, or where its requirement reads and accepts the declared version.
pub open spec fn axis_accepts(req: Option<Seq<char>>, declared: Option<Seq<char>>) -> bool {
    match declared {
        None => true,
        Some(v) => match req {
            None => true,
            Some(r) => requirement_accepts(r, v) == Some(true),
        },
    }
}

/// One dependency in dependency mode: the caller declares the package, and
/// where the dependency states a requirement, declares a version that it accepts.
pub open spec fn dependency_met(mods: Seq<(Seq<char>, Option<Seq<char>>)>, d: DependencyView) -> bool {
    match lookup(mods, d.id) {
        None => false,
        Some(declared) => match d.version {
            None => true,
            Some(r) => match declared {
                None => false,
                Some(v) => requirement_accepts(r, v) == Some(true),
            },
        },
    }
}

pub open spec fn dependencies_met(q: QueryVersions, ds: Seq<DependencyView>) -> bool {
    !q.check_mods || forall|k: int| 0 <= k < ds.len() ==> dependency_met(mods_view(q.mods@), #[trigger] ds[k])
}

/// A version, given its constraint record, is eligible for the search.
pub open spec fn eligible(q: QueryVersions, r: RecordView) -> bool {
    &&& axis_accepts(r.fin_version, declared_text(q.fin_version))
    &&& axis_accepts(r.game_version, declared_text(q.game_version))
    &&& dependencies_met(q, r.mod_dependencies)
}

/// A version, given its constraint bytes, is eligible: the bytes decode and
/// the record is eligible.
pub open spec fn bytes_eligible(q: QueryVersions, b: Seq<u8>) -> bool {
    match decode_record(b) {
        Some(r) => eligible(q, r),
        None => false,
    }
}

/// The search declares at least one constraint.
pub open spec fn constrains(q: QueryVersions) -> bool {
    q.fin_version is Some || q.game_version is Some || q.check_mods
}

/// A document takes part in the results: no constraint is declared, or one
/// of its versions is eligible.
pub open spec fn document_matches(q: QueryVersions, d: StoredDocument) -> bool {
    !constrains(q) || exists|i: int| 0 <= i < d.version_data@.len() && bytes_eligible(q, #[trigger] d.version_data@[i]@)
}

/// Version `i` of the document can be reported: its record is eligible and
/// its string reads as a version.
pub open spec fn candidate(q: QueryVersions, d: StoredDocument, i: int) -> bool {
    &&& 0 <= i < d.versions@.len()
    &&& i < d.version_data@.len()
    &&& bytes_eligible(q, d.version_data@[i]@)
    &&& text_key(d.versions@[i]@) is Some
}

pub open spec fn key_at(d: StoredDocument, i: int) -> Seq<u64> {
    text_key(d.versions@[i]@).unwrap()
}

/// Version `i` is the best match: a candidate that no candidate exceeds in
/// precedence, and the first such one.
pub open spec fn is_best(q: QueryVersions, d: StoredDocument, i: int) -> bool {
    &&& candidate(q, d, i)
    &&& forall|j: int| candidate(q, d, j) ==> !key_less(key_at(d, i), #[trigger] key_at(d, j))
    &&& forall|j: int| 0 <= j < i && candidate(q, d, j) ==> key_less(#[trigger] key_at(d, j), key_at(d, i))
}

/// A version that states no requirement on an axis is accepted on that axis,
/// whatever version the search declares there, or where it declares none.
pub proof fn lemma_no_requirement_accepts(declared: Option<Seq<char>>)
    ensures
        axis_accepts(None, declared),
{
}

/// In dependency mode, a version with a dependency on a package that the
/// search does not declare is not eligible.
pub proof fn lemma_undeclared_dependency_ineligible(q: QueryVersions, r: RecordView, k: int)
    requires
        q.check_mods,
        0 <= k < r.mod_dependencies.len(),
        lookup(mods_view(q.mods@), r.mod_dependencies[k].id) is None,
    ensures
        !eligible(q, r),
{
    assert(!dependency_met(mods_view(q.mods@), r.mod_dependencies[k]));
}

/// In dependency mode, a version with a dependency whose requirement rejects
/// the declared version of that package is not eligible.
pub proof fn lemma_unmet_dependency_ineligible(q: QueryVersions, r: RecordView, k: int, req: Seq<char>, declared: Seq<char>)
    requires
        q.check_mods,
        0 <= k < r.mod_dependencies.len(),
        r.mod_dependencies[k].version == Some(req),
        lookup(mods_view(q.mods@), r.mod_dependencies[k].id) == Some(Some(declared)),
        requirement_accepts(req, declared) == Some(false),
    ensures
        !eligible(q, r),
{
    assert(!dependency_met(mods_view(q.mods@), r.mod_dependencies[k]));
}

/// A constraint record that does not decode makes its version ineligible,
/// and leaves the document's match to its other records: one eligible record
/// makes the document match, whatever the others hold.
pub proof fn lemma_corrupt_record_ignored(q: QueryVersions, d: StoredDocument, bad: int, good: int)
    requires
        0 <= bad < d.version_data@.len(),
        decode_record(d.version_data@[bad]@) is None,
        0 <= good < d.version_data@.len(),
        bytes_eligible(q, d.version_data@[good]@),
    ensures
        !bytes_eligible(q, d.version_data@[bad]@),
        document_matches(q, d),
{
}

/// Reads the versions that a search declares. A version that does not read
/// counts as not declared.
pub fn parse_search_query(s: &SearchQuery) -> (q: QueryVersions)
    ensures
        query_reads(*s, q),
{
    let fin_version = read_declared(&s.fin_version);
    let game_version = read_declared(&s.game_version);
    let check_mods = match s.check_mods {
        Some(b) => b,
        None => false,
    };
    let mut mods: Vec<(String, Option<SemVer>)> = Vec::new();
    let mut i: usize = 0;
    while i < s.other.len()
        invariant
            i <= s.other@.len(),
            mods_view(mods@) == declared_mods(s.other@.take(i as int)),
        decreases s.other@.len() - i,
    {
        let (k, v) = &s.other[i];
        let ghost taken = s.other@.take(i + 1);
        proof {
            assert(taken.drop_last() =~= s.other@.take(i as int));
            assert(taken.last() == s.other@[i as int]);
        }
        match strip_mod_prefix(k) {
            Some(id) => {
                let declared = read_declared(v);
                let ghost before = mods@;
                mods.push((id, declared));
                assert(mods_view(mods@) =~= mods_view(before).push((k@.skip(4), read_version(opt_view(*v)))));
            },
            None => {},
        }
        i = i + 1;
    }
    assert(s.other@.take(s.other@.len() as int) =~= s.other@);
    QueryVersions { fin_version, game_version, check_mods, mods }
}

fn read_declared(t: &Option<String>) -> (r: Option<SemVer>)
    ensures
        declared_text(r) == read_version(opt_view(*t)),
{
    match t {
        None => None,
        Some(s) => SemVer::parse(s.as_str()),
    }
}

fn strip_mod_prefix(k: &String) -> (r: Option<String>)
    ensures
        match r {
            Some(id) => k@.len() >= 4 && k@.take(4) == mod_prefix() && id@ == k@.skip(4),
            None => !(k@.len() >= 4 && k@.take(4) == mod_prefix()),
        },
{
    let s = k.as_str();
    let n = s.unicode_len();
    if n < 4 {
        return None;
    }
    if s.get_char(0) == 'm' && s.get_char(1) == 'o' && s.get_char(2) == 'd' && s.get_char(3) == '_' {
        assert(k@.take(4) =~= mod_prefix());
        let id = s.substring_char(4, n);
        assert(k@.subrange(4, n as int) =~= k@.skip(4));
        Some(id.to_owned())
    } else {
        proof {
            if k@.take(4) == mod_prefix() {
                assert(k@.take(4)[0] == 'm');
                assert(k@.take(4)[1] == 'o');
                assert(k@.take(4)[2] == 'd');
                assert(k@.take(4)[3] == '_');
            }
        }
        None
    }
}

fn find_declared<'a>(mods: &'a Vec<(String, Option<SemVer>)>, id: &String) -> (r: Option<&'a Option<SemVer>>)
    ensures
        match r {
            None => lookup(mods_view(mods@), id@) is None,
            Some(v) => lookup(mods_view(mods@), id@) == Some(declared_text(*v)),
        },
{
    let mut i: usize = 0;
    assert(mods_view(mods@).skip(0) =~= mods_view(mods@));
    while i < mods.len()
        invariant
            i <= mods@.len(),
            lookup(mods_view(mods@), id@) == lookup(mods_view(mods@).skip(i as int), id@),
        decreases mods@.len() - i,
    {
        let ghost rest = mods_view(mods@).skip(i as int);
        assert(rest[0] == (mods@[i as int].0@, declared_text(mods@[i as int].1)));
        if mods[i].0 == *id {
            return Some(&mods[i].1);
        }
        assert(rest.drop_first() =~= mods_view(mods@).skip(i + 1));
        i = i + 1;
    }
    None
}

/// Tests one axis: the version's requirement against the declared version.
pub fn check_version(requirement: &Option<String>, version: &Option<SemVer>) -> (r: bool)
    ensures
        r == axis_accepts(opt_view(*requirement), declared_text(*version)),
{
    match version {
        None => true,
        Some(v) => match requirement {
            None => true,
            Some(req) => check_requirement(req.as_str(), v) == Some(true),
        },
    }
}

/// Decides whether a version with constraint record `data` is eligible for the search.
pub fn check_versions(q: &QueryVersions, data: &VersionData) -> (r: bool)
    ensures
        r == eligible(*q, data@),
{
    if !check_version(&data.fin_version, &q.fin_version) {
        return false;
    }
    if !check_version(&data.game_version, &q.game_version) {
        return false;
    }
    if q.check_mods {
        let ghost ds = data@.mod_dependencies;
        let mut k: usize = 0;
        while k < data.mod_dependencies.len()
            invariant
                q.check_mods,
                ds == data@.mod_dependencies,
                k <= data.mod_dependencies@.len(),
                forall|j: int| 0 <= j < k ==> dependency_met(mods_view(q.mods@), #[trigger] ds[j]),
            decreases data.mod_dependencies@.len() - k,
        {
            let m = &data.mod_dependencies[k];
            assert(ds[k as int] == m@);
            let met = match find_declared(&q.mods, &m.id) {
                None => false,
                Some(declared) => match &m.version {
                    None => true,
                    Some(req) => match declared {
                        None => false,
                        Some(v) => check_requirement(req.as_str(), v) == Some(true),
                    },
                },
            };
            if !met {
                return false;
            }
            k = k + 1;
        }
    }
    true
}

/// Decides whether the version with constraint bytes `bytes` is eligible; bytes
/// that do not decode make the version ineligible.
pub fn check_version_bytes(q: &QueryVersions, bytes: &Vec<u8>) -> (r: bool)
    ensures
        r == bytes_eligible(*q, bytes@),
{
    match decode(bytes.as_slice()) {
        Ok(data) => check_versions(q, &data),
        Err(_) => false,
    }
}

/// Whether the search declares any constraint.
pub fn has_constraints(q: &QueryVersions) -> (r: bool)
    ensures
        r == constrains(*q),
{
    q.fin_version.is_some() || q.game_version.is_some() || q.check_mods
}

/// Whether a document takes part in the results of the search.
pub fn matches_document(q: &QueryVersions, d: &StoredDocument) -> (r: bool)
    ensures
        r == document_matches(*q, *d),
{
    if !has_constraints(q) {
        return true;
    }
    let mut i: usize = 0;
    while i < d.version_data.len()
        invariant
            i <= d.version_data@.len(),
            forall|j: int| 0 <= j < i ==> !bytes_eligible(*q, #[trigger] d.version_data@[j]@),
        decreases d.version_data@.len() - i,
    {
        if check_version_bytes(q, &d.version_data[i]) {
            return true;
        }
        i = i + 1;
    }
    false
}

/// What a document reports as its version: the best match where the search
/// declares a constraint and a version is a candidate, nothing otherwise.
pub open spec fn reports(q: QueryVersions, d: StoredDocument, version: Option<usize>) -> bool {
    match version {
        Some(v) => constrains(q) && is_best(q, d, v as int),
        None => !constrains(q) || forall|j: int| !candidate(q, d, j),
    }
}

/// The best eligible version of a document: the candidate of highest
/// precedence, the first one among equals. `None` where the search declares
/// no constraint, or no version is a candidate.
pub fn best_version(q: &QueryVersions, d: &StoredDocument) -> (r: Option<usize>)
    ensures
        reports(*q, *d, r),
{
    if !has_constraints(q) {
        return None;
    }
    let n = if d.versions.len() < d.version_data.len() {
        d.versions.len()
    } else {
        d.version_data.len()
    };
    let mut best: Option<(usize, SemVer)> = None;
    let mut i: usize = 0;
    while i < n
        invariant
            n <= d.versions@.len(),
            n <= d.version_data@.len(),
            n == d.versions@.len() || n == d.version_data@.len(),
            i <= n,
            match best {
                None => forall|j: int| 0 <= j < i ==> !candidate(*q, *d, j),
                Some((b, v)) => {
                    &&& b < i
                    &&& candidate(*q, *d, b as int)
                    &&& v.spec_key() == key_at(*d, b as int)
                    &&& forall|j: int| 0 <= j < i && candidate(*q, *d, j) ==> !key_less(key_at(*d, b as int), #[trigger] key_at(*d, j))
                    &&& forall|j: int| 0 <= j < b && candidate(*q, *d, j) ==> key_less(#[trigger] key_at(*d, j), key_at(*d, b as int))
                },
            },
        decreases n - i,
    {
        if check_version_bytes(q, &d.version_data[i]) {
            match SemVer::parse(d.versions[i].as_str()) {
                None => {},
                Some(v) => {
                    let replace = match &best {
                        None => true,
                        Some((_, w)) => w.precedes(&v),
                    };
                    if replace {
                        proof {
                            if let Some((b, w)) = &best {
                                lemma_new_best(*q, *d, i as int, *b as int, w.spec_key());
                            } else {
                                crate::version::lemma_key_less_irreflexive(v.spec_key());
                            }
                        }
                        best = Some((i, v));
                    }
                },
            }
        }
        i = i + 1;
    }
    match best {
        None => {
            assert forall|j: int| !candidate(*q, *d, j) by {
                if 0 <= j && j >= n {
                    assert(!(j < d.versions@.len() && j < d.version_data@.len()));
                }
            }
            None
        },
        Some((b, _)) => {
            assert forall|j: int| candidate(*q, *d, j) implies !key_less(key_at(*d, b as int), #[trigger] key_at(*d, j)) by {
                assert(j < n);
            }
            Some(b)
        },
    }
}

/// A character of the Unicode `White_Space` property.
pub open spec fn is_blank(c: char) -> bool {
    let u = c as u32;
    (0x09 <= u <= 0x0d) || u == 0x20 || u == 0x85 || u == 0xa0 || u == 0x1680 || (0x2000 <= u
        <= 0x200a) || u == 0x2028 || u == 0x2029 || u == 0x202f || u == 0x205f || u == 0x3000
}

fn blank_char(c: char) -> (r: bool)
    ensures
        r == is_blank(c),
{
    let u = c as u32;
    (0x09 <= u && u <= 0x0d) || u == 0x20 || u == 0x85 || u == 0xa0 || u == 0x1680 || (0x2000 <= u
        && u <= 0x200a) || u == 0x2028 || u == 0x2029 || u == 0x202f || u == 0x205f || u == 0x3000
}

pub open spec fn has_non_blank(s: Seq<char>) -> bool {
    exists|k: int| 0 <= k < s.len() && !is_blank(#[trigger] s[k])
}

/// The query text that the search parses: the request's text, or `*`, which
/// matches every document, where the request has none or only blanks.
pub open spec fn query_text_of(search: Option<Seq<char>>) -> Seq<char> {
    match search {
        Some(s) => if has_non_blank(s) {
            s
        } else {
            "*"@
        },
        None => "*"@,
    }
}

/// The query text of a request: see `query_text_of`.
pub fn query_text(search: &Option<String>) -> (r: String)
    ensures
        r@ == query_text_of(opt_view(*search)),
{
    match search {
        None => "*".to_owned(),
        Some(s) => {
            let t = s.as_str();
            let n = t.unicode_len();
            let mut k: usize = 0;
            while k < n
                invariant
                    k <= n,
                    n == s@.len(),
                    t@ == s@,
                    opt_view(*search) == Some(s@),
                    forall|j: int| 0 <= j < k ==> is_blank(#[trigger] s@[j]),
                decreases n - k,
            {
                let c = t.get_char(k);
                if !blank_char(c) {
                    assert(!is_blank(s@[k as int]));
                    assert(has_non_blank(s@));
                    return s.clone();
                }
                k = k + 1;
            }
            "*".to_owned()
        },
    }
}

/// Where a page starts among the matching documents: `page * page_size`,
/// saturating; a page is ten documents unless the request says otherwise.
pub open spec fn page_bounds(p: Pagination) -> (int, int) {
    let size = match p.page_size {
        Some(s) => s as int,
        None => 10,
    };
    let page = match p.page {
        Some(x) => x as int,
        None => 0,
    };
    let offset = if page * size > usize::MAX { usize::MAX as int } else { page * size };
    (offset, size)
}

/// Positions of the matching documents among the first `n` candidates, in rank order.
pub open spec fn matching_positions(q: QueryVersions, docs: Seq<StoredDocument>, n: int) -> Seq<int>
    decreases n,
{
    if n <= 0 {
        seq![]
    } else if document_matches(q, docs[n - 1]) {
        matching_positions(q, docs, n - 1).push(n - 1)
    } else {
        matching_positions(q, docs, n - 1)
    }
}

/// The matching documents ranked `offset + 1` to `offset + size`.
pub open spec fn page_of(ms: Seq<int>, offset: int, size: int) -> Seq<int> {
    let lo = if offset < ms.len() { offset } else { ms.len() as int };
    let hi = if offset + size < ms.len() { offset + size } else { ms.len() as int };
    ms.subrange(lo, hi)
}

/// The page that a request gets: the matching candidates ranked
/// `offset + 1` to `offset + size`, each with its best eligible version.
pub open spec fn page_result(q: QueryVersions, docs: Seq<StoredDocument>, p: Pagination, hits: Seq<PackageHit>) -> bool {
    let (offset, size) = page_bounds(p);
    let page = page_of(matching_positions(q, docs, docs.len() as int), offset, size);
    &&& hits.len() == page.len()
    &&& forall|k: int| 0 <= k < hits.len() ==> #[trigger] hits[k].doc == page[k] && reports(q, docs[page[k]], hits[k].version)
}

proof fn lemma_matching_positions_bounds(q: QueryVersions, docs: Seq<StoredDocument>, n: int)
    requires
        0 <= n,
    ensures
        matching_positions(q, docs, n).len() <= n,
        forall|k: int| 0 <= k < matching_positions(q, docs, n).len() ==> 0 <= #[trigger] matching_positions(q, docs, n)[k] < n,
        forall|k: int, l: int| 0 <= k < l < matching_positions(q, docs, n).len() ==> #[trigger] matching_positions(q, docs, n)[k] < #[trigger] matching_positions(q, docs, n)[l],
    decreases n,
{
    if n > 0 {
        lemma_matching_positions_bounds(q, docs, n - 1);
    }
}

proof fn lemma_new_best(q: QueryVersions, d: StoredDocument, i: int, b: int, wk: Seq<u64>)
    requires
        candidate(q, d, i),
        0 <= b < i,
        candidate(q, d, b),
        wk == key_at(d, b),
        key_less(wk, key_at(d, i)),
        forall|j: int| 0 <= j < i && candidate(q, d, j) ==> !key_less(wk, #[trigger] key_at(d, j)),
    ensures
        forall|j: int| 0 <= j < i + 1 && candidate(q, d, j) ==> !key_less(key_at(d, i), #[trigger] key_at(d, j)),
        forall|j: int| 0 <= j < i && candidate(q, d, j) ==> key_less(#[trigger] key_at(d, j), key_at(d, i)),
{
    let vk = key_at(d, i);
    assert forall|j: int| 0 <= j < i + 1 && candidate(q, d, j) implies !key_less(vk, #[trigger] key_at(d, j)) by {
        if j < i {
            crate::version::lemma_key_less_total(wk, key_at(d, j));
            crate::version::lemma_key_less_asymmetric(wk, vk);
            if key_less(vk, key_at(d, j)) && key_at(d, j) != wk {
                crate::version::lemma_key_less_transitive(vk, key_at(d, j), wk);
            }
        } else {
            crate::version::lemma_key_less_irreflexive(vk);
        }
    }
    assert forall|j: int| 0 <= j < i && candidate(q, d, j) implies key_less(#[trigger] key_at(d, j), vk) by {
        crate::version::lemma_key_less_total(wk, key_at(d, j));
        if key_less(key_at(d, j), wk) {
            crate::version::lemma_key_less_transitive(key_at(d, j), wk, vk);
        }
    }
}

/// Selects the page that a request asks for among the ranked candidates:
/// documents that do not match are left out before the page is counted.
pub fn select_page(q: &QueryVersions, docs: &Vec<StoredDocument>, p: &Pagination) -> (hits: Vec<PackageHit>)
    ensures
        page_result(*q, docs@, *p, hits@),
{
    let size: usize = match p.page_size {
        Some(s) => s,
        None => 10,
    };
    let page: usize = match p.page {
        Some(x) => x,
        None => 0,
    };
    let offset: usize = match page.checked_mul(size) {
        Some(o) => o,
        None => usize::MAX,
    };
    let ghost bounds = page_bounds(*p);
    assert(bounds == (offset as int, size as int)) by (nonlinear_arith)
        requires
            offset == (if page * size > usize::MAX { usize::MAX as int } else { page * size }),
            bounds == page_bounds(*p),
            size == (match p.page_size { Some(s) => s as int, None => 10 }),
            page == (match p.page { Some(x) => x as int, None => 0 }),
    {}
    let mut hits: Vec<PackageHit> = Vec::new();
    let mut seen: usize = 0;
    let mut i: usize = 0;
    while i < docs.len()
        invariant
            i <= docs@.len(),
            seen == matching_positions(*q, docs@, i as int).len(),
            hits@.len() == page_of(matching_positions(*q, docs@, i as int), offset as int, size as int).len(),
            forall|k: int| 0 <= k < hits@.len() ==> #[trigger] hits@[k].doc == page_of(matching_positions(*q, docs@, i as int), offset as int, size as int)[k]
                && reports(*q, docs@[hits@[k].doc as int], hits@[k].version),
        decreases docs@.len() - i,
    {
        proof {
            lemma_matching_positions_bounds(*q, docs@, i as int);
        }
        let ghost before = matching_positions(*q, docs@, i as int);
        if matches_document(q, &docs[i]) {
            assert(matching_positions(*q, docs@, i + 1) == before.push(i as int));
            if seen >= offset && seen - offset < size {
                let version = best_version(q, &docs[i]);
                assert(docs[i as int] == docs@[i as int]);
                let ghost old_hits = hits@;
                hits.push(PackageHit { doc: i, version });
                assert(hits@[old_hits.len() as int] == PackageHit { doc: i, version });
                assert(forall|k: int| 0 <= k < old_hits.len() ==> hits@[k] == old_hits[k]);
                assert(page_of(before.push(i as int), offset as int, size as int) =~= page_of(before, offset as int, size as int).push(i as int));
            } else {
                assert(page_of(before.push(i as int), offset as int, size as int) =~= page_of(before, offset as int, size as int));
            }
            seen = seen + 1;
        } else {
            assert(matching_positions(*q, docs@, i + 1) == before);
        }
        i = i + 1;
    }
    proof {
        let page = page_of(matching_positions(*q, docs@, docs@.len() as int), offset as int, size as int);
        assert(page_bounds(*p).0 == offset && page_bounds(*p).1 == size);
        assert forall|k: int| 0 <= k < hits@.len() implies #[trigger] hits@[k].doc == page[k] && reports(*q, docs@[page[k]], hits@[k].version) by {
            assert(hits@[k].doc == page[k]);
        }
        assert(hits@.len() == page.len());
        assert(page_result(*q, docs@, *p, hits@));
    }
    hits
}

/// Two different pages of the same search share no document.
pub proof fn lemma_pages_disjoint(q: QueryVersions, docs: Seq<StoredDocument>, size: int, first_page: int, later_page: int, at_first: int, at_later: int)
    requires
        0 < size,
        0 <= first_page < later_page,
        0 <= at_first < page_of(matching_positions(q, docs, docs.len() as int), first_page * size, size).len(),
        0 <= at_later < page_of(matching_positions(q, docs, docs.len() as int), later_page * size, size).len(),
    ensures
        page_of(matching_positions(q, docs, docs.len() as int), first_page * size, size)[at_first]
            != page_of(matching_positions(q, docs, docs.len() as int), later_page * size, size)[at_later],
{
    let ms = matching_positions(q, docs, docs.len() as int);
    lemma_matching_positions_bounds(q, docs, docs.len() as int);
    assert(first_page * size + size <= later_page * size) by (nonlinear_arith)
        requires
            0 < size,
            first_page < later_page,
    {}
    assert(0 <= first_page * size) by (nonlinear_arith)
        requires
            0 < size,
            0 <= first_page,
    {}
    let rank_first = first_page * size + at_first;
    let rank_later = later_page * size + at_later;
    assert(page_of(ms, first_page * size, size)[at_first] == ms[rank_first]);
    assert(page_of(ms, later_page * size, size)[at_later] == ms[rank_later]);
    assert(rank_first < rank_later);
}

} // verus!
