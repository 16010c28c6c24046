//! Version numbers and version requirements.
//!
//! Reading a version or a requirement, and deciding whether a requirement
//! accepts a version, is left to the `semver` crate. Precedence between two
//! versions is stated here as the lexicographic order of a key of integers,
//! which orders major, minor and patch numerically, a release above its
//! pre-releases, and pre-release identifiers one by one.

use vstd::prelude::*;

verus! {

#[verifier::external_type_specification]
#[verifier::external_body]
pub struct ExSemverVersion(semver::Version);

#[verifier::external_type_specification]
#[verifier::external_body]
pub struct ExSemverVersionReq(semver::VersionReq);

/// The major, minor and patch numbers and the pre-release text that
/// `semver::Version::parse` reads from a text; `None` where it refuses it.
pub uninterp spec fn semver_parts(text: Seq<char>) -> Option<(u64, u64, u64, Seq<char>)>;

/// Whether `semver::VersionReq::parse` accepts a text.
pub uninterp spec fn semver_req_valid(text: Seq<char>) -> bool;

/// Whether the requirement parsed from `req` accepts the version parsed from `version`.
pub uninterp spec fn semver_req_matches(req: Seq<char>, version: Seq<char>) -> bool;

/// Relies on `semver::Version::parse`, and reads the public fields `major`,
/// `minor`, `patch` and `pre` of the version it returns.
#[verifier::external_body]
fn parse_semver(text: &str) -> (r: Option<(u64, u64, u64, Vec<char>, semver::Version)>)
    ensures
        r is None <==> semver_parts(text@) is None,
        r matches Some(p) ==> semver_parts(text@) == Some((p.0, p.1, p.2, p.3@)),
{
    match semver::Version::parse(text) {
        Ok(v) => Some((v.major, v.minor, v.patch, v.pre.as_str().chars().collect(), v)),
        Err(_) => None,
    }
}

/// Relies on `semver::VersionReq::parse`: it succeeds exactly on valid requirements.
#[verifier::external_body]
fn parse_semver_req(text: &str) -> (r: Option<semver::VersionReq>)
    ensures
        r is Some <==> semver_req_valid(text@),
{
    semver::VersionReq::parse(text).ok()
}

/// Relies on `semver::VersionReq::matches`. The requirement held by `req` was
/// parsed from `req.text`, and the version held by `version` from `version.text`.
#[verifier::external_body]
fn semver_matches(req: &Requirement, version: &SemVer) -> (r: bool)
    ensures
        r == semver_req_matches(req.spec_text(), version.spec_text()),
{
    req.req.matches(&version.inner)
}

pub open spec fn is_digit(c: char) -> bool {
    48 <= (c as u32) <= 57
}

pub open spec fn all_digits(id: Seq<char>) -> bool {
    forall|k: int| 0 <= k < id.len() ==> is_digit(#[trigger] id[k])
}

pub open spec fn char_code(c: char) -> u64 {
    (c as u32) as u64
}

/// Key of one pre-release identifier. A numeric identifier becomes
/// `[0, length, digits..]`: numeric identifiers order by length, then digit by
/// digit, and below every other identifier. Any other identifier becomes
/// `[1, c + 1.., 0]`: it orders character by character, and before any longer
/// identifier that it begins.
pub open spec fn identifier_key(id: Seq<char>) -> Seq<u64> {
    if id.len() > 0 && all_digits(id) {
        seq![0u64, id.len() as u64] + id.map_values(|c: char| char_code(c))
    } else {
        seq![1u64] + id.map_values(|c: char| (char_code(c) + 1) as u64) + seq![0u64]
    }
}

/// Position of the first `.` in `s`, or its length where there is none.
pub open spec fn dot_index(s: Seq<char>) -> nat
    decreases s.len(),
{
    if s.len() == 0 {
        0
    } else if s[0] == '.' {
        0
    } else {
        1 + dot_index(s.drop_first())
    }
}

/// Keys of the dot-separated identifiers of a pre-release, one after the other.
pub open spec fn prerelease_key(s: Seq<char>) -> Seq<u64>
    decreases s.len(),
{
    let i = dot_index(s);
    if i < s.len() {
        identifier_key(s.take(i as int)) + prerelease_key(s.skip((i + 1) as int))
    } else {
        identifier_key(s)
    }
}

/// Precedence key of a version: major, minor, patch, then `1` for a release or
/// `0` and the pre-release key, so that a pre-release comes below its release.
pub open spec fn version_key(major: u64, minor: u64, patch: u64, pre: Seq<char>) -> Seq<u64> {
    seq![major, minor, patch] + if pre.len() == 0 {
        seq![1u64]
    } else {
        seq![0u64] + prerelease_key(pre)
    }
}

/// The precedence key of a version text, where semver reads it as a version.
pub open spec fn text_key(text: Seq<char>) -> Option<Seq<u64>> {
    match semver_parts(text) {
        Some(p) => Some(version_key(p.0, p.1, p.2, p.3)),
        None => None,
    }
}

/// Strict lexicographic order on keys: a proper prefix comes first.
pub open spec fn key_less(a: Seq<u64>, b: Seq<u64>) -> bool
    decreases a.len(),
{
    if a.len() == 0 {
        b.len() > 0
    } else if b.len() == 0 {
        false
    } else if a[0] != b[0] {
        a[0] < b[0]
    } else {
        key_less(a.drop_first(), b.drop_first())
    }
}

pub proof fn lemma_key_less_irreflexive(a: Seq<u64>)
    ensures
        !key_less(a, a),
    decreases a.len(),
{
    if a.len() > 0 {
        lemma_key_less_irreflexive(a.drop_first());
    }
}

pub proof fn lemma_key_less_asymmetric(a: Seq<u64>, b: Seq<u64>)
    ensures
        key_less(a, b) ==> !key_less(b, a),
    decreases a.len(),
{
    if a.len() > 0 && b.len() > 0 && a[0] == b[0] {
        lemma_key_less_asymmetric(a.drop_first(), b.drop_first());
    }
}

pub proof fn lemma_key_less_transitive(a: Seq<u64>, b: Seq<u64>, c: Seq<u64>)
    requires
        key_less(a, b),
        key_less(b, c),
    ensures
        key_less(a, c),
    decreases a.len(),
{
    if a.len() > 0 && b.len() > 0 && c.len() > 0 && a[0] == b[0] && b[0] == c[0] {
        lemma_key_less_transitive(a.drop_first(), b.drop_first(), c.drop_first());
    }
}

pub proof fn lemma_key_less_total(a: Seq<u64>, b: Seq<u64>)
    ensures
        a == b || key_less(a, b) || key_less(b, a),
    decreases a.len(),
{
    if a.len() > 0 && b.len() > 0 && a[0] == b[0] {
        lemma_key_less_total(a.drop_first(), b.drop_first());
        if a.drop_first() == b.drop_first() {
            assert(a =~= seq![a[0]] + a.drop_first());
            assert(b =~= seq![b[0]] + b.drop_first());
        }
    } else if a.len() == 0 && b.len() == 0 {
        assert(a =~= b);
    }
}

fn key_less_exec(a: &Vec<u64>, b: &Vec<u64>) -> (r: bool)
    ensures
        r == key_less(a@, b@),
{
    let mut i: usize = 0;
    assert(a@.skip(0) =~= a@);
    assert(b@.skip(0) =~= b@);
    while i < a.len() && i < b.len()
        invariant
            i <= a.len(),
            i <= b.len(),
            key_less(a@, b@) == key_less(a@.skip(i as int), b@.skip(i as int)),
        decreases a.len() - i,
    {
        if a[i] != b[i] {
            return a[i] < b[i];
        }
        assert(a@.skip(i as int).drop_first() =~= a@.skip(i as int + 1));
        assert(b@.skip(i as int).drop_first() =~= b@.skip(i as int + 1));
        i = i + 1;
    }
    i < b.len()
}

proof fn lemma_dot_index(t: Seq<char>, n: int)
    requires
        0 <= n <= t.len(),
        forall|k: int| 0 <= k < n ==> t[k] != '.',
        n == t.len() || t[n] == '.',
    ensures
        dot_index(t) == n,
    decreases n,
{
    if n > 0 {
        lemma_dot_index(t.drop_first(), n - 1);
    }
}

fn identifier_key_exec(s: &Vec<char>, start: usize, end: usize) -> (r: Vec<u64>)
    requires
        start <= end <= s.len(),
    ensures
        r@ == identifier_key(s@.subrange(start as int, end as int)),
{
    let ghost id = s@.subrange(start as int, end as int);
    let mut numeric = start < end;
    let mut k: usize = start;
    while k < end
        invariant
            start <= k <= end,
            end <= s.len(),
            id == s@.subrange(start as int, end as int),
            numeric == (start < end && forall|j: int| start <= j < k ==> is_digit(s@[j])),
        decreases end - k,
    {
        let c = s[k] as u32;
        if c < 48 || c > 57 {
            numeric = false;
        }
        k = k + 1;
    }
    assert(numeric == (id.len() > 0 && all_digits(id))) by {
        if start < end && !numeric {
            let j = choose|j: int| start <= j < end && !is_digit(s@[j]);
            assert(!is_digit(id[j - start]));
        }
    }
    let mut r: Vec<u64> = Vec::new();
    if numeric {
        r.push(0);
        r.push((end - start) as u64);
        let mut k: usize = start;
        while k < end
            invariant
                start <= k <= end,
                end <= s.len(),
                r@ == seq![0u64, (end - start) as u64] + s@.subrange(start as int, k as int).map_values(
                    |c: char| char_code(c),
                ),
            decreases end - k,
        {
            r.push(s[k] as u32 as u64);
            assert(s@.subrange(start as int, k + 1).map_values(|c: char| char_code(c))
                =~= s@.subrange(start as int, k as int).map_values(|c: char| char_code(c)).push(
                char_code(s@[k as int]),
            ));
            k = k + 1;
        }
    } else {
        r.push(1);
        let mut k: usize = start;
        while k < end
            invariant
                start <= k <= end,
                end <= s.len(),
                r@ == seq![1u64] + s@.subrange(start as int, k as int).map_values(
                    |c: char| (char_code(c) + 1) as u64,
                ),
            decreases end - k,
        {
            r.push(s[k] as u32 as u64 + 1);
            assert(s@.subrange(start as int, k + 1).map_values(|c: char| (char_code(c) + 1) as u64)
                =~= s@.subrange(start as int, k as int).map_values(
                |c: char| (char_code(c) + 1) as u64,
            ).push((char_code(s@[k as int]) + 1) as u64));
            k = k + 1;
        }
        r.push(0);
    }
    r
}

fn prerelease_key_exec(s: &Vec<char>) -> (r: Vec<u64>)
    ensures
        r@ == prerelease_key(s@),
{
    let mut r: Vec<u64> = Vec::new();
    let mut start: usize = 0;
    let mut done = false;
    assert(s@.skip(0) =~= s@);
    assert(r@ + prerelease_key(s@) =~= prerelease_key(s@));
    while !done
        invariant
            start <= s.len(),
            !done ==> prerelease_key(s@) == r@ + prerelease_key(s@.skip(start as int)),
            done ==> r@ == prerelease_key(s@),
        decreases s.len() - start + (if done { 0int } else { 1int }),
    {
        let mut j: usize = start;
        while j < s.len() && s[j] != '.'
            invariant
                start <= j <= s.len(),
                forall|k: int| start <= k < j ==> s@[k] != '.',
            decreases s.len() - j,
        {
            j = j + 1;
        }
        let ghost rest = s@.skip(start as int);
        proof {
            lemma_dot_index(rest, j - start);
            assert(rest.take(j - start) =~= s@.subrange(start as int, j as int));
        }
        let mut key = identifier_key_exec(s, start, j);
        if j < s.len() {
            assert(rest.skip(j - start + 1) =~= s@.skip(j + 1));
            r.append(&mut key);
            start = j + 1;
        } else {
            assert(rest =~= s@.subrange(start as int, j as int));
            r.append(&mut key);
            done = true;
        }
    }
    r
}

/// A version number read by semver, with its text and its precedence key.
pub struct SemVer {
    text: String,
    key: Vec<u64>,
    inner: semver::Version,
}

impl SemVer {
    /// The text that the version was read from.
    pub closed spec fn spec_text(&self) -> Seq<char> {
        self.text@
    }

    /// The precedence key: versions compare as their keys under `key_less`.
    pub closed spec fn spec_key(&self) -> Seq<u64> {
        self.key@
    }

    /// Reads a version number such as `1.2.3-rc.1+build`.
    pub fn parse(text: &str) -> (r: Option<SemVer>)
        ensures
            r is None <==> text_key(text@) is None,
            r matches Some(v) ==> v.spec_text() == text@ && text_key(text@) == Some(v.spec_key()),
    {
        match parse_semver(text) {
            None => None,
            Some((major, minor, patch, pre, inner)) => {
                let mut key: Vec<u64> = Vec::new();
                key.push(major);
                key.push(minor);
                key.push(patch);
                if pre.len() == 0 {
                    key.push(1);
                } else {
                    key.push(0);
                    let mut rest = prerelease_key_exec(&pre);
                    key.append(&mut rest);
                }
                assert(key@ =~= version_key(major, minor, patch, pre@));
                Some(SemVer { text: text.to_owned(), key, inner })
            },
        }
    }

    /// The text that the version was read from.
    pub fn as_str(&self) -> (r: &str)
        ensures
            r@ == self.spec_text(),
    {
        self.text.as_str()
    }

    /// Whether `self` has lower precedence than `other`.
    pub fn precedes(&self, other: &SemVer) -> (r: bool)
        ensures
            r == key_less(self.spec_key(), other.spec_key()),
    {
        key_less_exec(&self.key, &other.key)
    }
}

/// A version requirement such as `>=1.0.0, <2.0.0`, read by semver.
pub struct Requirement {
    text: String,
    req: semver::VersionReq,
}

impl Requirement {
    /// The text that the requirement was read from.
    pub closed spec fn spec_text(&self) -> Seq<char> {
        self.text@
    }

    pub fn parse(text: &str) -> (r: Option<Requirement>)
        ensures
            r is Some <==> semver_req_valid(text@),
            r matches Some(q) ==> q.spec_text() == text@,
    {
        match parse_semver_req(text) {
            None => None,
            Some(req) => Some(Requirement { text: text.to_owned(), req }),
        }
    }

    /// The text that the requirement was read from.
    pub fn as_str(&self) -> (r: &str)
        ensures
            r@ == self.spec_text(),
    {
        self.text.as_str()
    }

    pub fn matches(&self, version: &SemVer) -> (r: bool)
        ensures
            r == semver_req_matches(self.spec_text(), version.spec_text()),
    {
        semver_matches(self, version)
    }
}

/// Whether the requirement written in `req` accepts `version`; `None` where
/// `req` is not a requirement.
pub open spec fn requirement_accepts(req: Seq<char>, version: Seq<char>) -> Option<bool> {
    if semver_req_valid(req) {
        Some(semver_req_matches(req, version))
    } else {
        None
    }
}

/// Reads `req` as a requirement and tests `version` against it.
pub fn check_requirement(req: &str, version: &SemVer) -> (r: Option<bool>)
    ensures
        r == requirement_accepts(req@, version.spec_text()),
{
    match Requirement::parse(req) {
        None => None,
        Some(q) => Some(q.matches(version)),
    }
}

} // verus!
