//! Decisions of the web front: which version a package page shows, and
//! whether a request asks for JSON alone.

use crate::model::Package;
use crate::version::{text_key, SemVer};
use vstd::prelude::*;
use vstd::string::StringExecFns;

verus! {

/// The query of a package page: the version to show, if any.
pub struct PackageQuery {
    pub version: Option<String>,
}

/// Whether a request accepts JSON alone.
#[derive(Debug, PartialEq, Eq, Structural, Clone, Copy)]
pub struct AcceptJsonOnly(pub bool);

/// Position of the first version of `vs` whose text is `t`, if any.
pub open spec fn first_with_text(vs: Seq<crate::model::PackageVersion>, t: Seq<char>) -> Option<int>
    decreases vs.len(),
{
    if vs.len() == 0 {
        None
    } else if vs[0].version.spec_text() == t {
        Some(0)
    } else {
        match first_with_text(vs.drop_first(), t) {
            Some(i) => Some(i + 1),
            None => None,
        }
    }
}

/// The version that a package page shows: the one that the query names,
/// where it reads as a version and the package has it; else the newest,
/// the first one; none for a package without versions.
pub open spec fn shown_version(p: Package, q: PackageQuery) -> Option<int> {
    let named = match q.version {
        Some(t) => if text_key(t@) is Some {
            first_with_text(p.versions@, t@)
        } else {
            None
        },
        None => None,
    };
    match named {
        Some(i) => Some(i),
        None => if p.versions@.len() > 0 {
            Some(0)
        } else {
            None
        },
    }
}

fn find_version_text(vs: &Vec<crate::model::PackageVersion>, t: &String) -> (r: Option<usize>)
    ensures
        match r {
            Some(i) => first_with_text(vs@, t@) == Some(i as int),
            None => first_with_text(vs@, t@) is None,
        },
{
    let mut i: usize = 0;
    assert(vs@.skip(0) =~= vs@);
    while i < vs.len()
        invariant
            i <= vs@.len(),
            first_with_text(vs@, t@) == match first_with_text(vs@.skip(i as int), t@) {
                Some(k) => Some(k + i),
                None => None::<int>,
            },
        decreases vs@.len() - i,
    {
        if vs[i].version.as_str().to_owned() == t.clone() {
            return Some(i);
        }
        assert(vs@.skip(i as int).drop_first() =~= vs@.skip(i + 1));
        i = i + 1;
    }
    None
}

/// Picks the version that a package page shows; see `shown_version`.
pub fn select_version(p: &Package, q: &PackageQuery) -> (r: Option<usize>)
    ensures
        match r {
            Some(i) => shown_version(*p, *q) == Some(i as int),
            None => shown_version(*p, *q) is None,
        },
{
    let named: Option<usize> = match &q.version {
        None => None,
        Some(t) => match SemVer::parse(t.as_str()) {
            None => None,
            Some(_) => find_version_text(&p.versions, t),
        },
    };
    match named {
        Some(i) => Some(i),
        None => if p.versions.len() > 0 {
            Some(0)
        } else {
            None
        },
    }
}

impl AcceptJsonOnly {
    /// Reads the `Accept` header of a request: JSON alone where it is exactly
    /// `application/json`.
    pub fn from_accept_header(accept: &Option<String>) -> (r: AcceptJsonOnly)
        ensures
            r.0 == (accept matches Some(a) && a@ == "application/json"@),
    {
        match accept {
            Some(a) => AcceptJsonOnly(*a == String::from_str("application/json")),
            None => AcceptJsonOnly(false),
        }
    }
}

} // verus!
