//! Binary constraint records.
//!
//! A record holds the host (FicsIt-Networks) requirement, the game
//! requirement and the dependency requirements of one package version. The
//! encoding is self-describing: a text is its UTF-8 length as eight
//! little-endian bytes followed by its UTF-8 bytes; an optional text is a tag
//! byte, `0` for none or `1` followed by the text; the dependency list is its
//! count as eight little-endian bytes followed by each dependency, its id and
//! then its optional requirement. Decoding accepts exactly the encodings of
//! records, and never reads past the input.

use vstd::bytes::*;
use vstd::prelude::*;
use vstd::utf8::*;

verus! {

broadcast use encode_utf8_decode_utf8, encode_utf8_valid_utf8;

/// A dependency of a version on another package, with an optional
/// requirement on that package's version.
pub struct ModDependency {
    pub id: String,
    pub version: Option<String>,
}

/// The constraint record of one package version.
pub struct VersionData {
    pub fin_version: Option<String>,
    pub game_version: Option<String>,
    pub mod_dependencies: Vec<ModDependency>,
}

pub struct DependencyView {
    pub id: Seq<char>,
    pub version: Option<Seq<char>>,
}

pub struct RecordView {
    pub fin_version: Option<Seq<char>>,
    pub game_version: Option<Seq<char>>,
    pub mod_dependencies: Seq<DependencyView>,
}

/// The decoding failed: the bytes are not the encoding of any record.
#[derive(Debug, PartialEq, Eq, Structural)]
pub struct DecodeError;

pub open spec fn opt_text(o: Option<String>) -> Option<Seq<char>> {
    match o {
        Some(s) => Some(s@),
        None => None,
    }
}

pub open spec fn dependencies_view(ds: Seq<ModDependency>) -> Seq<DependencyView> {
    ds.map_values(|d: ModDependency| d@)
}

impl View for ModDependency {
    type V = DependencyView;

    open spec fn view(&self) -> DependencyView {
        DependencyView { id: self.id@, version: opt_text(self.version) }
    }
}

impl View for VersionData {
    type V = RecordView;

    open spec fn view(&self) -> RecordView {
        RecordView {
            fin_version: opt_text(self.fin_version),
            game_version: opt_text(self.game_version),
            mod_dependencies: dependencies_view(self.mod_dependencies@),
        }
    }
}

/// A text whose UTF-8 length can be written in eight bytes.
pub open spec fn text_fits(s: Seq<char>) -> bool {
    encode_utf8(s).len() <= u64::MAX
}

pub open spec fn opt_fits(o: Option<Seq<char>>) -> bool {
    match o {
        Some(s) => text_fits(s),
        None => true,
    }
}

pub open spec fn dependency_fits(d: DependencyView) -> bool {
    text_fits(d.id) && opt_fits(d.version)
}

pub open spec fn dependencies_fit(ds: Seq<DependencyView>) -> bool {
    forall|i: int| 0 <= i < ds.len() ==> dependency_fits(#[trigger] ds[i])
}

/// Every length in the record can be written in eight bytes.
pub open spec fn record_fits(r: RecordView) -> bool {
    &&& opt_fits(r.fin_version)
    &&& opt_fits(r.game_version)
    &&& r.mod_dependencies.len() <= u64::MAX
    &&& dependencies_fit(r.mod_dependencies)
}

pub open spec fn encode_text(s: Seq<char>) -> Seq<u8> {
    spec_u64_to_le_bytes(encode_utf8(s).len() as u64) + encode_utf8(s)
}

pub open spec fn encode_opt(o: Option<Seq<char>>) -> Seq<u8> {
    match o {
        None => seq![0u8],
        Some(s) => seq![1u8] + encode_text(s),
    }
}

pub open spec fn encode_dependency(d: DependencyView) -> Seq<u8> {
    encode_text(d.id) + encode_opt(d.version)
}

pub open spec fn encode_dependencies(ds: Seq<DependencyView>) -> Seq<u8>
    decreases ds.len(),
{
    if ds.len() == 0 {
        seq![]
    } else {
        encode_dependency(ds[0]) + encode_dependencies(ds.drop_first())
    }
}

/// The bytes of a record.
pub open spec fn encode_record(r: RecordView) -> Seq<u8> {
    encode_opt(r.fin_version) + encode_opt(r.game_version) + spec_u64_to_le_bytes(
        r.mod_dependencies.len() as u64,
    ) + encode_dependencies(r.mod_dependencies)
}

/// The record that `b` encodes, if any.
pub open spec fn decode_record(b: Seq<u8>) -> Option<RecordView> {
    if exists|r: RecordView| record_fits(r) && encode_record(r) == b {
        Some(choose|r: RecordView| record_fits(r) && encode_record(r) == b)
    } else {
        None
    }
}

/// `x` stands in `b` from position `pos` on.
pub open spec fn starts_at(b: Seq<u8>, pos: int, x: Seq<u8>) -> bool {
    0 <= pos && pos + x.len() <= b.len() && b.subrange(pos, pos + x.len()) == x
}

proof fn lemma_le_bytes_unique(x: u64, y: u64)
    requires
        spec_u64_to_le_bytes(x) == spec_u64_to_le_bytes(y),
    ensures
        x == y,
{
    lemma_auto_spec_u64_to_from_le_bytes();
}

proof fn lemma_starts_at_split(b: Seq<u8>, pos: int, x: Seq<u8>, y: Seq<u8>)
    requires
        starts_at(b, pos, x + y),
    ensures
        starts_at(b, pos, x),
        starts_at(b, pos + x.len(), y),
{
    let w = b.subrange(pos, pos + x.len() + y.len());
    assert(w == x + y);
    assert(b.subrange(pos, pos + x.len()) =~= w.subrange(0, x.len() as int));
    assert((x + y).subrange(0, x.len() as int) =~= x);
    assert(b.subrange(pos + x.len(), pos + x.len() + y.len()) =~= w.subrange(
        x.len() as int,
        w.len() as int,
    ));
    assert((x + y).subrange(x.len() as int, (x + y).len() as int) =~= y);
}

proof fn lemma_starts_at_join(b: Seq<u8>, pos: int, x: Seq<u8>, y: Seq<u8>)
    requires
        starts_at(b, pos, x),
        starts_at(b, pos + x.len(), y),
    ensures
        starts_at(b, pos, x + y),
{
    assert(b.subrange(pos, pos + x.len() + y.len()) =~= b.subrange(pos, pos + x.len())
        + b.subrange(pos + x.len(), pos + x.len() + y.len()));
}

proof fn lemma_text_unique(b: Seq<u8>, pos: int, s: Seq<char>, t: Seq<char>)
    requires
        text_fits(s),
        text_fits(t),
        starts_at(b, pos, encode_text(s)),
        starts_at(b, pos, encode_text(t)),
    ensures
        s == t,
{
    lemma_auto_spec_u64_to_from_le_bytes();
    let us = encode_utf8(s);
    let ut = encode_utf8(t);
    let ls = us.len() as u64;
    let lt = ut.len() as u64;
    assert(spec_u64_to_le_bytes(ls).len() == 8);
    assert(spec_u64_to_le_bytes(lt).len() == 8);
    lemma_starts_at_split(b, pos, spec_u64_to_le_bytes(ls), us);
    lemma_starts_at_split(b, pos, spec_u64_to_le_bytes(lt), ut);
    lemma_le_bytes_unique(ls, lt);
    assert(us.len() == ut.len());
    assert(us == b.subrange(pos + 8, pos + 8 + us.len()));
    assert(us == ut);
    assert(decode_utf8(us) == s);
    assert(decode_utf8(ut) == t);
}

proof fn lemma_opt_unique(b: Seq<u8>, pos: int, s: Option<Seq<char>>, t: Option<Seq<char>>)
    requires
        opt_fits(s),
        opt_fits(t),
        starts_at(b, pos, encode_opt(s)),
        starts_at(b, pos, encode_opt(t)),
    ensures
        s == t,
{
    assert(b[pos] == encode_opt(s)[0]);
    assert(b[pos] == encode_opt(t)[0]);
    if let Some(x) = s {
        if let Some(y) = t {
            lemma_starts_at_split(b, pos, seq![1u8], encode_text(x));
            lemma_starts_at_split(b, pos, seq![1u8], encode_text(y));
            lemma_text_unique(b, pos + 1, x, y);
        }
    }
}

proof fn lemma_dependency_unique(b: Seq<u8>, pos: int, d: DependencyView, e: DependencyView)
    requires
        dependency_fits(d),
        dependency_fits(e),
        starts_at(b, pos, encode_dependency(d)),
        starts_at(b, pos, encode_dependency(e)),
    ensures
        d == e,
{
    lemma_starts_at_split(b, pos, encode_text(d.id), encode_opt(d.version));
    lemma_starts_at_split(b, pos, encode_text(e.id), encode_opt(e.version));
    lemma_text_unique(b, pos, d.id, e.id);
    lemma_opt_unique(b, pos + encode_text(d.id).len(), d.version, e.version);
}

proof fn lemma_dependencies_unique(
    b: Seq<u8>,
    pos: int,
    ds: Seq<DependencyView>,
    es: Seq<DependencyView>,
)
    requires
        ds.len() == es.len(),
        forall|i: int| 0 <= i < ds.len() ==> dependency_fits(#[trigger] ds[i]),
        forall|i: int| 0 <= i < es.len() ==> dependency_fits(#[trigger] es[i]),
        starts_at(b, pos, encode_dependencies(ds)),
        starts_at(b, pos, encode_dependencies(es)),
    ensures
        ds == es,
    decreases ds.len(),
{
    if ds.len() == 0 {
        assert(ds =~= es);
    } else {
        lemma_starts_at_split(b, pos, encode_dependency(ds[0]), encode_dependencies(ds.drop_first()));
        lemma_starts_at_split(b, pos, encode_dependency(es[0]), encode_dependencies(es.drop_first()));
        lemma_dependency_unique(b, pos, ds[0], es[0]);
        assert forall|i: int| 0 <= i < ds.drop_first().len() implies dependency_fits(
            #[trigger] ds.drop_first()[i],
        ) by {
            assert(ds.drop_first()[i] == ds[i + 1]);
        }
        assert forall|i: int| 0 <= i < es.drop_first().len() implies dependency_fits(
            #[trigger] es.drop_first()[i],
        ) by {
            assert(es.drop_first()[i] == es[i + 1]);
        }
        lemma_dependencies_unique(
            b,
            pos + encode_dependency(ds[0]).len(),
            ds.drop_first(),
            es.drop_first(),
        );
        assert(ds =~= seq![ds[0]] + ds.drop_first());
        assert(es =~= seq![es[0]] + es.drop_first());
    }
}

proof fn lemma_dependencies_push(ds: Seq<DependencyView>, d: DependencyView)
    ensures
        encode_dependencies(ds.push(d)) == encode_dependencies(ds) + encode_dependency(d),
    decreases ds.len(),
{
    if ds.len() == 0 {
        assert(ds.push(d).drop_first() =~= ds);
        assert(ds.push(d)[0] == d);
        assert(encode_dependencies(ds) =~= Seq::<u8>::empty());
        assert(encode_dependencies(ds.push(d)) =~= encode_dependency(d) + encode_dependencies(ds));
        assert(encode_dependencies(ds.push(d)) =~= encode_dependency(d));
    } else {
        assert(ds.push(d).drop_first() =~= ds.drop_first().push(d));
        lemma_dependencies_push(ds.drop_first(), d);
        assert(encode_dependencies(ds.push(d)) =~= encode_dependencies(ds) + encode_dependency(d));
    }
}

/// Two records of fitting lengths with the same bytes are the same record.
pub proof fn lemma_encode_record_injective(r: RecordView, q: RecordView)
    requires
        record_fits(r),
        record_fits(q),
        encode_record(r) == encode_record(q),
    ensures
        r == q,
{
    let b = encode_record(r);
    let a1 = encode_opt(r.fin_version);
    let a2 = encode_opt(r.game_version);
    let a3 = spec_u64_to_le_bytes(r.mod_dependencies.len() as u64);
    let a4 = encode_dependencies(r.mod_dependencies);
    let c1 = encode_opt(q.fin_version);
    let c2 = encode_opt(q.game_version);
    let c3 = spec_u64_to_le_bytes(q.mod_dependencies.len() as u64);
    let c4 = encode_dependencies(q.mod_dependencies);
    assert(b.subrange(0, b.len() as int) =~= b);
    assert(starts_at(b, 0, ((a1 + a2) + a3) + a4));
    assert(starts_at(b, 0, ((c1 + c2) + c3) + c4));
    lemma_starts_at_split(b, 0, (a1 + a2) + a3, a4);
    lemma_starts_at_split(b, 0, a1 + a2, a3);
    lemma_starts_at_split(b, 0, a1, a2);
    lemma_starts_at_split(b, 0, (c1 + c2) + c3, c4);
    lemma_starts_at_split(b, 0, c1 + c2, c3);
    lemma_starts_at_split(b, 0, c1, c2);
    lemma_opt_unique(b, 0, r.fin_version, q.fin_version);
    lemma_opt_unique(b, a1.len() as int, r.game_version, q.game_version);
    lemma_auto_spec_u64_to_from_le_bytes();
    let deps_start = (a1.len() + a2.len()) as int;
    assert(b.subrange(deps_start, deps_start + 8) == a3);
    assert(b.subrange(deps_start, deps_start + 8) == c3);
    lemma_le_bytes_unique(r.mod_dependencies.len() as u64, q.mod_dependencies.len() as u64);
    lemma_dependencies_unique(b, deps_start + 8, r.mod_dependencies, q.mod_dependencies);
}

/// Decoding the encoding of a record gives the record back.
pub proof fn lemma_round_trip(r: RecordView)
    requires
        record_fits(r),
    ensures
        decode_record(encode_record(r)) == Some(r),
{
    let b = encode_record(r);
    assert(record_fits(r) && encode_record(r) == b);
    let q = choose|q: RecordView| record_fits(q) && encode_record(q) == b;
    lemma_encode_record_injective(r, q);
}

/// Relies on `std::str::from_utf8`: it accepts exactly the valid UTF-8 byte
/// strings, and the text it returns is made of those bytes.
#[verifier::external_body]
fn utf8_text(b: &[u8]) -> (r: Option<String>)
    ensures
        r is Some <==> valid_utf8(b@),
        r matches Some(s) ==> encode_utf8(s@) == b@,
{
    std::str::from_utf8(b).ok().map(|s| s.to_owned())
}

fn push_bytes(out: &mut Vec<u8>, b: &[u8])
    ensures
        final(out)@ == old(out)@ + b@,
{
    let mut i: usize = 0;
    while i < b.len()
        invariant
            i <= b@.len(),
            out@ == old(out)@ + b@.subrange(0, i as int),
        decreases b@.len() - i,
    {
        out.push(b[i]);
        assert(b@.subrange(0, i + 1) =~= b@.subrange(0, i as int).push(b@[i as int]));
        i = i + 1;
    }
    assert(b@.subrange(0, b@.len() as int) =~= b@);
}

fn push_u64(out: &mut Vec<u8>, n: u64)
    ensures
        final(out)@ == old(out)@ + spec_u64_to_le_bytes(n),
{
    let mut bytes = u64_to_le_bytes(n);
    out.append(&mut bytes);
}

fn push_text(out: &mut Vec<u8>, s: &String)
    ensures
        final(out)@ == old(out)@ + encode_text(s@),
        text_fits(s@),
{
    let b = s.as_str().as_bytes();
    push_u64(out, b.len() as u64);
    push_bytes(out, b);
}

fn push_opt(out: &mut Vec<u8>, o: &Option<String>)
    ensures
        final(out)@ == old(out)@ + encode_opt(opt_text(*o)),
        opt_fits(opt_text(*o)),
{
    match o {
        None => {
            out.push(0);
            assert(out@ =~= old(out)@ + encode_opt(opt_text(*o)));
        },
        Some(s) => {
            out.push(1);
            push_text(out, s);
            assert(out@ =~= old(out)@ + encode_opt(opt_text(*o)));
        },
    }
}

/// The bytes of a constraint record.
pub fn encode(r: &VersionData) -> (b: Vec<u8>)
    ensures
        b@ == encode_record(r@),
        record_fits(r@),
{
    let mut out: Vec<u8> = Vec::new();
    push_opt(&mut out, &r.fin_version);
    push_opt(&mut out, &r.game_version);
    let n = r.mod_dependencies.len();
    push_u64(&mut out, n as u64);
    let ghost head = out@;
    let ghost deps = r@.mod_dependencies;
    let mut i: usize = 0;
    while i < n
        invariant
            n == r.mod_dependencies.len(),
            deps == r@.mod_dependencies,
            i <= n,
            out@ == head + encode_dependencies(deps.take(i as int)),
            forall|k: int| 0 <= k < i ==> dependency_fits(#[trigger] deps[k]),
        decreases n - i,
    {
        let d = &r.mod_dependencies[i];
        push_text(&mut out, &d.id);
        push_opt(&mut out, &d.version);
        proof {
            assert(deps[i as int] == d@);
            assert(deps.take(i + 1) =~= deps.take(i as int).push(d@));
            lemma_dependencies_push(deps.take(i as int), d@);
        }
        i = i + 1;
    }
    assert(deps.take(n as int) =~= deps);
    out
}

fn read_u64(b: &[u8], pos: usize) -> (r: Option<u64>)
    ensures
        match r {
            Some(n) => pos + 8 <= b@.len() <= usize::MAX && starts_at(b@, pos as int, spec_u64_to_le_bytes(n)),
            None => pos + 8 > b@.len(),
        },
{
    if pos > b.len() || b.len() - pos < 8 {
        None
    } else {
        let s = vstd::slice::slice_subrange(b, pos, pos + 8);
        let n = u64_from_le_bytes(s);
        proof {
            lemma_auto_spec_u64_to_from_le_bytes();
        }
        Some(n)
    }
}

fn read_text(b: &[u8], pos: usize) -> (r: Option<(String, usize)>)
    ensures
        r matches Some(q) ==> text_fits(q.0@) && q.1 == pos + encode_text(q.0@).len() && starts_at(
            b@,
            pos as int,
            encode_text(q.0@),
        ),
        forall|s: Seq<char>|
            text_fits(s) && starts_at(b@, pos as int, #[trigger] encode_text(s)) ==> (r matches Some(q) && q.0@ == s),
{
    proof {
        lemma_auto_spec_u64_to_from_le_bytes();
    }
    match read_u64(b, pos) {
        None => {
            assert forall|s: Seq<char>|
                text_fits(s) && starts_at(b@, pos as int, #[trigger] encode_text(s)) implies false by {
                assert(encode_text(s).len() >= 8);
            }
            None
        },
        Some(n) => {
            let start = pos + 8;
            if n > (b.len() - start) as u64 {
                assert forall|s: Seq<char>|
                    text_fits(s) && starts_at(b@, pos as int, #[trigger] encode_text(s)) implies false by {
                    lemma_starts_at_split(
                        b@,
                        pos as int,
                        spec_u64_to_le_bytes(encode_utf8(s).len() as u64),
                        encode_utf8(s),
                    );
                    lemma_le_bytes_unique(n, encode_utf8(s).len() as u64);
                }
                None
            } else {
                let end = start + n as usize;
                let slice = vstd::slice::slice_subrange(b, start, end);
                match utf8_text(slice) {
                    None => {
                        assert forall|s: Seq<char>|
                            text_fits(s) && starts_at(
                                b@,
                                pos as int,
                                #[trigger] encode_text(s),
                            ) implies false by {
                            lemma_starts_at_split(
                                b@,
                                pos as int,
                                spec_u64_to_le_bytes(encode_utf8(s).len() as u64),
                                encode_utf8(s),
                            );
                            lemma_le_bytes_unique(n, encode_utf8(s).len() as u64);
                            assert(slice@ == encode_utf8(s));
                        }
                        None
                    },
                    Some(text) => {
                        proof {
                            lemma_starts_at_join(
                                b@,
                                pos as int,
                                spec_u64_to_le_bytes(n),
                                encode_utf8(text@),
                            );
                            assert forall|s: Seq<char>|
                                text_fits(s) && starts_at(
                                    b@,
                                    pos as int,
                                    #[trigger] encode_text(s),
                                ) implies text@ == s by {
                                lemma_text_unique(b@, pos as int, text@, s);
                            }
                        }
                        Some((text, end))
                    },
                }
            }
        },
    }
}

fn read_opt(b: &[u8], pos: usize) -> (r: Option<(Option<String>, usize)>)
    ensures
        r matches Some(q) ==> opt_fits(opt_text(q.0)) && q.1 == pos + encode_opt(
            opt_text(q.0),
        ).len() && starts_at(b@, pos as int, encode_opt(opt_text(q.0))),
        forall|o: Option<Seq<char>>|
            opt_fits(o) && starts_at(b@, pos as int, #[trigger] encode_opt(o)) ==> (r matches Some(q) && opt_text(q.0) == o),
{
    if pos >= b.len() {
        assert forall|o: Option<Seq<char>>|
            opt_fits(o) && starts_at(b@, pos as int, #[trigger] encode_opt(o)) implies false by {}
        None
    } else if b[pos] == 0 {
        proof {
            assert(b@.subrange(pos as int, pos + 1) =~= encode_opt(None));
            assert forall|o: Option<Seq<char>>|
                opt_fits(o) && starts_at(b@, pos as int, #[trigger] encode_opt(o)) implies o
                == None::<Seq<char>> by {
                lemma_opt_unique(b@, pos as int, o, None);
            }
        }
        Some((None, pos + 1))
    } else if b[pos] == 1 {
        match read_text(b, pos + 1) {
            None => {
                assert forall|o: Option<Seq<char>>|
                    opt_fits(o) && starts_at(b@, pos as int, #[trigger] encode_opt(o)) implies false by {
                    assert(b@.subrange(pos as int, pos + encode_opt(o).len())[0] == b@[pos as int]);
                    if let Some(s) = o {
                        lemma_starts_at_split(b@, pos as int, seq![1u8], encode_text(s));
                    }
                }
                None
            },
            Some((s, end)) => {
                proof {
                    assert(b@.subrange(pos as int, pos + 1) =~= seq![1u8]);
                    assert(starts_at(b@, pos as int, seq![1u8]));
                    lemma_starts_at_join(b@, pos as int, seq![1u8], encode_text(s@));
                    assert(encode_opt(opt_text(Some(s))) == seq![1u8] + encode_text(s@));
                    assert forall|o: Option<Seq<char>>|
                        opt_fits(o) && starts_at(b@, pos as int, #[trigger] encode_opt(o)) implies Some(
                            s@,
                        ) == o by {
                        lemma_opt_unique(b@, pos as int, o, Some(s@));
                    }
                }
                Some((Some(s), end))
            },
        }
    } else {
        assert forall|o: Option<Seq<char>>|
            opt_fits(o) && starts_at(b@, pos as int, #[trigger] encode_opt(o)) implies false by {
            assert(b@.subrange(pos as int, pos + encode_opt(o).len())[0] == b@[pos as int]);
        }
        None
    }
}

fn read_dependencies(b: &[u8], start: usize, count: u64) -> (r: Option<(Vec<ModDependency>, usize)>)
    requires
        start <= b@.len(),
    ensures
        r matches Some(q) ==> {
            &&& q.0@.len() == count
            &&& dependencies_fit(dependencies_view(q.0@))
            &&& q.1 == start + encode_dependencies(dependencies_view(q.0@)).len()
            &&& starts_at(b@, start as int, encode_dependencies(dependencies_view(q.0@)))
        },
        forall|ds: Seq<DependencyView>|
            ds.len() == count && dependencies_fit(ds) && starts_at(
                b@,
                start as int,
                #[trigger] encode_dependencies(ds),
            ) ==> (r matches Some(q) && dependencies_view(q.0@) == ds),
{
    let ghost has = exists|ds: Seq<DependencyView>|
        ds.len() == count && dependencies_fit(ds) && starts_at(
            b@,
            start as int,
            #[trigger] encode_dependencies(ds),
        );
    let ghost t = choose|ds: Seq<DependencyView>|
        ds.len() == count && dependencies_fit(ds) && starts_at(
            b@,
            start as int,
            #[trigger] encode_dependencies(ds),
        );
    let mut pos: usize = start;
    let mut deps: Vec<ModDependency> = Vec::new();
    let mut i: u64 = 0;
    proof {
        assert(b@.subrange(start as int, start as int) =~= Seq::<u8>::empty());
        assert(dependencies_view(deps@) =~= Seq::<DependencyView>::empty());
        if has {
            assert(t.skip(0) =~= t);
            assert(t.take(0) =~= Seq::<DependencyView>::empty());
        }
    }
    while i < count
        invariant
            start <= pos <= b@.len(),
            i <= count,
            deps@.len() == i,
            b@.subrange(start as int, pos as int) == encode_dependencies(dependencies_view(deps@)),
            dependencies_fit(dependencies_view(deps@)),
            has == exists|ds: Seq<DependencyView>|
                ds.len() == count && dependencies_fit(ds) && starts_at(
                    b@,
                    start as int,
                    #[trigger] encode_dependencies(ds),
                ),
            has ==> t.len() == count && dependencies_fit(t),
            has ==> starts_at(b@, start as int, encode_dependencies(t)),
            has ==> dependencies_view(deps@) == t.take(i as int),
            has ==> starts_at(b@, pos as int, encode_dependencies(t.skip(i as int))),
        decreases count - i,
    {
        proof {
            if has {
                let rest = t.skip(i as int);
                assert(rest.drop_first() =~= t.skip(i + 1));
                assert(rest[0] == t[i as int]);
                lemma_starts_at_split(
                    b@,
                    pos as int,
                    encode_dependency(rest[0]),
                    encode_dependencies(rest.drop_first()),
                );
                lemma_starts_at_split(
                    b@,
                    pos as int,
                    encode_text(rest[0].id),
                    encode_opt(rest[0].version),
                );
                assert(dependency_fits(t[i as int]));
            }
        }
        let (id, q1) = match read_text(b, pos) {
            Some(q) => q,
            None => return None,
        };
        let (version, q2) = match read_opt(b, q1) {
            Some(q) => q,
            None => return None,
        };
        let dep = ModDependency { id, version };
        let ghost dv = dependencies_view(deps@);
        proof {
            lemma_starts_at_join(b@, pos as int, encode_text(dep.id@), encode_opt(opt_text(dep.version)));
            assert(encode_dependency(dep@) == encode_text(dep.id@) + encode_opt(opt_text(dep.version)));
        }
        deps.push(dep);
        proof {
            assert(dependencies_view(deps@) =~= dv.push(dep@));
            lemma_dependencies_push(dv, dep@);
            assert(b@.subrange(start as int, q2 as int) =~= b@.subrange(start as int, pos as int)
                + b@.subrange(pos as int, q2 as int));
            assert forall|k: int| 0 <= k < dependencies_view(deps@).len() implies dependency_fits(
                #[trigger] dependencies_view(deps@)[k],
            ) by {
                if k < i {
                    assert(dependencies_view(deps@)[k] == dv[k]);
                }
            }
            if has {
                assert(dep@ == t[i as int]);
                assert(t.take(i + 1) =~= t.take(i as int).push(t[i as int]));
                let rest = t.skip(i as int);
                assert(rest.drop_first() =~= t.skip(i + 1));
            }
        }
        pos = q2;
        i = i + 1;
    }
    proof {
        assert forall|ds: Seq<DependencyView>|
            ds.len() == count && dependencies_fit(ds) && starts_at(
                b@,
                start as int,
                #[trigger] encode_dependencies(ds),
            ) implies dependencies_view(deps@) == ds by {
            assert(t.take(count as int) =~= t);
            lemma_dependencies_unique(b@, start as int, ds, t);
        }
    }
    Some((deps, pos))
}

/// Reads a constraint record back from its bytes. Fails exactly on bytes that
/// are not the encoding of a record.
#[verifier::rlimit(30)]
pub fn decode(b: &[u8]) -> (r: Result<VersionData, DecodeError>)
    ensures
        match r {
            Ok(v) => decode_record(b@) == Some(v@),
            Err(_) => decode_record(b@) is None,
        },
{
    let ghost has = exists|t: RecordView| record_fits(t) && encode_record(t) == b@;
    let ghost t = choose|t: RecordView| record_fits(t) && encode_record(t) == b@;
    proof {
        lemma_auto_spec_u64_to_from_le_bytes();
        if has {
            let a1 = encode_opt(t.fin_version);
            let a2 = encode_opt(t.game_version);
            let a3 = spec_u64_to_le_bytes(t.mod_dependencies.len() as u64);
            let a4 = encode_dependencies(t.mod_dependencies);
            assert(b@.subrange(0, b@.len() as int) =~= b@);
            assert(starts_at(b@, 0, ((a1 + a2) + a3) + a4));
            lemma_starts_at_split(b@, 0, (a1 + a2) + a3, a4);
            lemma_starts_at_split(b@, 0, a1 + a2, a3);
            lemma_starts_at_split(b@, 0, a1, a2);
        }
    }
    let (fin_version, after_fin) = match read_opt(b, 0) {
        Some(q) => q,
        None => return Err(DecodeError),
    };
    let (game_version, after_game) = match read_opt(b, after_fin) {
        Some(q) => q,
        None => return Err(DecodeError),
    };
    let count = match read_u64(b, after_game) {
        Some(n) => n,
        None => return Err(DecodeError),
    };
    proof {
        if has {
            lemma_le_bytes_unique(count, t.mod_dependencies.len() as u64);
        }
    }
    let deps_start = after_game + 8;
    let (deps, deps_end) = match read_dependencies(b, deps_start, count) {
        Some(q) => q,
        None => return Err(DecodeError),
    };
    if deps_end != b.len() {
        return Err(DecodeError);
    }
    let v = VersionData { fin_version, game_version, mod_dependencies: deps };
    proof {
        let dv = dependencies_view(deps@);
        assert(v@.mod_dependencies == dv);
        assert(b@ =~= b@.subrange(0, after_fin as int) + b@.subrange(after_fin as int, after_game as int) + b@.subrange(
            after_game as int,
            deps_start as int,
        ) + b@.subrange(deps_start as int, deps_end as int));
        assert(encode_record(v@) == b@);
        assert(record_fits(v@));
        let q = choose|q: RecordView| record_fits(q) && encode_record(q) == b@;
        lemma_encode_record_injective(v@, q);
    }
    Ok(v)
}

} // verus!
