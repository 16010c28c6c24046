//! A keyed cache with a capacity bound, a time to live, one fetch in flight
//! per key, and negative caching.
//!
//! The cache decides; its caller fetches. A request for a key either serves
//! the cached outcome, asks the caller to fetch, or asks it to wait for the
//! fetch already in flight. When a fetch ends, the caller completes the key
//! with its outcome, success or failure alike, and the outcome is served
//! until its time to live, counted from completion, runs out. Under capacity
//! pressure the outcome stored first is evicted first.

use vstd::prelude::*;

verus! {

/// Why a fetch brought no value.
#[derive(Debug, PartialEq, Eq, Structural, Clone, Copy)]
pub enum FetchError {
    NotFound,
    Upstream,
}

/// What a key holds: a fetch in flight, or its outcome.
pub enum Slot<V> {
    Pending,
    Ready(Result<V, FetchError>),
}

pub struct Entry<V> {
    pub key: String,
    pub inserted_at: u64,
    pub slot: Slot<V>,
}

/// What the caller does for a request.
#[derive(Debug, PartialEq, Eq, Structural, Clone, Copy)]
pub enum Action {
    /// Serve the cached outcome.
    Serve,
    /// Fetch, then complete the key.
    Fetch,
    /// Wait for the fetch in flight, then request again.
    Wait,
}

pub struct CacheView<V> {
    pub entries: Seq<Entry<V>>,
    pub capacity: nat,
    pub ttl: nat,
}

pub struct TtlCache<V> {
    entries: Vec<Entry<V>>,
    capacity: usize,
    ttl: u64,
}

/// Position of the first entry for `key`, if any.
pub open spec fn find<V>(entries: Seq<Entry<V>>, key: Seq<char>) -> Option<int>
    decreases entries.len(),
{
    if entries.len() == 0 {
        None
    } else if entries[0].key@ == key {
        Some(0)
    } else {
        match find(entries.drop_first(), key) {
            Some(i) => Some(i + 1),
            None => None,
        }
    }
}

/// Position of the first entry that holds an outcome, if any.
pub open spec fn first_ready<V>(entries: Seq<Entry<V>>) -> Option<int>
    decreases entries.len(),
{
    if entries.len() == 0 {
        None
    } else if entries[0].slot is Ready {
        Some(0)
    } else {
        match first_ready(entries.drop_first()) {
            Some(i) => Some(i + 1),
            None => None,
        }
    }
}

/// How many entries hold an outcome.
pub open spec fn ready_count<V>(entries: Seq<Entry<V>>) -> nat
    decreases entries.len(),
{
    if entries.len() == 0 {
        0
    } else {
        ready_count(entries.drop_first()) + if entries[0].slot is Ready {
            1nat
        } else {
            0nat
        }
    }
}

/// An outcome stored at `inserted_at` is still served at `now`.
pub open spec fn fresh(inserted_at: u64, now: u64, ttl: nat) -> bool {
    now < inserted_at || now - inserted_at < ttl
}

/// The cache state after a request for `key` at `now`, and what the caller does.
pub open spec fn request_spec<V>(c: CacheView<V>, key: Seq<char>, now: u64, pending: Entry<V>) -> (CacheView<V>, Action) {
    match find(c.entries, key) {
        Some(i) => match c.entries[i].slot {
            Slot::Pending => (c, Action::Wait),
            Slot::Ready(_) => if fresh(c.entries[i].inserted_at, now, c.ttl) {
                (c, Action::Serve)
            } else {
                (CacheView { entries: c.entries.update(i, pending), ..c }, Action::Fetch)
            },
        },
        None => (CacheView { entries: c.entries.push(pending), ..c }, Action::Fetch),
    }
}

/// An entry for a fetch of `key` started at `now`.
pub open spec fn pending_entry<V>(e: Entry<V>, key: Seq<char>, now: u64) -> bool {
    e.key@ == key && e.inserted_at == now && e.slot is Pending
}

/// The cache state after the fetch of `key` ends at `now` with `outcome`:
/// the key's entry leaves, the outcome is stored last, and where the cache
/// is full the first stored outcome is evicted. A cache of capacity zero
/// stores nothing.
pub open spec fn complete_spec<V>(c: CacheView<V>, key: Seq<char>, stored: Entry<V>) -> CacheView<V> {
    let base = match find(c.entries, key) {
        Some(i) => c.entries.remove(i),
        None => c.entries,
    };
    let entries = if c.capacity == 0 {
        base
    } else if ready_count(base) < c.capacity {
        base.push(stored)
    } else {
        match first_ready(base) {
            Some(j) => base.remove(j).push(stored),
            None => base.push(stored),
        }
    };
    CacheView { entries, ..c }
}

/// The outcome that the cache serves for `key`, if it holds one.
pub open spec fn cached_spec<V>(c: CacheView<V>, key: Seq<char>) -> Option<Result<V, FetchError>> {
    match find(c.entries, key) {
        Some(i) => match c.entries[i].slot {
            Slot::Ready(r) => Some(r),
            Slot::Pending => None,
        },
        None => None,
    }
}

/// The cache holds at most one entry per key, and at most `capacity` outcomes.
pub open spec fn wf_view<V>(c: CacheView<V>) -> bool {
    &&& ready_count(c.entries) <= c.capacity
    &&& keys_distinct(c.entries)
}

proof fn lemma_find_bounds<V>(entries: Seq<Entry<V>>, key: Seq<char>)
    ensures
        find(entries, key) matches Some(i) ==> 0 <= i < entries.len() && entries[i].key@ == key,
    decreases entries.len(),
{
    if entries.len() > 0 {
        lemma_find_bounds(entries.drop_first(), key);
    }
}

proof fn lemma_first_ready_bounds<V>(entries: Seq<Entry<V>>)
    ensures
        first_ready(entries) matches Some(i) ==> 0 <= i < entries.len() && entries[i].slot is Ready,
        first_ready(entries) is None ==> ready_count(entries) == 0,
    decreases entries.len(),
{
    if entries.len() > 0 {
        lemma_first_ready_bounds(entries.drop_first());
    }
}

proof fn lemma_ready_count_update<V>(entries: Seq<Entry<V>>, i: int, e: Entry<V>)
    requires
        0 <= i < entries.len(),
    ensures
        ready_count(entries.update(i, e)) + (if entries[i].slot is Ready { 1int } else { 0int })
            == ready_count(entries) + (if e.slot is Ready { 1int } else { 0int }),
    decreases entries.len(),
{
    if i > 0 {
        assert(entries.update(i, e).drop_first() =~= entries.drop_first().update(i - 1, e));
        lemma_ready_count_update(entries.drop_first(), i - 1, e);
    } else {
        assert(entries.update(i, e).drop_first() =~= entries.drop_first());
    }
}

proof fn lemma_ready_count_remove<V>(entries: Seq<Entry<V>>, i: int)
    requires
        0 <= i < entries.len(),
    ensures
        ready_count(entries.remove(i)) + (if entries[i].slot is Ready { 1int } else { 0int })
            == ready_count(entries),
    decreases entries.len(),
{
    if i > 0 {
        assert(entries.remove(i).drop_first() =~= entries.drop_first().remove(i - 1));
        lemma_ready_count_remove(entries.drop_first(), i - 1);
    } else {
        assert(entries.remove(i) =~= entries.drop_first());
    }
}

proof fn lemma_ready_count_push<V>(entries: Seq<Entry<V>>, e: Entry<V>)
    ensures
        ready_count(entries.push(e)) == ready_count(entries) + (if e.slot is Ready { 1nat } else { 0nat }),
    decreases entries.len(),
{
    if entries.len() > 0 {
        assert(entries.push(e).drop_first() =~= entries.drop_first().push(e));
        lemma_ready_count_push(entries.drop_first(), e);
    } else {
        assert(entries.push(e).drop_first() =~= entries);
    }
}

proof fn lemma_ready_count_suffix<V>(entries: Seq<Entry<V>>, i: int)
    requires
        0 <= i <= entries.len(),
    ensures
        ready_count(entries.skip(i)) <= ready_count(entries),
    decreases i,
{
    if i > 0 {
        assert(entries.skip(i) =~= entries.drop_first().skip(i - 1));
        lemma_ready_count_suffix(entries.drop_first(), i - 1);
    } else {
        assert(entries.skip(0) =~= entries);
    }
}

impl<V> TtlCache<V> {
    pub closed spec fn view(&self) -> CacheView<V> {
        CacheView { entries: self.entries@, capacity: self.capacity as nat, ttl: self.ttl as nat }
    }

    /// An empty cache that stores at most `capacity` outcomes, each for `ttl`
    /// time units from its completion.
    pub fn new(capacity: usize, ttl: u64) -> (c: TtlCache<V>)
        ensures
            c.view().entries.len() == 0,
            c.view().capacity == capacity,
            c.view().ttl == ttl,
            wf_view(c.view()),
    {
        TtlCache { entries: Vec::new(), capacity, ttl }
    }

    fn find_exec(&self, key: &String) -> (r: Option<usize>)
        ensures
            match r {
                Some(i) => find(self.entries@, key@) == Some(i as int),
                None => find(self.entries@, key@) is None,
            },
    {
        let mut i: usize = 0;
        assert(self.entries@.skip(0) =~= self.entries@);
        while i < self.entries.len()
            invariant
                i <= self.entries@.len(),
                forall|j: int| 0 <= j < i ==> self.entries@[j].key@ != key@,
                find(self.entries@, key@) == match find(self.entries@.skip(i as int), key@) {
                    Some(k) => Some(k + i),
                    None => None::<int>,
                },
            decreases self.entries@.len() - i,
        {
            if self.entries[i].key == *key {
                return Some(i);
            }
            assert(self.entries@.skip(i as int).drop_first() =~= self.entries@.skip(i + 1));
            i = i + 1;
        }
        None
    }

    /// Decides a request for `key` at time `now`.
    pub fn request(&mut self, key: &String, now: u64) -> (r: Action)
        requires
            wf_view(old(self).view()),
        ensures
            wf_view(final(self).view()),
            exists|e: Entry<V>|
                pending_entry(e, key@, now) && (final(self).view(), r) == request_spec(
                    old(self).view(),
                    key@,
                    now,
                    e,
                ),
    {
        match self.find_exec(key) {
            Some(i) => {
                proof {
                    lemma_find_bounds(self.entries@, key@);
                }
                let (pending, inserted_at) = match &self.entries[i].slot {
                    Slot::Pending => (true, 0),
                    Slot::Ready(_) => (false, self.entries[i].inserted_at),
                };
                if pending {
                    proof {
                        let e = Entry::<V> { key: *key, inserted_at: now, slot: Slot::Pending };
                        assert(pending_entry(e, key@, now) && (self.view(), Action::Wait) == request_spec(old(self).view(), key@, now, e));
                    }
                    return Action::Wait;
                }
                if now < inserted_at || now - inserted_at < self.ttl {
                    proof {
                        let e = Entry::<V> { key: *key, inserted_at: now, slot: Slot::Pending };
                        assert(pending_entry(e, key@, now) && (self.view(), Action::Serve) == request_spec(old(self).view(), key@, now, e));
                    }
                    return Action::Serve;
                }
                let e = Entry { key: key.clone(), inserted_at: now, slot: Slot::Pending };
                let ghost ge = e;
                proof {
                    lemma_ready_count_update(self.entries@, i as int, e);
                }
                let _ = self.entries.remove(i);
                self.entries.insert(i, e);
                assert(keys_distinct(self.entries@)) by {
                    assert forall|a: int, b: int| 0 <= a < b < self.entries@.len() implies (#[trigger] self.entries@[a]).key@ != (#[trigger] self.entries@[b]).key@ by {
                        if a != i as int && b != i as int {
                            assert(self.entries@[a] == old(self).entries@[a]);
                            assert(self.entries@[b] == old(self).entries@[b]);
                        } else if a == i as int {
                            assert(old(self).entries@[a].key@ == key@);
                            assert(self.entries@[b] == old(self).entries@[b]);
                        } else {
                            assert(old(self).entries@[b].key@ == key@);
                            assert(self.entries@[a] == old(self).entries@[a]);
                        }
                    }
                }
                assert(self.entries@ =~= old(self).entries@.update(i as int, ge));
                assert(pending_entry(ge, key@, now) && (self.view(), Action::Fetch) == request_spec(old(self).view(), key@, now, ge));
                Action::Fetch
            },
            None => {
                let e = Entry { key: key.clone(), inserted_at: now, slot: Slot::Pending };
                let ghost ge = e;
                proof {
                    lemma_ready_count_push(self.entries@, e);
                    lemma_find_none_converse(self.entries@, key@);
                }
                self.entries.push(e);
                assert(pending_entry(ge, key@, now) && (self.view(), Action::Fetch) == request_spec(old(self).view(), key@, now, ge));
                Action::Fetch
            },
        }
    }

    /// Records the outcome of the fetch of `key`, which ended at time `now`.
    pub fn complete(&mut self, key: &String, outcome: Result<V, FetchError>, now: u64)
        requires
            wf_view(old(self).view()),
        ensures
            wf_view(final(self).view()),
            exists|e: Entry<V>|
                e.key@ == key@ && e.inserted_at == now && e.slot == Slot::Ready(outcome)
                    && final(self).view() == complete_spec(old(self).view(), key@, e),
    {
        let ghost c = self.view();
        match self.find_exec(key) {
            Some(i) => {
                proof {
                    lemma_find_bounds(self.entries@, key@);
                    lemma_ready_count_remove(self.entries@, i as int);
                    lemma_distinct_remove(self.entries@, i as int);
                }
                let _ = self.entries.remove(i);
            },
            None => {
                proof {
                    lemma_find_none_converse(self.entries@, key@);
                }
            },
        }
        let ghost base = self.entries@;
        assert(keys_distinct(base));
        assert(forall|k: int| 0 <= k < base.len() ==> (#[trigger] base[k]).key@ != key@);
        let stored = Entry { key: key.clone(), inserted_at: now, slot: Slot::Ready(outcome) };
        let ghost gs = stored;
        if self.capacity == 0 {
            assert(self.view() == complete_spec(c, key@, gs));
            return;
        }
        let count = self.count_ready();
        if count < self.capacity {
            proof {
                lemma_ready_count_push(self.entries@, stored);
                lemma_distinct_push(self.entries@, stored);
            }
            self.entries.push(stored);
        } else {
            match self.first_ready_exec() {
                Some(j) => {
                    proof {
                        lemma_first_ready_bounds(self.entries@);
                        lemma_ready_count_remove(self.entries@, j as int);
                        lemma_ready_count_push(self.entries@.remove(j as int), stored);
                        lemma_distinct_remove(self.entries@, j as int);
                        let r = self.entries@.remove(j as int);
                        assert forall|k: int| 0 <= k < r.len() implies (#[trigger] r[k]).key@ != key@ by {
                            let k0 = if k < j { k } else { k + 1 };
                            assert(r[k] == base[k0]);
                        }
                        lemma_distinct_push(r, stored);
                    }
                    let _ = self.entries.remove(j);
                    self.entries.push(stored);
                },
                None => {
                    proof {
                        lemma_first_ready_bounds(self.entries@);
                        lemma_ready_count_push(self.entries@, stored);
                        lemma_distinct_push(self.entries@, stored);
                    }
                    self.entries.push(stored);
                },
            }
        }
        assert(self.view() == complete_spec(c, key@, gs));
    }

    fn count_ready(&self) -> (n: usize)
        requires
            ready_count(self.entries@) <= self.capacity,
        ensures
            n == ready_count(self.entries@),
    {
        let mut n: usize = 0;
        let mut i: usize = self.entries.len();
        assert(self.entries@.skip(i as int) =~= Seq::<Entry<V>>::empty());
        while i > 0
            invariant
                i <= self.entries@.len(),
                ready_count(self.entries@) <= self.capacity,
                n == ready_count(self.entries@.skip(i as int)),
            decreases i,
        {
            i = i - 1;
            assert(self.entries@.skip(i as int).drop_first() =~= self.entries@.skip(i + 1));
            proof {
                lemma_ready_count_suffix(self.entries@, i as int);
            }
            match self.entries[i].slot {
                Slot::Ready(_) => {
                    n = n + 1;
                },
                Slot::Pending => {},
            }
        }
        assert(self.entries@.skip(0) =~= self.entries@);
        n
    }

    fn first_ready_exec(&self) -> (r: Option<usize>)
        ensures
            match r {
                Some(i) => first_ready(self.entries@) == Some(i as int),
                None => first_ready(self.entries@) is None,
            },
    {
        let mut i: usize = 0;
        assert(self.entries@.skip(0) =~= self.entries@);
        while i < self.entries.len()
            invariant
                i <= self.entries@.len(),
                first_ready(self.entries@) == match first_ready(self.entries@.skip(i as int)) {
                    Some(k) => Some(k + i),
                    None => None::<int>,
                },
            decreases self.entries@.len() - i,
        {
            match self.entries[i].slot {
                Slot::Ready(_) => {
                    return Some(i);
                },
                Slot::Pending => {},
            }
            assert(self.entries@.skip(i as int).drop_first() =~= self.entries@.skip(i + 1));
            i = i + 1;
        }
        None
    }

    /// The outcome that the cache holds for `key`, if any.
    pub fn cached(&self, key: &String) -> (r: Option<&Result<V, FetchError>>)
        ensures
            match r {
                Some(x) => cached_spec(self.view(), key@) == Some(*x),
                None => cached_spec(self.view(), key@) is None,
            },
    {
        match self.find_exec(key) {
            Some(i) => {
                proof {
                    lemma_find_bounds(self.entries@, key@);
                }
                match &self.entries[i].slot {
                    Slot::Ready(x) => Some(x),
                    Slot::Pending => None,
                }
            },
            None => None,
        }
    }
}

/// The actions of successive requests for one key at times `ts`, with no
/// fetch completing in between.
pub open spec fn request_actions<V>(c: CacheView<V>, key: Seq<char>, ts: Seq<u64>, pendings: Seq<Entry<V>>) -> Seq<Action>
    decreases ts.len(),
{
    if ts.len() == 0 || pendings.len() == 0 {
        seq![]
    } else {
        let (c2, a) = request_spec(c, key, ts[0], pendings[0]);
        seq![a] + request_actions(c2, key, ts.drop_first(), pendings.drop_first())
    }
}

proof fn lemma_pending_waits<V>(c: CacheView<V>, key: Seq<char>, ts: Seq<u64>, pendings: Seq<Entry<V>>)
    requires
        find(c.entries, key) matches Some(i) && c.entries[i].slot is Pending,
        pendings.len() == ts.len(),
    ensures
        forall|k: int| 0 <= k < ts.len() ==> #[trigger] request_actions(c, key, ts, pendings)[k] == Action::Wait,
        request_actions(c, key, ts, pendings).len() == ts.len(),
    decreases ts.len(),
{
    if ts.len() > 0 {
        lemma_pending_waits(c, key, ts.drop_first(), pendings.drop_first());
        let rest = request_actions(c, key, ts.drop_first(), pendings.drop_first());
        assert forall|k: int| 0 <= k < ts.len() implies #[trigger] request_actions(c, key, ts, pendings)[k] == Action::Wait by {
            if k > 0 {
                assert(request_actions(c, key, ts, pendings)[k] == rest[k - 1]);
            }
        }
    }
}

/// Single flight: while no fetch completes, of successive requests for a key
/// that the cache does not hold, the first asks for a fetch and every other
/// one waits, so the key is fetched exactly once.
pub proof fn lemma_single_flight<V>(c: CacheView<V>, key: Seq<char>, ts: Seq<u64>, pendings: Seq<Entry<V>>)
    requires
        find(c.entries, key) is None,
        ts.len() > 0,
        pendings.len() == ts.len(),
        forall|k: int| 0 <= k < ts.len() ==> pending_entry(#[trigger] pendings[k], key, ts[k]),
    ensures
        request_actions(c, key, ts, pendings).len() == ts.len(),
        request_actions(c, key, ts, pendings)[0] == Action::Fetch,
        forall|k: int| 1 <= k < ts.len() ==> #[trigger] request_actions(c, key, ts, pendings)[k] == Action::Wait,
{
    let (c2, a) = request_spec(c, key, ts[0], pendings[0]);
    assert(pending_entry(pendings[0], key, ts[0]));
    lemma_find_push(c.entries, key, pendings[0]);
    lemma_pending_waits(c2, key, ts.drop_first(), pendings.drop_first());
    let rest = request_actions(c2, key, ts.drop_first(), pendings.drop_first());
    assert forall|k: int| 1 <= k < ts.len() implies #[trigger] request_actions(c, key, ts, pendings)[k] == Action::Wait by {
        assert(request_actions(c, key, ts, pendings)[k] == rest[k - 1]);
    }
}

proof fn lemma_find_push<V>(entries: Seq<Entry<V>>, key: Seq<char>, e: Entry<V>)
    requires
        find(entries, key) is None,
        e.key@ == key,
    ensures
        find(entries.push(e), key) == Some(entries.len() as int),
    decreases entries.len(),
{
    if entries.len() > 0 {
        assert(entries.push(e).drop_first() =~= entries.drop_first().push(e));
        lemma_find_push(entries.drop_first(), key, e);
    }
}

proof fn lemma_find_remove_other<V>(entries: Seq<Entry<V>>, key: Seq<char>, j: int)
    requires
        find(entries, key) is None,
        0 <= j < entries.len(),
    ensures
        find(entries.remove(j), key) is None,
    decreases entries.len(),
{
    if j > 0 {
        assert(entries.remove(j).drop_first() =~= entries.drop_first().remove(j - 1));
        lemma_find_remove_other(entries.drop_first(), key, j - 1);
    } else {
        assert(entries.remove(j) =~= entries.drop_first());
    }
}

/// The entry for a key is its only one where keys are distinct.
pub open spec fn keys_distinct<V>(entries: Seq<Entry<V>>) -> bool {
    forall|i: int, j: int| 0 <= i < j < entries.len() ==> (#[trigger] entries[i]).key@ != (#[trigger] entries[j]).key@
}

proof fn lemma_find_none<V>(entries: Seq<Entry<V>>, key: Seq<char>)
    requires
        forall|i: int| 0 <= i < entries.len() ==> (#[trigger] entries[i]).key@ != key,
    ensures
        find(entries, key) is None,
    decreases entries.len(),
{
    if entries.len() > 0 {
        lemma_find_none(entries.drop_first(), key);
    }
}

/// Negative caching: once the fetch of a key ends in failure, requests for the
/// key serve that failure until its time to live runs out, and ask for a
/// fetch again from then on.
pub proof fn lemma_failure_cached<V>(c: CacheView<V>, key: Seq<char>, stored: Entry<V>, error: FetchError, now: u64, pending: Entry<V>)
    requires
        wf_view(c),
        c.capacity > 0,
        stored.key@ == key,
        stored.slot == Slot::<V>::Ready(Err(error)),
        stored.inserted_at <= now,
    ensures
        ({
            let c1 = complete_spec(c, key, stored);
            &&& cached_spec(c1, key) == Some(Err::<V, FetchError>(error))
            &&& request_spec(c1, key, now, pending).1 == if now - stored.inserted_at < c.ttl {
                Action::Serve
            } else {
                Action::Fetch
            }
        }),
{
    let c1 = complete_spec(c, key, stored);
    let base = match find(c.entries, key) {
        Some(i) => c.entries.remove(i),
        None => c.entries,
    };
    lemma_find_bounds(c.entries, key);
    assert forall|k: int| 0 <= k < base.len() implies (#[trigger] base[k]).key@ != key by {
        match find(c.entries, key) {
            Some(i) => {
                if k < i {
                    assert(base[k] == c.entries[k]);
                    if base[k].key@ == key {
                        lemma_find_first(c.entries, key, k);
                    }
                } else {
                    assert(base[k] == c.entries[k + 1]);
                }
            },
            None => {
                if base[k].key@ == key {
                    lemma_find_first(c.entries, key, k);
                }
            },
        }
    }
    lemma_find_none(base, key);
    if ready_count(base) < c.capacity {
        lemma_find_push(base, key, stored);
    } else {
        lemma_first_ready_bounds(base);
        match first_ready(base) {
            Some(j) => {
                lemma_find_remove_other(base, key, j);
                lemma_find_push(base.remove(j), key, stored);
            },
            None => {
                lemma_find_push(base, key, stored);
            },
        }
    }
}

proof fn lemma_find_none_converse<V>(entries: Seq<Entry<V>>, key: Seq<char>)
    requires
        find(entries, key) is None,
    ensures
        forall|i: int| 0 <= i < entries.len() ==> (#[trigger] entries[i]).key@ != key,
{
    assert forall|i: int| 0 <= i < entries.len() implies (#[trigger] entries[i]).key@ != key by {
        if entries[i].key@ == key {
            lemma_find_first(entries, key, i);
        }
    }
}

proof fn lemma_distinct_remove<V>(entries: Seq<Entry<V>>, i: int)
    requires
        keys_distinct(entries),
        0 <= i < entries.len(),
    ensures
        keys_distinct(entries.remove(i)),
        forall|k: int| 0 <= k < entries.remove(i).len() ==> (#[trigger] entries.remove(i)[k]).key@ != entries[i].key@,
{
    let r = entries.remove(i);
    assert forall|a: int, b: int| 0 <= a < b < r.len() implies (#[trigger] r[a]).key@ != (#[trigger] r[b]).key@ by {
        let a0 = if a < i { a } else { a + 1 };
        let b0 = if b < i { b } else { b + 1 };
        assert(r[a] == entries[a0]);
        assert(r[b] == entries[b0]);
    }
    assert forall|k: int| 0 <= k < r.len() implies (#[trigger] r[k]).key@ != entries[i].key@ by {
        let k0 = if k < i { k } else { k + 1 };
        assert(r[k] == entries[k0]);
    }
}

proof fn lemma_distinct_push<V>(entries: Seq<Entry<V>>, e: Entry<V>)
    requires
        keys_distinct(entries),
        forall|k: int| 0 <= k < entries.len() ==> (#[trigger] entries[k]).key@ != e.key@,
    ensures
        keys_distinct(entries.push(e)),
{
    let r = entries.push(e);
    assert forall|a: int, b: int| 0 <= a < b < r.len() implies (#[trigger] r[a]).key@ != (#[trigger] r[b]).key@ by {
        assert(r[a] == entries[a]);
        if b < entries.len() {
            assert(r[b] == entries[b]);
        }
    }
}

proof fn lemma_find_first<V>(entries: Seq<Entry<V>>, key: Seq<char>, k: int)
    requires
        0 <= k < entries.len(),
        entries[k].key@ == key,
    ensures
        find(entries, key) matches Some(i) && i <= k,
    decreases entries.len(),
{
    if k > 0 && entries[0].key@ != key {
        lemma_find_first(entries.drop_first(), key, k - 1);
    }
}

} // verus!
