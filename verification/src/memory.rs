//! An in-memory storage backend implementing the storage capability,
//! verified against the same contracts that a real backend is trusted to
//! meet. It keeps every call it served in an inspectable record list, and
//! can be told to fail chosen calls, so that a batch's branching can be
//! exercised deterministically and network-free.

use vstd::prelude::*;

use crate::storage::DeleteFile;
use crate::storage::GetFile;
use crate::storage::ListFiles;
use crate::storage::PutFile;
use crate::storage::StorageEvent;
use crate::storage::StorageModel;
use crate::storage::StorageState;
use crate::storage::listing_of;

verus! {

/// One call served by the in-memory store, as tests can inspect it.
pub enum CallRecord {
    Get { bucket: String, key: String, ok: bool },
    Put { bucket: String, key: String, data: Vec<u8>, ok: bool },
    Delete { bucket: String, key: String, ok: bool },
    List { bucket: String, ok: bool },
}

impl CallRecord {
    /// The storage event this record stands for.
    pub open spec fn event(self) -> StorageEvent {
        match self {
            CallRecord::Get { bucket, key, ok } => StorageEvent::Get {
                bucket: bucket@,
                key: key@,
                ok,
            },
            CallRecord::Put { bucket, key, data, ok } => StorageEvent::Put {
                bucket: bucket@,
                key: key@,
                data: data@,
                ok,
            },
            CallRecord::Delete { bucket, key, ok } => StorageEvent::Delete {
                bucket: bucket@,
                key: key@,
                ok,
            },
            CallRecord::List { bucket, ok } => StorageEvent::List { bucket: bucket@, ok },
        }
    }
}

/// The log that a call-record sequence stands for.
pub open spec fn events_of(calls: Seq<CallRecord>) -> Seq<StorageEvent> {
    calls.map_values(|c: CallRecord| c.event())
}

/// One write in the store's history: the bytes now held under
/// (bucket, key), or `None` once the object was deleted. The history is
/// append-only; a later record for the same (bucket, key) overrides an
/// earlier one.
struct ObjectRecord {
    bucket: String,
    key: String,
    data: Option<Vec<u8>>,
}

impl ObjectRecord {
    spec fn pair(self) -> (Seq<char>, Seq<char>) {
        (self.bucket@, self.key@)
    }
}

/// The object map that a write history stands for.
spec fn entries_map(s: Seq<ObjectRecord>) -> Map<(Seq<char>, Seq<char>), Seq<u8>>
    decreases s.len(),
{
    if s.len() == 0 {
        Map::empty()
    } else {
        match s.last().data {
            Option::Some(d) => entries_map(s.drop_last()).insert(s.last().pair(), d@),
            Option::None => entries_map(s.drop_last()).remove(s.last().pair()),
        }
    }
}

/// Appending one record performs that record's insert or remove on the map.
proof fn lemma_entries_map_push(s: Seq<ObjectRecord>, e: ObjectRecord)
    ensures
        e.data is Some ==> entries_map(s.push(e)) == entries_map(s).insert(
            e.pair(),
            e.data.unwrap()@,
        ),
        e.data is None ==> entries_map(s.push(e)) == entries_map(s).remove(e.pair()),
{
    assert(s.push(e).drop_last() =~= s);
    assert(s.push(e).last() == e);
}

/// If no record from index `i` on touches the pair `p`, the map holds under
/// `p` exactly what record `i` wrote.
proof fn lemma_last_match(s: Seq<ObjectRecord>, i: int)
    requires
        0 <= i < s.len(),
        forall|j: int| i < j < s.len() ==> (#[trigger] s[j]).pair() != s[i].pair(),
    ensures
        s[i].data is Some ==> entries_map(s).contains_key(s[i].pair()) && entries_map(s)[s[i].pair()]
            == s[i].data.unwrap()@,
        s[i].data is None ==> !entries_map(s).contains_key(s[i].pair()),
    decreases s.len(),
{
    if i == s.len() - 1 {
    } else {
        assert(s.drop_last()[i] == s[i]);
        assert forall|j: int| i < j < s.drop_last().len() implies (#[trigger] s.drop_last()[j]).pair()
            != s.drop_last()[i].pair() by {
            assert(s.drop_last()[j] == s[j]);
        }
        lemma_last_match(s.drop_last(), i);
        assert(s.last().pair() != s[i].pair());
    }
}

/// A pair no record ever touched is absent from the map.
proof fn lemma_no_match(s: Seq<ObjectRecord>, p: (Seq<char>, Seq<char>))
    requires
        forall|j: int| 0 <= j < s.len() ==> (#[trigger] s[j]).pair() != p,
    ensures
        !entries_map(s).contains_key(p),
    decreases s.len(),
{
    if s.len() > 0 {
        assert(s[s.len() - 1].pair() != p);
        assert forall|j: int| 0 <= j < s.drop_last().len() implies (#[trigger] s.drop_last()[j]).pair()
            != p by {
            assert(s.drop_last()[j] == s[j]);
        }
        lemma_no_match(s.drop_last(), p);
    }
}

/// Every key the map holds was written by some record that no later record
/// overrode, and that still holds bytes.
proof fn lemma_contains_has_live(s: Seq<ObjectRecord>, p: (Seq<char>, Seq<char>))
    requires
        entries_map(s).contains_key(p),
    ensures
        exists|i: int|
            0 <= i < s.len() && (#[trigger] s[i]).pair() == p && s[i].data is Some && (forall|j: int|
                i < j < s.len() ==> (#[trigger] s[j]).pair() != p),
    decreases s.len(),
{
    if s.last().pair() == p {
        assert(s.last().data is Some);
        let i = s.len() - 1;
        assert((#[trigger] s[i]).pair() == p && s[i].data is Some && (forall|j: int|
            i < j < s.len() ==> (#[trigger] s[j]).pair() != p));
    } else {
        lemma_contains_has_live(s.drop_last(), p);
        let i = choose|i: int|
            0 <= i < s.drop_last().len() && (#[trigger] s.drop_last()[i]).pair() == p
                && s.drop_last()[i].data is Some && (forall|j: int|
                i < j < s.drop_last().len() ==> (#[trigger] s.drop_last()[j]).pair() != p);
        assert(s.drop_last()[i] == s[i]);
        assert forall|j: int| i < j < s.len() implies (#[trigger] s[j]).pair() != p by {
            if j < s.len() - 1 {
                assert(s.drop_last()[j] == s[j]);
            }
        }
        assert((#[trigger] s[i]).pair() == p && s[i].data is Some && (forall|j: int|
            i < j < s.len() ==> (#[trigger] s[j]).pair() != p));
    }
}

/// Record `i` is the newest record for its (bucket, key), lies in `bucket`,
/// and still holds bytes: it is what a listing of `bucket` must report.
spec fn live_at(s: Seq<ObjectRecord>, i: int, bucket: Seq<char>) -> bool {
    &&& 0 <= i < s.len()
    &&& s[i].bucket@ == bucket
    &&& s[i].data is Some
    &&& forall|j: int| i < j < s.len() ==> (#[trigger] s[j]).pair() != s[i].pair()
}

/// Some collected key reads `k`.
spec fn seq_has_key(ks: Seq<String>, k: Seq<char>) -> bool {
    exists|a: int| 0 <= a < ks.len() && (#[trigger] ks[a])@ == k
}

/// `k` is the key of some record, below position `n`, that a listing of
/// `bucket` must report.
spec fn traced(s: Seq<ObjectRecord>, n: int, bucket: Seq<char>, k: Seq<char>) -> bool {
    exists|t: int| 0 <= t < n && #[trigger] live_at(s, t, bucket) && s[t].key@ == k
}

/// Appending a record leaves a log that extends the old one by its event.
proof fn lemma_events_push(calls: Seq<CallRecord>, c: CallRecord)
    ensures
        events_of(calls.push(c)) == events_of(calls).push(c.event()),
{
    assert(events_of(calls.push(c)) =~= events_of(calls).push(c.event()));
}

/// Some listed pair reads (bucket, key).
spec fn pair_in(list: Seq<(String, String)>, bucket: Seq<char>, key: Seq<char>) -> bool {
    exists|i: int| 0 <= i < list.len() && (#[trigger] list[i]).0@ == bucket && list[i].1@ == key
}

/// Some listed name reads `bucket`.
spec fn bucket_in(list: Seq<String>, bucket: Seq<char>) -> bool {
    exists|i: int| 0 <= i < list.len() && (#[trigger] list[i])@ == bucket
}

/// Appending a pair plans exactly that pair in addition to the old ones.
proof fn lemma_pair_in_push(
    list: Seq<(String, String)>,
    p: (String, String),
    bucket: Seq<char>,
    key: Seq<char>,
)
    ensures
        pair_in(list.push(p), bucket, key) <==> (pair_in(list, bucket, key) || (p.0@ == bucket
            && p.1@ == key)),
{
    if pair_in(list.push(p), bucket, key) {
        let i = choose|i: int|
            0 <= i < list.push(p).len() && (#[trigger] list.push(p)[i]).0@ == bucket && list.push(
                p,
            )[i].1@ == key;
        if i < list.len() {
            assert((#[trigger] list[i]).0@ == bucket && list[i].1@ == key);
        }
    }
    if pair_in(list, bucket, key) {
        let i = choose|i: int|
            0 <= i < list.len() && (#[trigger] list[i]).0@ == bucket && list[i].1@ == key;
        assert((#[trigger] list.push(p)[i]).0@ == bucket && list.push(p)[i].1@ == key);
    }
    if p.0@ == bucket && p.1@ == key {
        assert((#[trigger] list.push(p)[list.len() as int]).0@ == bucket);
    }
}

/// Appending a name plans exactly that bucket in addition to the old ones.
proof fn lemma_bucket_in_push(list: Seq<String>, p: String, bucket: Seq<char>)
    ensures
        bucket_in(list.push(p), bucket) <==> (bucket_in(list, bucket) || p@ == bucket),
{
    if bucket_in(list.push(p), bucket) {
        let i = choose|i: int|
            0 <= i < list.push(p).len() && (#[trigger] list.push(p)[i])@ == bucket;
        if i < list.len() {
            assert((#[trigger] list[i])@ == bucket);
        }
    }
    if bucket_in(list, bucket) {
        let i = choose|i: int| 0 <= i < list.len() && (#[trigger] list[i])@ == bucket;
        assert((#[trigger] list.push(p)[i])@ == bucket);
    }
    if p@ == bucket {
        assert((#[trigger] list.push(p)[list.len() as int])@ == bucket);
    }
}

/// The in-memory store: the write history, the calls served so far, and the
/// calls it was told to fail.
pub struct MemoryStorage {
    entries: Vec<ObjectRecord>,
    calls: Vec<CallRecord>,
    fail_gets: Vec<(String, String)>,
    fail_puts: Vec<(String, String)>,
    fail_deletes: Vec<(String, String)>,
    fail_lists: Vec<String>,
}

impl StorageModel for MemoryStorage {
    closed spec fn state(&self) -> StorageState {
        StorageState { objects: entries_map(self.entries@), log: events_of(self.calls@) }
    }
}

/// Compares two string slices by their characters.
fn str_eq(a: &str, b: &str) -> (r: bool)
    ensures
        r == (a@ == b@),
{
    let x = a.to_owned();
    let y = b.to_owned();
    x == y
}

/// Copies a byte vector.
fn copy_bytes(v: &Vec<u8>) -> (r: Vec<u8>)
    ensures
        r@ == v@,
{
    let mut out: Vec<u8> = Vec::new();
    let mut i: usize = 0;
    while i < v.len()
        invariant
            i <= v@.len(),
            out@ == v@.take(i as int),
        decreases v@.len() - i,
    {
        out.push(v[i]);
        assert(out@ =~= v@.take(i + 1));
        i = i + 1;
    }
    assert(v@.take(v@.len() as int) =~= v@);
    out
}

impl MemoryStorage {
    /// Whether the store was told to fail fetches of (bucket, key).
    pub closed spec fn get_fails_planned(&self, bucket: Seq<char>, key: Seq<char>) -> bool {
        pair_in(self.fail_gets@, bucket, key)
    }

    /// Whether the store was told to fail stores into (bucket, key).
    pub closed spec fn put_fails_planned(&self, bucket: Seq<char>, key: Seq<char>) -> bool {
        pair_in(self.fail_puts@, bucket, key)
    }

    /// Whether the store was told to fail deletes of (bucket, key).
    pub closed spec fn delete_fails_planned(&self, bucket: Seq<char>, key: Seq<char>) -> bool {
        pair_in(self.fail_deletes@, bucket, key)
    }

    /// Whether the store was told to fail listings of a bucket.
    pub closed spec fn list_fails_planned(&self, bucket: Seq<char>) -> bool {
        bucket_in(self.fail_lists@, bucket)
    }

    /// An empty store: no objects, no calls served, no planned failures.
    pub fn new() -> (s: MemoryStorage)
        ensures
            s.state().objects == Map::<(Seq<char>, Seq<char>), Seq<u8>>::empty(),
            s.state().log == Seq::<StorageEvent>::empty(),
            forall|b: Seq<char>, k: Seq<char>| !(#[trigger] s.get_fails_planned(b, k)),
            forall|b: Seq<char>, k: Seq<char>| !(#[trigger] s.put_fails_planned(b, k)),
            forall|b: Seq<char>, k: Seq<char>| !(#[trigger] s.delete_fails_planned(b, k)),
            forall|b: Seq<char>| !(#[trigger] s.list_fails_planned(b)),
    {
        let s = MemoryStorage {
            entries: Vec::new(),
            calls: Vec::new(),
            fail_gets: Vec::new(),
            fail_puts: Vec::new(),
            fail_deletes: Vec::new(),
            fail_lists: Vec::new(),
        };
        proof {
            assert(events_of(s.calls@) =~= Seq::<StorageEvent>::empty());
        }
        s
    }

    /// Places an object without logging a call: test and setup convenience.
    pub fn insert_object(&mut self, bucket: &str, key: &str, data: Vec<u8>)
        ensures
            final(self).state().objects == old(self).state().objects.insert(
                (bucket@, key@),
                data@,
            ),
            final(self).state().log == old(self).state().log,
    {
        let record = ObjectRecord {
            bucket: bucket.to_owned(),
            key: key.to_owned(),
            data: Some(data),
        };
        proof {
            lemma_entries_map_push(self.entries@, record);
        }
        self.entries.push(record);
    }

    /// The bytes held under (bucket, key), if any: test convenience, not a
    /// logged storage call.
    pub fn object(&self, bucket: &str, key: &str) -> (r: Option<Vec<u8>>)
        ensures
            r is Some ==> self.state().objects.contains_key((bucket@, key@))
                && r.unwrap()@ == self.state().objects[(bucket@, key@)],
            r is None ==> !self.state().objects.contains_key((bucket@, key@)),
    {
        match self.find_last(bucket, key) {
            Some(i) => {
                proof {
                    lemma_last_match(self.entries@, i as int);
                }
                match &self.entries[i].data {
                    Some(bytes) => Some(copy_bytes(bytes)),
                    None => None,
                }
            },
            None => {
                proof {
                    lemma_no_match(self.entries@, (bucket@, key@));
                }
                None
            },
        }
    }

    /// The calls served so far, newest last.
    pub fn calls(&self) -> (r: &Vec<CallRecord>)
        ensures
            events_of(r@) == self.state().log,
    {
        &self.calls
    }

    /// Tells the store to fail fetches of (bucket, key).
    pub fn fail_get_on(&mut self, bucket: &str, key: &str)
        ensures
            final(self).state() == old(self).state(),
            forall|b: Seq<char>, k: Seq<char>|
                #[trigger] final(self).get_fails_planned(b, k) <==> (old(self).get_fails_planned(
                    b,
                    k,
                ) || (b == bucket@ && k == key@)),
            forall|b: Seq<char>, k: Seq<char>|
                #[trigger] final(self).put_fails_planned(b, k) == old(self).put_fails_planned(b, k),
            forall|b: Seq<char>, k: Seq<char>|
                #[trigger] final(self).delete_fails_planned(b, k) == old(
                    self,
                ).delete_fails_planned(b, k),
            forall|b: Seq<char>|
                #[trigger] final(self).list_fails_planned(b) == old(self).list_fails_planned(b),
    {
        let pair = (bucket.to_owned(), key.to_owned());
        let ghost plans = self.fail_gets@;
        let ghost p = pair;
        self.fail_gets.push(pair);
        proof {
            assert forall|b: Seq<char>, k: Seq<char>| #[trigger]
                pair_in(plans.push(p), b, k) <==> (pair_in(plans, b, k) || (b == bucket@ && k
                    == key@)) by {
                lemma_pair_in_push(plans, p, b, k);
            }
        }
    }

    /// Tells the store to fail stores into (bucket, key).
    pub fn fail_put_on(&mut self, bucket: &str, key: &str)
        ensures
            final(self).state() == old(self).state(),
            forall|b: Seq<char>, k: Seq<char>|
                #[trigger] final(self).put_fails_planned(b, k) <==> (old(self).put_fails_planned(
                    b,
                    k,
                ) || (b == bucket@ && k == key@)),
            forall|b: Seq<char>, k: Seq<char>|
                #[trigger] final(self).get_fails_planned(b, k) == old(self).get_fails_planned(b, k),
            forall|b: Seq<char>, k: Seq<char>|
                #[trigger] final(self).delete_fails_planned(b, k) == old(
                    self,
                ).delete_fails_planned(b, k),
            forall|b: Seq<char>|
                #[trigger] final(self).list_fails_planned(b) == old(self).list_fails_planned(b),
    {
        let pair = (bucket.to_owned(), key.to_owned());
        let ghost plans = self.fail_puts@;
        let ghost p = pair;
        self.fail_puts.push(pair);
        proof {
            assert forall|b: Seq<char>, k: Seq<char>| #[trigger]
                pair_in(plans.push(p), b, k) <==> (pair_in(plans, b, k) || (b == bucket@ && k
                    == key@)) by {
                lemma_pair_in_push(plans, p, b, k);
            }
        }
    }

    /// Tells the store to fail deletes of (bucket, key).
    pub fn fail_delete_on(&mut self, bucket: &str, key: &str)
        ensures
            final(self).state() == old(self).state(),
            forall|b: Seq<char>, k: Seq<char>|
                #[trigger] final(self).delete_fails_planned(b, k) <==> (old(
                    self,
                ).delete_fails_planned(b, k) || (b == bucket@ && k == key@)),
            forall|b: Seq<char>, k: Seq<char>|
                #[trigger] final(self).get_fails_planned(b, k) == old(self).get_fails_planned(b, k),
            forall|b: Seq<char>, k: Seq<char>|
                #[trigger] final(self).put_fails_planned(b, k) == old(self).put_fails_planned(b, k),
            forall|b: Seq<char>|
                #[trigger] final(self).list_fails_planned(b) == old(self).list_fails_planned(b),
    {
        let pair = (bucket.to_owned(), key.to_owned());
        let ghost plans = self.fail_deletes@;
        let ghost p = pair;
        self.fail_deletes.push(pair);
        proof {
            assert forall|b: Seq<char>, k: Seq<char>| #[trigger]
                pair_in(plans.push(p), b, k) <==> (pair_in(plans, b, k) || (b == bucket@ && k
                    == key@)) by {
                lemma_pair_in_push(plans, p, b, k);
            }
        }
    }

    /// Tells the store to fail listings of a bucket.
    pub fn fail_list_on(&mut self, bucket: &str)
        ensures
            final(self).state() == old(self).state(),
            forall|b: Seq<char>|
                #[trigger] final(self).list_fails_planned(b) <==> (old(self).list_fails_planned(b)
                    || b == bucket@),
            forall|b: Seq<char>, k: Seq<char>|
                #[trigger] final(self).get_fails_planned(b, k) == old(self).get_fails_planned(b, k),
            forall|b: Seq<char>, k: Seq<char>|
                #[trigger] final(self).put_fails_planned(b, k) == old(self).put_fails_planned(b, k),
            forall|b: Seq<char>, k: Seq<char>|
                #[trigger] final(self).delete_fails_planned(b, k) == old(
                    self,
                ).delete_fails_planned(b, k),
    {
        let name = bucket.to_owned();
        let ghost plans = self.fail_lists@;
        let ghost p = name;
        self.fail_lists.push(name);
        proof {
            assert forall|b: Seq<char>| #[trigger]
                bucket_in(plans.push(p), b) <==> (bucket_in(plans, b) || b == bucket@) by {
                lemma_bucket_in_push(plans, p, b);
            }
        }
    }

    /// The position of the newest record for (bucket, key), if any.
    fn find_last(&self, bucket: &str, key: &str) -> (r: Option<usize>)
        ensures
            r is Some ==> r.unwrap() < self.entries@.len() && self.entries@[r.unwrap() as int].pair()
                == (bucket@, key@) && (forall|j: int|
                r.unwrap() < j < self.entries@.len() ==> (#[trigger] self.entries@[j]).pair() != (
                bucket@,
                key@,
            )),
            r is None ==> forall|j: int|
                0 <= j < self.entries@.len() ==> (#[trigger] self.entries@[j]).pair() != (
                bucket@,
                key@,
            ),
    {
        let mut i: usize = self.entries.len();
        while i > 0
            invariant
                i <= self.entries@.len(),
                forall|j: int|
                    i <= j < self.entries@.len() ==> (#[trigger] self.entries@[j]).pair() != (
                    bucket@,
                    key@,
                ),
            decreases i,
        {
            i = i - 1;
            let e = &self.entries[i];
            if str_eq(e.bucket.as_str(), bucket) && str_eq(e.key.as_str(), key) {
                return Some(i);
            }
        }
        None
    }

    /// Whether (bucket, key) is among the planned failures of `list`.
    fn pair_planned(list: &Vec<(String, String)>, bucket: &str, key: &str) -> (r: bool)
        ensures
            r == pair_in(list@, bucket@, key@),
    {
        let mut i: usize = 0;
        let mut found = false;
        while i < list.len()
            invariant
                i <= list@.len(),
                found == pair_in(list@.take(i as int), bucket@, key@),
            decreases list@.len() - i,
        {
            proof {
                assert(list@.take(i + 1).drop_last() =~= list@.take(i as int));
                assert(list@.take(i + 1) =~= list@.take(i as int).push(list@[i as int]));
                lemma_pair_in_push(
                    list@.take(i as int),
                    list@[i as int],
                    bucket@,
                    key@,
                );
            }
            if str_eq(list[i].0.as_str(), bucket) && str_eq(list[i].1.as_str(), key) {
                found = true;
            }
            i = i + 1;
        }
        proof {
            assert(list@.take(list@.len() as int) =~= list@);
        }
        found
    }

    /// Whether `bucket` is among the planned listing failures.
    fn bucket_planned(list: &Vec<String>, bucket: &str) -> (r: bool)
        ensures
            r == bucket_in(list@, bucket@),
    {
        let mut i: usize = 0;
        let mut found = false;
        while i < list.len()
            invariant
                i <= list@.len(),
                found == bucket_in(list@.take(i as int), bucket@),
            decreases list@.len() - i,
        {
            proof {
                assert(list@.take(i + 1) =~= list@.take(i as int).push(list@[i as int]));
                lemma_bucket_in_push(list@.take(i as int), list@[i as int], bucket@);
            }
            if str_eq(list[i].as_str(), bucket) {
                found = true;
            }
            i = i + 1;
        }
        proof {
            assert(list@.take(list@.len() as int) =~= list@);
        }
        found
    }

    /// Records one served call.
    fn log_call(&mut self, record: CallRecord)
        ensures
            final(self).state().objects == old(self).state().objects,
            final(self).state().log == old(self).state().log.push(record.event()),
            final(self).entries@ == old(self).entries@,
    {
        proof {
            lemma_events_push(self.calls@, record);
        }
        self.calls.push(record);
    }
}

impl GetFile for MemoryStorage {
    fn get_file(&mut self, bucket: &str, key: &str) -> (r: Result<Vec<u8>, String>)
        ensures
            (r is Ok) == (old(self).state().objects.contains_key((bucket@, key@)) && !old(
                self,
            ).get_fails_planned(bucket@, key@)),
    {
        let planned_failure = Self::pair_planned(&self.fail_gets, bucket, key);
        let found = self.object(bucket, key);
        let r: Result<Vec<u8>, String> = match found {
            Some(bytes) if !planned_failure => Ok(bytes),
            _ => Err("object unavailable".to_owned()),
        };
        self.log_call(
            CallRecord::Get { bucket: bucket.to_owned(), key: key.to_owned(), ok: r.is_ok() },
        );
        r
    }
}

impl PutFile for MemoryStorage {
    fn put_file(&mut self, bucket: &str, key: &str, bytes: Vec<u8>) -> (r: Result<String, String>)
        ensures
            (r is Ok) == !old(self).put_fails_planned(bucket@, key@),
    {
        if Self::pair_planned(&self.fail_puts, bucket, key) {
            self.log_call(
                CallRecord::Put {
                    bucket: bucket.to_owned(),
                    key: key.to_owned(),
                    data: bytes,
                    ok: false,
                },
            );
            Err("store refused".to_owned())
        } else {
            let stored = copy_bytes(&bytes);
            let record = ObjectRecord {
                bucket: bucket.to_owned(),
                key: key.to_owned(),
                data: Some(stored),
            };
            proof {
                lemma_entries_map_push(self.entries@, record);
            }
            self.entries.push(record);
            self.log_call(
                CallRecord::Put {
                    bucket: bucket.to_owned(),
                    key: key.to_owned(),
                    data: bytes,
                    ok: true,
                },
            );
            Ok("stored".to_owned())
        }
    }
}

impl MemoryStorage {
    /// Whether a later record overrides record `i`'s (bucket, key).
    fn overridden_later(&self, i: usize) -> (b: bool)
        requires
            i < self.entries@.len(),
        ensures
            b == exists|j: int|
                i < j < self.entries@.len() && (#[trigger] self.entries@[j]).pair()
                    == self.entries@[i as int].pair(),
    {
        let n = self.entries.len();
        let mut j: usize = i + 1;
        let mut found = false;
        while j < self.entries.len()
            invariant
                i < self.entries@.len(),
                i + 1 <= j <= self.entries@.len(),
                found == exists|t: int|
                    i < t < j && (#[trigger] self.entries@[t]).pair()
                        == self.entries@[i as int].pair(),
            decreases self.entries@.len() - j,
        {
            let a = &self.entries[j];
            let b = &self.entries[i];
            if str_eq(a.bucket.as_str(), b.bucket.as_str()) && str_eq(a.key.as_str(), b.key.as_str())
            {
                found = true;
            }
            j = j + 1;
        }
        found
    }
}

impl ListFiles for MemoryStorage {
    fn list_files(&mut self, bucket: &str) -> (r: Result<Vec<String>, String>)
        ensures
            (r is Ok) == !old(self).list_fails_planned(bucket@),
    {
        if Self::bucket_planned(&self.fail_lists, bucket) {
            self.log_call(CallRecord::List { bucket: bucket.to_owned(), ok: false });
            return Err("listing refused".to_owned());
        }
        let ghost s = self.entries@;
        let mut keys: Vec<String> = Vec::new();
        let mut i: usize = 0;
        while i < self.entries.len()
            invariant
                s == self.entries@,
                i <= s.len(),
                forall|a: int|
                    0 <= a < keys@.len() ==> traced(s, i as int, bucket@, (#[trigger] keys@[a])@),
                forall|t: int| 0 <= t < i && #[trigger] live_at(s, t, bucket@) ==> seq_has_key(
                    keys@,
                    s[t].key@,
                ),
                forall|a: int, b: int| 0 <= a < b < keys@.len() ==> (#[trigger] keys@[a])@ != (
                #[trigger] keys@[b])@,
            decreases s.len() - i,
        {
            let live = self.entries[i].data.is_some() && str_eq(
                self.entries[i].bucket.as_str(),
                bucket,
            ) && !self.overridden_later(i);
            if live {
                assert(live_at(s, i as int, bucket@));
                assert forall|a: int| 0 <= a < keys@.len() implies (#[trigger] keys@[a])@ != s[
                    i as int
                ].key@ by {
                    assert(traced(s, i as int, bucket@, keys@[a]@));
                    let t = choose|t: int|
                        0 <= t < i && #[trigger] live_at(s, t, bucket@) && s[t].key@ == keys@[a]@;
                    if keys@[a]@ == s[i as int].key@ {
                        assert(s[i as int].pair() == s[t].pair());
                        assert(s[i as int].pair() != s[t].pair());
                    }
                }
                let ghost old_keys = keys@;
                keys.push(self.entries[i].key.clone());
                proof {
                    assert(keys@[keys@.len() - 1]@ == s[i as int].key@);
                    assert forall|a: int| 0 <= a < keys@.len() implies traced(
                        s,
                        i + 1,
                        bucket@,
                        (#[trigger] keys@[a])@,
                    ) by {
                        if a < old_keys.len() {
                            assert(keys@[a] == old_keys[a]);
                            assert(traced(s, i as int, bucket@, old_keys[a]@));
                            let t = choose|t: int|
                                0 <= t < i && #[trigger] live_at(s, t, bucket@) && s[t].key@
                                    == old_keys[a]@;
                            assert(0 <= t < i + 1 && live_at(s, t, bucket@) && s[t].key@
                                == keys@[a]@);
                        } else {
                            assert(0 <= i < i + 1 && live_at(s, i as int, bucket@) && s[
                                i as int
                            ].key@ == keys@[a]@);
                        }
                    }
                    assert forall|t: int|
                        0 <= t < i + 1 && #[trigger] live_at(s, t, bucket@) implies seq_has_key(
                        keys@,
                        s[t].key@,
                    ) by {
                        if t < i {
                            let a = choose|a: int|
                                0 <= a < old_keys.len() && (#[trigger] old_keys[a])@ == s[t].key@;
                            assert(keys@[a] == old_keys[a]);
                            assert((#[trigger] keys@[a])@ == s[t].key@);
                        } else {
                            let a = keys@.len() - 1;
                            assert((#[trigger] keys@[a])@ == s[t].key@);
                        }
                    }
                }
            } else {
                proof {
                    assert forall|a: int| 0 <= a < keys@.len() implies traced(
                        s,
                        i + 1,
                        bucket@,
                        (#[trigger] keys@[a])@,
                    ) by {
                        assert(traced(s, i as int, bucket@, keys@[a]@));
                        let t = choose|t: int|
                            0 <= t < i && #[trigger] live_at(s, t, bucket@) && s[t].key@
                                == keys@[a]@;
                        assert(0 <= t < i + 1 && live_at(s, t, bucket@) && s[t].key@ == keys@[a]@);
                    }
                    assert forall|t: int|
                        0 <= t < i + 1 && #[trigger] live_at(s, t, bucket@) implies seq_has_key(
                        keys@,
                        s[t].key@,
                    ) by {
                        if t == i {
                            let j = choose|j: int|
                                i < j < s.len() && (#[trigger] s[j]).pair() == s[i as int].pair();
                            assert(s[j].pair() != s[i as int].pair());
                        }
                    }
                }
            }
            i = i + 1;
        }
        proof {
            let ks = keys@.map_values(|k: String| k@);
            assert forall|a: int| 0 <= a < ks.len() implies entries_map(s).contains_key(
                (bucket@, #[trigger] ks[a]),
            ) by {
                assert(traced(s, s.len() as int, bucket@, keys@[a]@));
                let t = choose|t: int|
                    0 <= t < s.len() && #[trigger] live_at(s, t, bucket@) && s[t].key@
                        == keys@[a]@;
                lemma_last_match(s, t);
                assert(s[t].pair() == (bucket@, ks[a]));
            }
            assert forall|k: Seq<char>| #[trigger]
                entries_map(s).contains_key((bucket@, k)) implies ks.contains(k) by {
                lemma_contains_has_live(s, (bucket@, k));
                let t = choose|t: int|
                    0 <= t < s.len() && (#[trigger] s[t]).pair() == (bucket@, k) && s[t].data
                        is Some && (forall|j: int|
                        t < j < s.len() ==> (#[trigger] s[j]).pair() != (bucket@, k));
                assert(live_at(s, t, bucket@));
                assert(seq_has_key(keys@, s[t].key@));
                let a = choose|a: int| 0 <= a < keys@.len() && (#[trigger] keys@[a])@ == k;
                assert(ks[a] == k);
            }
            assert(listing_of(entries_map(s), bucket@, ks));
        }
        self.log_call(CallRecord::List { bucket: bucket.to_owned(), ok: true });
        Ok(keys)
    }
}

impl DeleteFile for MemoryStorage {
    fn delete_file(&mut self, bucket: &str, key: &str) -> (r: Result<String, String>)
        ensures
            (r is Ok) == !old(self).delete_fails_planned(bucket@, key@),
    {
        if Self::pair_planned(&self.fail_deletes, bucket, key) {
            self.log_call(
                CallRecord::Delete { bucket: bucket.to_owned(), key: key.to_owned(), ok: false },
            );
            Err("delete refused".to_owned())
        } else {
            let record = ObjectRecord { bucket: bucket.to_owned(), key: key.to_owned(), data: None };
            proof {
                lemma_entries_map_push(self.entries@, record);
            }
            self.entries.push(record);
            self.log_call(
                CallRecord::Delete { bucket: bucket.to_owned(), key: key.to_owned(), ok: true },
            );
            Ok("deleted".to_owned())
        }
    }
}

} // verus!
