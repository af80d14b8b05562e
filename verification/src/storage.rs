//! The storage capability consumed by the pipeline: list/get/put/delete
//! against a bucket-and-key namespace. The capability is modelled by a ghost
//! state: the objects held per (bucket, key), and the log of calls made, so
//! that contracts can say both what the store holds and which calls a run
//! performed. A real backend implements these traits outside this crate; the
//! in-memory store of [`crate::memory`] implements them here, verified.

use vstd::prelude::*;

verus! {

/// One storage call, as recorded in the model's log: which operation, on
/// which bucket and key, with what payload, and whether the backend reported
/// success.
pub enum StorageEvent {
    Get { bucket: Seq<char>, key: Seq<char>, ok: bool },
    Put { bucket: Seq<char>, key: Seq<char>, data: Seq<u8>, ok: bool },
    Delete { bucket: Seq<char>, key: Seq<char>, ok: bool },
    List { bucket: Seq<char>, ok: bool },
}

pub open spec fn event_bucket(e: StorageEvent) -> Seq<char> {
    match e {
        StorageEvent::Get { bucket, .. } => bucket,
        StorageEvent::Put { bucket, .. } => bucket,
        StorageEvent::Delete { bucket, .. } => bucket,
        StorageEvent::List { bucket, .. } => bucket,
    }
}

pub open spec fn event_key(e: StorageEvent) -> Seq<char> {
    match e {
        StorageEvent::Get { key, .. } => key,
        StorageEvent::Put { key, .. } => key,
        StorageEvent::Delete { key, .. } => key,
        StorageEvent::List { .. } => Seq::empty(),
    }
}

/// The event is a fetch of (bucket, key) whose success flag is `ok`.
pub open spec fn is_get(e: StorageEvent, bucket: Seq<char>, key: Seq<char>, ok: bool) -> bool {
    match e {
        StorageEvent::Get { bucket: b, key: k, ok: o } => b == bucket && k == key && o == ok,
        _ => false,
    }
}

/// The event is a store into (bucket, key) whose success flag is `ok`,
/// whatever the payload.
pub open spec fn is_put_to(e: StorageEvent, bucket: Seq<char>, key: Seq<char>, ok: bool) -> bool {
    match e {
        StorageEvent::Put { bucket: b, key: k, ok: o, .. } => b == bucket && k == key && o == ok,
        _ => false,
    }
}

/// The event is a successful store into (bucket, key).
pub open spec fn is_put_ok(e: StorageEvent, bucket: Seq<char>, key: Seq<char>) -> bool {
    is_put_to(e, bucket, key, true)
}

/// The event is a delete of (bucket, key) whose success flag is `ok`.
pub open spec fn is_delete(e: StorageEvent, bucket: Seq<char>, key: Seq<char>, ok: bool) -> bool {
    match e {
        StorageEvent::Delete { bucket: b, key: k, ok: o } => b == bucket && k == key && o == ok,
        _ => false,
    }
}

/// The model of a storage backend: what it holds, and what was asked of it.
pub struct StorageState {
    pub objects: Map<(Seq<char>, Seq<char>), Seq<u8>>,
    pub log: Seq<StorageEvent>,
}

/// Ties a client type to its ghost storage state.
pub trait StorageModel {
    spec fn state(&self) -> StorageState;
}

/// `ks` is a listing of the keys that `objects` holds in `bucket`: every
/// listed key is present, every present key is listed, and no key is listed
/// twice.
pub open spec fn listing_of(
    objects: Map<(Seq<char>, Seq<char>), Seq<u8>>,
    bucket: Seq<char>,
    ks: Seq<Seq<char>>,
) -> bool {
    &&& forall|i: int| 0 <= i < ks.len() ==> objects.contains_key((bucket, #[trigger] ks[i]))
    &&& forall|k: Seq<char>|
        #[trigger] objects.contains_key((bucket, k)) ==> ks.contains(k)
    &&& forall|i: int, j: int| 0 <= i < j < ks.len() ==> ks[i] != ks[j]
}

/// Fetches one object's bytes. On success the returned bytes are exactly
/// what the store holds under (bucket, key); an absent object cannot be
/// fetched successfully. The store itself is never changed, and the call is
/// logged either way.
pub trait GetFile: StorageModel {
    fn get_file(&mut self, bucket: &str, key: &str) -> (r: Result<Vec<u8>, String>)
        ensures
            final(self).state().objects == old(self).state().objects,
            final(self).state().log == old(self).state().log.push(
                StorageEvent::Get { bucket: bucket@, key: key@, ok: r is Ok },
            ),
            r is Ok ==> old(self).state().objects.contains_key((bucket@, key@))
                && r.unwrap()@ == old(self).state().objects[(bucket@, key@)],
    ;
}

/// Stores one object's bytes. On success the store afterwards holds exactly
/// the given bytes under (bucket, key) and is otherwise unchanged; on
/// failure it is unchanged entirely. The call is logged either way.
pub trait PutFile: StorageModel {
    fn put_file(&mut self, bucket: &str, key: &str, bytes: Vec<u8>) -> (r: Result<String, String>)
        ensures
            final(self).state().log == old(self).state().log.push(
                StorageEvent::Put { bucket: bucket@, key: key@, data: bytes@, ok: r is Ok },
            ),
            r is Ok ==> final(self).state().objects == old(self).state().objects.insert(
                (bucket@, key@),
                bytes@,
            ),
            r is Err ==> final(self).state().objects == old(self).state().objects,
    ;
}

/// Deletes one object. On success the store afterwards holds nothing under
/// (bucket, key) and is otherwise unchanged; on failure it is unchanged
/// entirely. The call is logged either way.
pub trait DeleteFile: StorageModel {
    fn delete_file(&mut self, bucket: &str, key: &str) -> (r: Result<String, String>)
        ensures
            final(self).state().log == old(self).state().log.push(
                StorageEvent::Delete { bucket: bucket@, key: key@, ok: r is Ok },
            ),
            r is Ok ==> final(self).state().objects == old(self).state().objects.remove(
                (bucket@, key@),
            ),
            r is Err ==> final(self).state().objects == old(self).state().objects,
    ;
}

/// Lists the keys of one bucket. On success the returned keys are exactly
/// the keys the store holds in that bucket, each once. The store itself is
/// never changed, and the call is logged either way.
pub trait ListFiles: StorageModel {
    fn list_files(&mut self, bucket: &str) -> (r: Result<Vec<String>, String>)
        ensures
            final(self).state().objects == old(self).state().objects,
            final(self).state().log == old(self).state().log.push(
                StorageEvent::List { bucket: bucket@, ok: r is Ok },
            ),
            r is Ok ==> listing_of(
                old(self).state().objects,
                bucket@,
                r.unwrap()@.map_values(|s: String| s@),
            ),
    ;
}

} // verus!
