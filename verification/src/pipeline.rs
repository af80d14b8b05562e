//! The pipeline orchestrator: per key, fetch from the source bucket, encrypt
//! under the run's material, store into the destination bucket, and delete
//! the source object only after the ciphertext was stored. A failure of one
//! key never aborts the others; every per-key outcome is folded into one
//! batch summary.

use vstd::prelude::*;

use crate::cipher::ciphertext_of;
use crate::cipher::get_encrypted_file;
use crate::events::EventRecord;
use crate::events::creation_records_of;
use crate::events::derived_bucket;
use crate::events::derived_of;
use crate::events::filter_creation_records;
use crate::material::EncryptionMaterial;
use crate::material::hex_of;
use crate::outcome::BatchSummary;
use crate::outcome::ProcessingOutcome;
use crate::outcome::any_failure;
use crate::outcome::summarize;
use crate::storage::DeleteFile;
use crate::storage::GetFile;
use crate::storage::ListFiles;
use crate::storage::PutFile;
use crate::storage::StorageEvent;
use crate::storage::StorageState;
use crate::storage::is_delete;
use crate::storage::is_get;
use crate::storage::is_put_ok;
use crate::storage::is_put_to;

verus! {

/// Exactly how one key's pass transforms the storage state, by outcome: the
/// calls appended to the log, and the change (none, store, or store-and-
/// delete) to the objects. `pre` and `post` are the states around the pass.
pub open spec fn process_post(
    pre: StorageState,
    post: StorageState,
    source: Seq<char>,
    dest: Seq<char>,
    key: Seq<char>,
    m: EncryptionMaterial,
    outcome: ProcessingOutcome,
) -> bool {
    match outcome {
        ProcessingOutcome::FetchFailed(_) => {
            &&& post.objects == pre.objects
            &&& post.log == pre.log.push(StorageEvent::Get { bucket: source, key, ok: false })
        },
        ProcessingOutcome::EncryptFailed(_) => {
            &&& pre.objects.contains_key((source, key))
            &&& post.objects == pre.objects
            &&& post.log == pre.log.push(StorageEvent::Get { bucket: source, key, ok: true })
        },
        ProcessingOutcome::StoreFailed(_) => {
            &&& pre.objects.contains_key((source, key))
            &&& post.objects == pre.objects
            &&& post.log == pre.log.push(StorageEvent::Get { bucket: source, key, ok: true }).push(
                StorageEvent::Put {
                    bucket: dest,
                    key,
                    data: ciphertext_of(m, pre.objects[(source, key)]),
                    ok: false,
                },
            )
        },
        ProcessingOutcome::DeleteFailed(_) => {
            &&& pre.objects.contains_key((source, key))
            &&& post.objects == pre.objects.insert(
                (dest, key),
                ciphertext_of(m, pre.objects[(source, key)]),
            )
            &&& post.log == pre.log.push(StorageEvent::Get { bucket: source, key, ok: true }).push(
                StorageEvent::Put {
                    bucket: dest,
                    key,
                    data: ciphertext_of(m, pre.objects[(source, key)]),
                    ok: true,
                },
            ).push(StorageEvent::Delete { bucket: source, key, ok: false })
        },
        ProcessingOutcome::Success => {
            &&& pre.objects.contains_key((source, key))
            &&& post.objects == pre.objects.insert(
                (dest, key),
                ciphertext_of(m, pre.objects[(source, key)]),
            ).remove((source, key))
            &&& post.log == pre.log.push(StorageEvent::Get { bucket: source, key, ok: true }).push(
                StorageEvent::Put {
                    bucket: dest,
                    key,
                    data: ciphertext_of(m, pre.objects[(source, key)]),
                    ok: true,
                },
            ).push(StorageEvent::Delete { bucket: source, key, ok: true })
        },
    }
}

/// The views of a run's keys, in input order.
pub open spec fn key_views(keys: Seq<String>) -> Seq<Seq<char>> {
    keys.map_values(|s: String| s@)
}

/// The storage calls of one key's pass, in order, exactly as
/// [`process_post`] determines them by outcome. `data` is the ciphertext
/// handed to the store; the outcomes whose pass never reached the store
/// ignore it.
pub open spec fn pass_events(
    source: Seq<char>,
    dest: Seq<char>,
    key: Seq<char>,
    data: Seq<u8>,
    o: ProcessingOutcome,
) -> Seq<StorageEvent> {
    match o {
        ProcessingOutcome::FetchFailed(_) => seq![
            StorageEvent::Get { bucket: source, key, ok: false },
        ],
        ProcessingOutcome::EncryptFailed(_) => seq![
            StorageEvent::Get { bucket: source, key, ok: true },
        ],
        ProcessingOutcome::StoreFailed(_) => seq![
            StorageEvent::Get { bucket: source, key, ok: true },
            StorageEvent::Put { bucket: dest, key, data, ok: false },
        ],
        ProcessingOutcome::DeleteFailed(_) => seq![
            StorageEvent::Get { bucket: source, key, ok: true },
            StorageEvent::Put { bucket: dest, key, data, ok: true },
            StorageEvent::Delete { bucket: source, key, ok: false },
        ],
        ProcessingOutcome::Success => seq![
            StorageEvent::Get { bucket: source, key, ok: true },
            StorageEvent::Put { bucket: dest, key, data, ok: true },
            StorageEvent::Delete { bucket: source, key, ok: true },
        ],
    }
}

/// The storage calls of a whole batch over the first `n` keys: each key's
/// pass in input order, one after the other, nothing in between and nothing
/// after — each stage attempted at most once, each key fetched exactly
/// once, and no call outside the batch. A stored ciphertext is that of the
/// key's original source bytes.
pub open spec fn batch_events(
    objects: Map<(Seq<char>, Seq<char>), Seq<u8>>,
    source: Seq<char>,
    dest: Seq<char>,
    keys: Seq<Seq<char>>,
    outcomes: Seq<ProcessingOutcome>,
    m: EncryptionMaterial,
    n: int,
) -> Seq<StorageEvent>
    decreases n,
{
    if n <= 0 {
        Seq::empty()
    } else {
        batch_events(objects, source, dest, keys, outcomes, m, n - 1) + pass_events(
            source,
            dest,
            keys[n - 1],
            ciphertext_of(m, objects[(source, keys[n - 1])]),
            outcomes[n - 1],
        )
    }
}

/// Some supplied key reads `k`.
pub open spec fn key_supplied(keys: Seq<Seq<char>>, k: Seq<char>) -> bool {
    exists|i: int| 0 <= i < keys.len() && #[trigger] keys[i] == k
}

/// The call fetches or deletes in the source bucket or stores into the
/// destination bucket, always under one of the supplied keys: no other
/// bucket or key is touched, and no listing is made.
pub open spec fn confined_event(
    e: StorageEvent,
    source: Seq<char>,
    dest: Seq<char>,
    keys: Seq<Seq<char>>,
) -> bool {
    key_supplied(keys, crate::storage::event_key(e)) && match e {
        StorageEvent::Get { bucket, .. } => bucket == source,
        StorageEvent::Put { bucket, .. } => bucket == dest,
        StorageEvent::Delete { bucket, .. } => bucket == source,
        StorageEvent::List { .. } => false,
    }
}

/// The batch's calls depend only on the first `n` outcomes.
proof fn lemma_batch_events_extend(
    objects: Map<(Seq<char>, Seq<char>), Seq<u8>>,
    source: Seq<char>,
    dest: Seq<char>,
    keys: Seq<Seq<char>>,
    outcomes: Seq<ProcessingOutcome>,
    o: ProcessingOutcome,
    m: EncryptionMaterial,
    n: int,
)
    requires
        0 <= n <= outcomes.len(),
    ensures
        batch_events(objects, source, dest, keys, outcomes.push(o), m, n) == batch_events(
            objects,
            source,
            dest,
            keys,
            outcomes,
            m,
            n,
        ),
    decreases n,
{
    if n > 0 {
        lemma_batch_events_extend(objects, source, dest, keys, outcomes, o, m, n - 1);
    }
}

/// Every call of a batch is confined to the supplied keys and the two
/// buckets.
proof fn lemma_batch_events_confined(
    objects: Map<(Seq<char>, Seq<char>), Seq<u8>>,
    source: Seq<char>,
    dest: Seq<char>,
    keys: Seq<Seq<char>>,
    outcomes: Seq<ProcessingOutcome>,
    m: EncryptionMaterial,
    n: int,
)
    requires
        0 <= n <= keys.len(),
    ensures
        forall|e: int|
            0 <= e < batch_events(objects, source, dest, keys, outcomes, m, n).len()
                ==> confined_event(
                #[trigger] batch_events(objects, source, dest, keys, outcomes, m, n)[e],
                source,
                dest,
                keys,
            ),
    decreases n,
{
    if n > 0 {
        lemma_batch_events_confined(objects, source, dest, keys, outcomes, m, n - 1);
        let prev = batch_events(objects, source, dest, keys, outcomes, m, n - 1);
        let seg = pass_events(
            source,
            dest,
            keys[n - 1],
            ciphertext_of(m, objects[(source, keys[n - 1])]),
            outcomes[n - 1],
        );
        let whole = batch_events(objects, source, dest, keys, outcomes, m, n);
        assert(key_supplied(keys, keys[n - 1]));
        assert forall|e: int| 0 <= e < whole.len() implies confined_event(
            #[trigger] whole[e],
            source,
            dest,
            keys,
        ) by {
            if e < prev.len() {
                assert(whole[e] == prev[e]);
            } else {
                assert(whole[e] == seg[e - prev.len()]);
            }
        }
    }
}

/// `post` holds every entry of `pre`, unchanged, at its old position.
pub open spec fn log_extends(pre: Seq<StorageEvent>, post: Seq<StorageEvent>) -> bool {
    pre.len() <= post.len() && forall|e: int| 0 <= e < pre.len() ==> pre[e] == #[trigger] post[e]
}

/// Some key among the first `n` equals `k` and was processed to `Success`.
pub open spec fn succeeded_before(
    keys: Seq<Seq<char>>,
    outcomes: Seq<ProcessingOutcome>,
    n: int,
    k: Seq<char>,
) -> bool {
    exists|i: int| 0 <= i < n && keys[i] == k && (#[trigger] outcomes[i]) is Success
}

/// After processing the first `n` keys, the source bucket holds exactly its
/// original objects minus those whose key succeeded, with unchanged bytes.
pub open spec fn source_accounted(
    pre: Map<(Seq<char>, Seq<char>), Seq<u8>>,
    post: Map<(Seq<char>, Seq<char>), Seq<u8>>,
    source: Seq<char>,
    keys: Seq<Seq<char>>,
    outcomes: Seq<ProcessingOutcome>,
    n: int,
) -> bool {
    &&& forall|k: Seq<char>|
        #[trigger] post.contains_key((source, k)) <==> (pre.contains_key((source, k))
            && !succeeded_before(keys, outcomes, n, k))
    &&& forall|k: Seq<char>|
        #[trigger] post.contains_key((source, k)) ==> post[(source, k)] == pre[(source, k)]
}

/// The outcome's ciphertext reached the destination bucket.
pub open spec fn stored_outcome(o: ProcessingOutcome) -> bool {
    o is Success || o is DeleteFailed
}

/// Every key among the first `n` whose store succeeded is present in the
/// destination bucket, holding the ciphertext of its original source bytes.
pub open spec fn dest_accounted(
    pre: Map<(Seq<char>, Seq<char>), Seq<u8>>,
    post: Map<(Seq<char>, Seq<char>), Seq<u8>>,
    source: Seq<char>,
    dest: Seq<char>,
    keys: Seq<Seq<char>>,
    outcomes: Seq<ProcessingOutcome>,
    n: int,
    m: EncryptionMaterial,
) -> bool {
    forall|i: int|
        0 <= i < n && stored_outcome(#[trigger] outcomes[i]) ==> (pre.contains_key(
            (source, keys[i]),
        ) && post.contains_key((dest, keys[i])) && post[(dest, keys[i])] == ciphertext_of(
            m,
            pre[(source, keys[i])],
        ))
}

/// Every delete in the log segment from `lo` on lies in the source bucket
/// and follows, within the same segment, a successful store of the same key
/// into the destination bucket: the plaintext original is only ever deleted
/// once its encrypted counterpart was stored.
pub open spec fn deletes_follow_stores(
    log: Seq<StorageEvent>,
    lo: int,
    source: Seq<char>,
    dest: Seq<char>,
) -> bool {
    forall|e: int|
        lo <= e < log.len() && (#[trigger] log[e]) is Delete ==> (crate::storage::event_bucket(
            log[e],
        ) == source && exists|p: int|
            lo <= p < e && is_put_ok(#[trigger] log[p], dest, crate::storage::event_key(log[e])))
}

/// The log segment from `lo` on holds the calls that justify the outcome.
pub open spec fn outcome_witnessed(
    log: Seq<StorageEvent>,
    lo: int,
    source: Seq<char>,
    dest: Seq<char>,
    key: Seq<char>,
    o: ProcessingOutcome,
) -> bool {
    match o {
        ProcessingOutcome::Success => exists|e: int|
            lo <= e < log.len() && is_delete(#[trigger] log[e], source, key, true),
        ProcessingOutcome::FetchFailed(_) => exists|e: int|
            lo <= e < log.len() && is_get(#[trigger] log[e], source, key, false),
        ProcessingOutcome::EncryptFailed(_) => exists|e: int|
            lo <= e < log.len() && is_get(#[trigger] log[e], source, key, true),
        ProcessingOutcome::StoreFailed(_) => exists|e: int|
            lo <= e < log.len() && is_put_to(#[trigger] log[e], dest, key, false),
        ProcessingOutcome::DeleteFailed(_) => exists|e: int|
            lo <= e < log.len() && is_delete(#[trigger] log[e], source, key, false),
    }
}

/// Processes one object key through fetch, encrypt, store, delete. The pass
/// aborts on its first failing stage; in particular the delete of the source
/// object is attempted only after the ciphertext was stored successfully.
pub fn process_one_key<T: GetFile + PutFile + DeleteFile>(
    client: &mut T,
    source_bucket: &str,
    dest_bucket: &str,
    key: &str,
    material: &EncryptionMaterial,
) -> (outcome: ProcessingOutcome)
    requires
        material.wf(),
    ensures
        process_post(
            old(client).state(),
            final(client).state(),
            source_bucket@,
            dest_bucket@,
            key@,
            *material,
            outcome,
        ),
{
    let file = match client.get_file(source_bucket, key) {
        Ok(data) => data,
        Err(msg) => {
            return ProcessingOutcome::FetchFailed(msg);
        },
    };
    let encrypted = match get_encrypted_file(&file, material) {
        Ok(bytes) => bytes,
        Err(msg) => {
            return ProcessingOutcome::EncryptFailed(msg);
        },
    };
    match client.put_file(dest_bucket, key, encrypted) {
        Ok(_) => {},
        Err(msg) => {
            return ProcessingOutcome::StoreFailed(msg);
        },
    }
    match client.delete_file(source_bucket, key) {
        Ok(_) => {},
        Err(msg) => {
            return ProcessingOutcome::DeleteFailed(msg);
        },
    }
    ProcessingOutcome::Success
}

/// One step of the batch loop preserves the run's accounting: how the
/// invariants over the first `idx` keys carry to `idx + 1` keys once one
/// more key was processed from `mid` to `post`.
proof fn lemma_run_step(
    pre: StorageState,
    mid: StorageState,
    post: StorageState,
    source: Seq<char>,
    dest: Seq<char>,
    kv: Seq<Seq<char>>,
    outcomes: Seq<ProcessingOutcome>,
    idx: int,
    m: EncryptionMaterial,
    o: ProcessingOutcome,
)
    requires
        source != dest,
        0 <= idx < kv.len(),
        outcomes.len() == idx,
        log_extends(pre.log, mid.log),
        deletes_follow_stores(mid.log, pre.log.len() as int, source, dest),
        source_accounted(pre.objects, mid.objects, source, kv, outcomes, idx),
        dest_accounted(pre.objects, mid.objects, source, dest, kv, outcomes, idx, m),
        forall|i: int|
            0 <= i < idx ==> outcome_witnessed(
                mid.log,
                pre.log.len() as int,
                source,
                dest,
                kv[i],
                #[trigger] outcomes[i],
            ),
        process_post(mid, post, source, dest, kv[idx], m, o),
    ensures
        log_extends(pre.log, post.log),
        deletes_follow_stores(post.log, pre.log.len() as int, source, dest),
        source_accounted(pre.objects, post.objects, source, kv, outcomes.push(o), idx + 1),
        dest_accounted(pre.objects, post.objects, source, dest, kv, outcomes.push(o), idx + 1, m),
        forall|i: int|
            0 <= i <= idx ==> outcome_witnessed(
                post.log,
                pre.log.len() as int,
                source,
                dest,
                kv[i],
                #[trigger] outcomes.push(o)[i],
            ),
{
    let lo = pre.log.len() as int;
    let lm = mid.log.len() as int;
    let kk = kv[idx];
    // The appended log entries never touch the entries below `lm`.
    assert(log_extends(mid.log, post.log));
    assert(log_extends(pre.log, post.log));

    // Deletes keep following stores: old deletes keep their old witness, and
    // a newly pushed delete follows the successful put pushed just before it.
    assert forall|e: int|
        lo <= e < post.log.len() && (#[trigger] post.log[e]) is Delete implies (
    crate::storage::event_bucket(post.log[e]) == source && exists|p: int|
        lo <= p < e && is_put_ok(#[trigger] post.log[p], dest, crate::storage::event_key(
            post.log[e],
        ))) by {
        if e < lm {
            assert(post.log[e] == mid.log[e]);
            let p = choose|p: int|
                lo <= p < e && is_put_ok(#[trigger] mid.log[p], dest, crate::storage::event_key(
                    mid.log[e],
                ));
            assert(post.log[p] == mid.log[p]);
            assert(is_put_ok(post.log[p], dest, crate::storage::event_key(post.log[e])));
        } else {
            match o {
                ProcessingOutcome::Success => {
                    assert(e == lm + 2);
                    assert(is_put_ok(post.log[lm + 1], dest, kk));
                },
                ProcessingOutcome::DeleteFailed(_) => {
                    assert(e == lm + 2);
                    assert(is_put_ok(post.log[lm + 1], dest, kk));
                },
                _ => {},
            }
        }
    }

    // The source bucket stays accounted for.
    assert forall|k: Seq<char>| #[trigger]
        post.objects.contains_key((source, k)) <==> (pre.objects.contains_key((source, k))
            && !succeeded_before(kv, outcomes.push(o), idx + 1, k)) by {
        if succeeded_before(kv, outcomes.push(o), idx + 1, k) {
            let i = choose|i: int|
                0 <= i < idx + 1 && kv[i] == k && (#[trigger] outcomes.push(o)[i]) is Success;
            if i < idx {
                assert(outcomes[i] is Success);
                assert(succeeded_before(kv, outcomes, idx, k));
            }
        }
        if succeeded_before(kv, outcomes, idx, k) {
            let i = choose|i: int|
                0 <= i < idx && kv[i] == k && (#[trigger] outcomes[i]) is Success;
            assert(outcomes.push(o)[i] is Success);
            assert(succeeded_before(kv, outcomes.push(o), idx + 1, k));
        }
        if o is Success && k == kk {
            assert(outcomes.push(o)[idx] is Success);
            assert(succeeded_before(kv, outcomes.push(o), idx + 1, k));
        }
    }
    assert forall|k: Seq<char>| #[trigger]
        post.objects.contains_key((source, k)) implies post.objects[(source, k)]
        == pre.objects[(source, k)] by {
        assert(mid.objects.contains_key((source, k)));
    }

    // The destination bucket stays accounted for: an overwrite of the same
    // key stores the same ciphertext again, since the source bytes were
    // still unchanged when they were fetched.
    assert forall|i: int|
        0 <= i < idx + 1 && stored_outcome(#[trigger] outcomes.push(o)[i]) implies (
    pre.objects.contains_key((source, kv[i])) && post.objects.contains_key((dest, kv[i]))
        && post.objects[(dest, kv[i])] == ciphertext_of(m, pre.objects[(source, kv[i])])) by {
        if i < idx {
            assert(stored_outcome(outcomes[i]));
            if stored_outcome(o) && kv[i] == kk {
                assert(mid.objects[(source, kk)] == pre.objects[(source, kk)]);
            }
        } else {
            assert(outcomes.push(o)[idx] == o);
            assert(mid.objects.contains_key((source, kk)));
            assert(mid.objects[(source, kk)] == pre.objects[(source, kk)]);
        }
    }

    // Every processed key keeps a witnessing call in the log.
    assert forall|i: int| 0 <= i <= idx implies outcome_witnessed(
        post.log,
        lo,
        source,
        dest,
        kv[i],
        #[trigger] outcomes.push(o)[i],
    ) by {
        if i < idx {
            lemma_witness_extends(mid.log, post.log, lo, source, dest, kv[i], outcomes[i]);
        } else {
            match o {
                ProcessingOutcome::Success => {
                    assert(is_delete(post.log[lm + 2], source, kk, true));
                },
                ProcessingOutcome::FetchFailed(_) => {
                    assert(is_get(post.log[lm], source, kk, false));
                },
                ProcessingOutcome::EncryptFailed(_) => {
                    assert(is_get(post.log[lm], source, kk, true));
                },
                ProcessingOutcome::StoreFailed(_) => {
                    assert(is_put_to(post.log[lm + 1], dest, kk, false));
                },
                ProcessingOutcome::DeleteFailed(_) => {
                    assert(is_delete(post.log[lm + 2], source, kk, false));
                },
            }
        }
    }
}

/// Runs one batch: processes every key, in input order, through fetch,
/// encrypt, store, delete, under the one (key, nonce) pair of this run, and
/// folds the outcomes into a summary. One key's failure never aborts the
/// others. The contract accounts for the whole run: the source bucket loses
/// exactly the keys that succeeded, every stored ciphertext is the
/// encryption of the object's original bytes, a delete is only ever issued
/// after a successful store of the same key, and an empty batch performs no
/// storage call at all.
pub fn run<T: GetFile + PutFile + DeleteFile>(
    client: &mut T,
    source_bucket: &str,
    dest_bucket: &str,
    keys: &Vec<String>,
    material: &EncryptionMaterial,
) -> (summary: BatchSummary)
    requires
        material.wf(),
        source_bucket@ != dest_bucket@,
    ensures
        summary.outcomes@.len() == keys@.len(),
        summary.has_failures == any_failure(summary.outcomes@),
        summary.key_hex@ == hex_of(material.key@),
        summary.nonce_hex@ == hex_of(material.nonce@),
        log_extends(old(client).state().log, final(client).state().log),
        final(client).state().log == old(client).state().log + batch_events(
            old(client).state().objects,
            source_bucket@,
            dest_bucket@,
            key_views(keys@),
            summary.outcomes@,
            *material,
            keys@.len() as int,
        ),
        forall|e: int|
            old(client).state().log.len() <= e < final(client).state().log.len()
                ==> confined_event(
                #[trigger] final(client).state().log[e],
                source_bucket@,
                dest_bucket@,
                key_views(keys@),
            ),
        deletes_follow_stores(
            final(client).state().log,
            old(client).state().log.len() as int,
            source_bucket@,
            dest_bucket@,
        ),
        source_accounted(
            old(client).state().objects,
            final(client).state().objects,
            source_bucket@,
            key_views(keys@),
            summary.outcomes@,
            keys@.len() as int,
        ),
        dest_accounted(
            old(client).state().objects,
            final(client).state().objects,
            source_bucket@,
            dest_bucket@,
            key_views(keys@),
            summary.outcomes@,
            keys@.len() as int,
            *material,
        ),
        forall|i: int|
            0 <= i < keys@.len() ==> outcome_witnessed(
                final(client).state().log,
                old(client).state().log.len() as int,
                source_bucket@,
                dest_bucket@,
                keys@[i]@,
                #[trigger] summary.outcomes@[i],
            ),
        forall|i: int|
            0 <= i < keys@.len() && (#[trigger] summary.outcomes@[i]) is Success ==> (final(client).state().objects.contains_key((dest_bucket@, keys@[i]@)) && !final(client).state().objects.contains_key((source_bucket@, keys@[i]@))),
        forall|i: int|
            0 <= i < keys@.len() && (#[trigger] summary.outcomes@[i]).at_most_store() && (forall|
                j: int,
            |
                0 <= j < keys@.len() && keys@[j]@ == keys@[i]@ ==> !((
                #[trigger] summary.outcomes@[j]) is Success)) ==> ((final(client).state().objects.contains_key((source_bucket@, keys@[i]@)) <==> old(client).state().objects.contains_key((source_bucket@, keys@[i]@))) && (old(client).state().objects.contains_key((source_bucket@, keys@[i]@)) ==> final(client).state().objects[(source_bucket@, keys@[i]@)] == old(client).state().objects[(
                source_bucket@,
                keys@[i]@,
            )])),
        keys@.len() == 0 ==> (final(client).state().log == old(client).state().log && final(client).state().objects == old(client).state().objects && !summary.has_failures),
{
    let ghost pre = client.state();
    let ghost kv = key_views(keys@);
    let mut outcomes: Vec<ProcessingOutcome> = Vec::new();
    let mut idx: usize = 0;
    while idx < keys.len()
        invariant
            material.wf(),
            source_bucket@ != dest_bucket@,
            pre == old(client).state(),
            kv == key_views(keys@),
            idx <= keys@.len(),
            outcomes@.len() == idx,
            log_extends(pre.log, client.state().log),
            client.state().log == pre.log + batch_events(
                pre.objects,
                source_bucket@,
                dest_bucket@,
                kv,
                outcomes@,
                *material,
                idx as int,
            ),
            deletes_follow_stores(
                client.state().log,
                pre.log.len() as int,
                source_bucket@,
                dest_bucket@,
            ),
            source_accounted(
                pre.objects,
                client.state().objects,
                source_bucket@,
                kv,
                outcomes@,
                idx as int,
            ),
            dest_accounted(
                pre.objects,
                client.state().objects,
                source_bucket@,
                dest_bucket@,
                kv,
                outcomes@,
                idx as int,
                *material,
            ),
            forall|i: int|
                0 <= i < idx ==> outcome_witnessed(
                    client.state().log,
                    pre.log.len() as int,
                    source_bucket@,
                    dest_bucket@,
                    kv[i],
                    #[trigger] outcomes@[i],
                ),
            idx == 0 ==> client.state().log == pre.log && client.state().objects == pre.objects,
        decreases keys@.len() - idx,
    {
        let ghost mid = client.state();
        let ghost out_pre = outcomes@;
        assert(kv[idx as int] == keys@[idx as int]@);
        let o = process_one_key(client, source_bucket, dest_bucket, keys[idx].as_str(), material);
        proof {
            lemma_run_step(
                pre,
                mid,
                client.state(),
                source_bucket@,
                dest_bucket@,
                kv,
                out_pre,
                idx as int,
                *material,
                o,
            );
            lemma_batch_events_extend(
                pre.objects,
                source_bucket@,
                dest_bucket@,
                kv,
                out_pre,
                o,
                *material,
                idx as int,
            );
            let kk = kv[idx as int];
            if !(o is FetchFailed) {
                assert(mid.objects.contains_key((source_bucket@, kk)));
                assert(mid.objects[(source_bucket@, kk)] == pre.objects[(source_bucket@, kk)]);
            }
            let seg = pass_events(
                source_bucket@,
                dest_bucket@,
                kk,
                ciphertext_of(*material, pre.objects[(source_bucket@, kk)]),
                o,
            );
            assert(client.state().log =~= mid.log + seg);
            assert(batch_events(
                pre.objects,
                source_bucket@,
                dest_bucket@,
                kv,
                out_pre.push(o),
                *material,
                idx + 1,
            ) == batch_events(
                pre.objects,
                source_bucket@,
                dest_bucket@,
                kv,
                out_pre,
                *material,
                idx as int,
            ) + seg);
            assert(pre.log + (batch_events(
                pre.objects,
                source_bucket@,
                dest_bucket@,
                kv,
                out_pre,
                *material,
                idx as int,
            ) + seg) =~= (pre.log + batch_events(
                pre.objects,
                source_bucket@,
                dest_bucket@,
                kv,
                out_pre,
                *material,
                idx as int,
            )) + seg);
        }
        outcomes.push(o);
        idx = idx + 1;
    }
    proof {
        lemma_run_conclusions(pre, client.state(), source_bucket@, kv, outcomes@);
        assert forall|i: int| 0 <= i < keys@.len() implies kv[i] == keys@[i]@ by {}
        lemma_batch_events_confined(
            pre.objects,
            source_bucket@,
            dest_bucket@,
            kv,
            outcomes@,
            *material,
            idx as int,
        );
        assert forall|e: int|
            pre.log.len() <= e < client.state().log.len() implies confined_event(
            #[trigger] client.state().log[e],
            source_bucket@,
            dest_bucket@,
            key_views(keys@),
        ) by {
            assert(client.state().log[e] == batch_events(
                pre.objects,
                source_bucket@,
                dest_bucket@,
                kv,
                outcomes@,
                *material,
                idx as int,
            )[e - pre.log.len()]);
        }
    }
    summarize(outcomes, material)
}

/// What the per-run accounting says of each single key: a successful key's
/// ciphertext is in the destination bucket and its original is gone from
/// the source bucket, and a key that never reached a successful store (under
/// any of its occurrences) left its source object untouched.
proof fn lemma_run_conclusions(
    pre: StorageState,
    post: StorageState,
    source: Seq<char>,
    kv: Seq<Seq<char>>,
    outcomes: Seq<ProcessingOutcome>,
)
    requires
        outcomes.len() == kv.len(),
        source_accounted(pre.objects, post.objects, source, kv, outcomes, kv.len() as int),
    ensures
        forall|i: int|
            0 <= i < kv.len() && (#[trigger] outcomes[i]) is Success ==> !post.objects.contains_key(
                (source, kv[i]),
            ),
        forall|i: int|
            0 <= i < kv.len() && (#[trigger] outcomes[i]).at_most_store() && (forall|j: int|
                0 <= j < kv.len() && kv[j] == kv[i] ==> !((#[trigger] outcomes[j]) is Success))
                ==> ((post.objects.contains_key((source, kv[i])) <==> pre.objects.contains_key(
                (source, kv[i]),
            )) && (pre.objects.contains_key((source, kv[i])) ==> post.objects[(source, kv[i])]
                == pre.objects[(source, kv[i])])),
{
    let n = kv.len() as int;
    assert forall|i: int|
        0 <= i < n && (#[trigger] outcomes[i]) is Success implies !post.objects.contains_key(
        (source, kv[i]),
    ) by {
        assert(succeeded_before(kv, outcomes, n, kv[i]));
    }
    assert forall|i: int|
        0 <= i < n && (#[trigger] outcomes[i]).at_most_store() && (forall|j: int|
            0 <= j < n && kv[j] == kv[i] ==> !((#[trigger] outcomes[j]) is Success)) implies ((
    post.objects.contains_key((source, kv[i])) <==> pre.objects.contains_key((source, kv[i])))
        && (pre.objects.contains_key((source, kv[i])) ==> post.objects[(source, kv[i])]
        == pre.objects[(source, kv[i])])) by {
        if succeeded_before(kv, outcomes, n, kv[i]) {
            let j = choose|j: int|
                0 <= j < n && kv[j] == kv[i] && (#[trigger] outcomes[j]) is Success;
            assert(false);
        }
        assert(post.objects.contains_key((source, kv[i])) <==> pre.objects.contains_key(
            (source, kv[i]),
        ));
    }
}

/// What a whole-bucket run guarantees once the listing succeeded: the keys
/// handed to the batch were exactly the source bucket's keys, and from the
/// state right after the listing the batch meets the run accounting.
pub open spec fn bucket_run_post(
    pre: StorageState,
    post: StorageState,
    source: Seq<char>,
    dest: Seq<char>,
    m: EncryptionMaterial,
    summary: BatchSummary,
    ks: Seq<Seq<char>>,
) -> bool {
    let lo = pre.log.len() + 1;
    &&& crate::storage::listing_of(pre.objects, source, ks)
    &&& summary.outcomes@.len() == ks.len()
    &&& summary.has_failures == any_failure(summary.outcomes@)
    &&& post.log.len() >= lo
    &&& post.log[pre.log.len() as int] == (StorageEvent::List { bucket: source, ok: true })
    &&& log_extends(pre.log, post.log)
    &&& post.log == pre.log.push(StorageEvent::List { bucket: source, ok: true }) + batch_events(
        pre.objects,
        source,
        dest,
        ks,
        summary.outcomes@,
        m,
        ks.len() as int,
    )
    &&& forall|e: int|
        lo <= e < post.log.len() ==> confined_event(#[trigger] post.log[e], source, dest, ks)
    &&& deletes_follow_stores(post.log, lo as int, source, dest)
    &&& source_accounted(pre.objects, post.objects, source, ks, summary.outcomes@, ks.len() as int)
    &&& dest_accounted(
        pre.objects,
        post.objects,
        source,
        dest,
        ks,
        summary.outcomes@,
        ks.len() as int,
        m,
    )
    &&& forall|i: int|
        0 <= i < ks.len() ==> outcome_witnessed(
            post.log,
            lo as int,
            source,
            dest,
            ks[i],
            #[trigger] summary.outcomes@[i],
        )
}

/// Runs the pipeline over a whole bucket: lists the source bucket, then
/// processes every listed key as [`run`] does. A failed listing aborts the
/// run before any object is touched; a successful run is accounted for over
/// the listed keys, which are exactly the keys the source bucket held.
pub fn run_bucket<T: GetFile + PutFile + DeleteFile + ListFiles>(
    client: &mut T,
    source_bucket: &str,
    dest_bucket: &str,
    material: &EncryptionMaterial,
) -> (r: Result<BatchSummary, String>)
    requires
        material.wf(),
        source_bucket@ != dest_bucket@,
    ensures
        r is Err ==> final(client).state().objects == old(client).state().objects && final(client).state().log == old(client).state().log.push(
            StorageEvent::List { bucket: source_bucket@, ok: false },
        ),
        r is Ok ==> r.unwrap().key_hex@ == hex_of(material.key@) && r.unwrap().nonce_hex@ == hex_of(
            material.nonce@,
        ) && exists|ks: Seq<Seq<char>>|
            #[trigger] bucket_run_post(
                old(client).state(),
                final(client).state(),
                source_bucket@,
                dest_bucket@,
                *material,
                r.unwrap(),
                ks,
            ),
{
    let ghost pre = client.state();
    let keys = match client.list_files(source_bucket) {
        Ok(keys) => keys,
        Err(msg) => {
            return Err(msg);
        },
    };
    let summary = run(client, source_bucket, dest_bucket, &keys, material);
    proof {
        let ks = key_views(keys@);
        assert(bucket_run_post(
            pre,
            client.state(),
            source_bucket@,
            dest_bucket@,
            *material,
            summary,
            ks,
        ));
    }
    Ok(summary)
}

/// The appended event concerns the record's own objects: it carries the
/// record's key and lies in the record's bucket or in that bucket's derived
/// "-encrypted" sibling.
pub open spec fn event_belongs(e: StorageEvent, r: EventRecord) -> bool {
    crate::storage::event_key(e) == r.key@ && (crate::storage::event_bucket(e) == r.bucket@
        || crate::storage::event_bucket(e) == derived_of(r.bucket@))
}

/// The event belongs to one of the records in `kr`.
pub open spec fn belongs_to_some(e: StorageEvent, kr: Seq<EventRecord>) -> bool {
    exists|i: int| 0 <= i < kr.len() && #[trigger] event_belongs(e, kr[i])
}

/// Every delete in the log segment from `lo` on follows, within the same
/// segment, a successful store of the same key into the deleted bucket's
/// derived "-encrypted" sibling.
pub open spec fn deletes_follow_derived_stores(log: Seq<StorageEvent>, lo: int) -> bool {
    forall|e: int|
        lo <= e < log.len() && (#[trigger] log[e]) is Delete ==> exists|p: int|
            lo <= p < e && is_put_ok(
                #[trigger] log[p],
                derived_of(crate::storage::event_bucket(log[e])),
                crate::storage::event_key(log[e]),
            )
}

/// Runs the pipeline for a batch of inbound event records: every record
/// announcing an object creation is processed from its own bucket into that
/// bucket's derived "-encrypted" sibling, under this run's one (key, nonce)
/// pair. Any other record is skipped silently, never treated as a failure,
/// and causes no storage call: every appended call belongs to a kept record.
pub fn run_records<T: GetFile + PutFile + DeleteFile>(
    client: &mut T,
    records: &Vec<EventRecord>,
    material: &EncryptionMaterial,
) -> (summary: BatchSummary)
    requires
        material.wf(),
    ensures
        summary.outcomes@.len() == creation_records_of(records@).len(),
        summary.has_failures == any_failure(summary.outcomes@),
        summary.key_hex@ == hex_of(material.key@),
        summary.nonce_hex@ == hex_of(material.nonce@),
        log_extends(old(client).state().log, final(client).state().log),
        forall|e: int|
            old(client).state().log.len() <= e < final(client).state().log.len()
                ==> belongs_to_some(
                #[trigger] final(client).state().log[e],
                creation_records_of(records@),
            ),
        deletes_follow_derived_stores(
            final(client).state().log,
            old(client).state().log.len() as int,
        ),
        forall|i: int|
            0 <= i < creation_records_of(records@).len() ==> outcome_witnessed(
                final(client).state().log,
                old(client).state().log.len() as int,
                creation_records_of(records@)[i].bucket@,
                derived_of(creation_records_of(records@)[i].bucket@),
                creation_records_of(records@)[i].key@,
                #[trigger] summary.outcomes@[i],
            ),
        creation_records_of(records@).len() == 0 ==> (final(client).state().log == old(
            client,
        ).state().log && final(client).state().objects == old(client).state().objects
            && !summary.has_failures),
{
    let kept = filter_creation_records(records);
    let ghost pre = client.state();
    let ghost kr = creation_records_of(records@);
    let mut outcomes: Vec<ProcessingOutcome> = Vec::new();
    let mut idx: usize = 0;
    while idx < kept.len()
        invariant
            material.wf(),
            kept@ == kr,
            kr == creation_records_of(records@),
            idx <= kept@.len(),
            outcomes@.len() == idx,
            pre == old(client).state(),
            log_extends(pre.log, client.state().log),
            forall|e: int|
                pre.log.len() <= e < client.state().log.len() ==> belongs_to_some(
                    #[trigger] client.state().log[e],
                    kr,
                ),
            deletes_follow_derived_stores(client.state().log, pre.log.len() as int),
            forall|i: int|
                0 <= i < idx ==> outcome_witnessed(
                    client.state().log,
                    pre.log.len() as int,
                    kr[i].bucket@,
                    derived_of(kr[i].bucket@),
                    kr[i].key@,
                    #[trigger] outcomes@[i],
                ),
            idx == 0 ==> client.state().log == pre.log && client.state().objects == pre.objects,
        decreases kept@.len() - idx,
    {
        let ghost mid = client.state();
        let dest = derived_bucket(kept[idx].bucket.as_str());
        let o = process_one_key(
            client,
            kept[idx].bucket.as_str(),
            dest.as_str(),
            kept[idx].key.as_str(),
            material,
        );
        proof {
            lemma_records_step(pre, mid, client.state(), kr, outcomes@, idx as int, *material, o);
        }
        outcomes.push(o);
        idx = idx + 1;
    }
    summarize(outcomes, material)
}

/// One step of the record loop preserves its accounting: every appended
/// call belongs to the record just processed, and its delete, if any,
/// follows the successful store into the record's derived bucket.
proof fn lemma_records_step(
    pre: StorageState,
    mid: StorageState,
    post: StorageState,
    kr: Seq<EventRecord>,
    outcomes: Seq<ProcessingOutcome>,
    idx: int,
    m: EncryptionMaterial,
    o: ProcessingOutcome,
)
    requires
        0 <= idx < kr.len(),
        outcomes.len() == idx,
        log_extends(pre.log, mid.log),
        forall|e: int|
            pre.log.len() <= e < mid.log.len() ==> belongs_to_some(#[trigger] mid.log[e], kr),
        deletes_follow_derived_stores(mid.log, pre.log.len() as int),
        forall|i: int|
            0 <= i < idx ==> outcome_witnessed(
                mid.log,
                pre.log.len() as int,
                kr[i].bucket@,
                derived_of(kr[i].bucket@),
                kr[i].key@,
                #[trigger] outcomes[i],
            ),
        process_post(mid, post, kr[idx].bucket@, derived_of(kr[idx].bucket@), kr[idx].key@, m, o),
    ensures
        log_extends(pre.log, post.log),
        forall|e: int|
            pre.log.len() <= e < post.log.len() ==> belongs_to_some(#[trigger] post.log[e], kr),
        deletes_follow_derived_stores(post.log, pre.log.len() as int),
        forall|i: int|
            0 <= i <= idx ==> outcome_witnessed(
                post.log,
                pre.log.len() as int,
                kr[i].bucket@,
                derived_of(kr[i].bucket@),
                kr[i].key@,
                #[trigger] outcomes.push(o)[i],
            ),
{
    let lo = pre.log.len() as int;
    let lm = mid.log.len() as int;
    let src = kr[idx].bucket@;
    let dst = derived_of(src);
    let kk = kr[idx].key@;
    assert(log_extends(mid.log, post.log));
    assert(log_extends(pre.log, post.log));

    assert forall|e: int| lo <= e < post.log.len() implies belongs_to_some(
        #[trigger] post.log[e],
        kr,
    ) by {
        if e < lm {
            assert(post.log[e] == mid.log[e]);
            let i = choose|i: int| 0 <= i < kr.len() && #[trigger] event_belongs(mid.log[e], kr[i]);
            assert(event_belongs(post.log[e], kr[i]));
        } else {
            match o {
                ProcessingOutcome::FetchFailed(_) => {
                    assert(e == lm);
                    assert(event_belongs(post.log[lm], kr[idx]));
                },
                ProcessingOutcome::EncryptFailed(_) => {
                    assert(e == lm);
                    assert(event_belongs(post.log[lm], kr[idx]));
                },
                ProcessingOutcome::StoreFailed(_) => {
                    assert(e == lm || e == lm + 1);
                    assert(event_belongs(post.log[lm], kr[idx]));
                    assert(event_belongs(post.log[lm + 1], kr[idx]));
                },
                ProcessingOutcome::DeleteFailed(_) => {
                    assert(e == lm || e == lm + 1 || e == lm + 2);
                    assert(event_belongs(post.log[lm], kr[idx]));
                    assert(event_belongs(post.log[lm + 1], kr[idx]));
                    assert(event_belongs(post.log[lm + 2], kr[idx]));
                },
                ProcessingOutcome::Success => {
                    assert(e == lm || e == lm + 1 || e == lm + 2);
                    assert(event_belongs(post.log[lm], kr[idx]));
                    assert(event_belongs(post.log[lm + 1], kr[idx]));
                    assert(event_belongs(post.log[lm + 2], kr[idx]));
                },
            }
        }
    }

    assert forall|e: int| lo <= e < post.log.len() && (#[trigger] post.log[e]) is Delete implies
        exists|p: int|
            lo <= p < e && is_put_ok(
                #[trigger] post.log[p],
                derived_of(crate::storage::event_bucket(post.log[e])),
                crate::storage::event_key(post.log[e]),
            ) by {
        if e < lm {
            assert(post.log[e] == mid.log[e]);
            let p = choose|p: int|
                lo <= p < e && is_put_ok(
                    #[trigger] mid.log[p],
                    derived_of(crate::storage::event_bucket(mid.log[e])),
                    crate::storage::event_key(mid.log[e]),
                );
            assert(post.log[p] == mid.log[p]);
            assert(is_put_ok(
                post.log[p],
                derived_of(crate::storage::event_bucket(post.log[e])),
                crate::storage::event_key(post.log[e]),
            ));
        } else {
            match o {
                ProcessingOutcome::Success => {
                    assert(e == lm + 2);
                    assert(crate::storage::event_bucket(post.log[e]) == src);
                    assert(is_put_ok(post.log[lm + 1], dst, kk));
                },
                ProcessingOutcome::DeleteFailed(_) => {
                    assert(e == lm + 2);
                    assert(crate::storage::event_bucket(post.log[e]) == src);
                    assert(is_put_ok(post.log[lm + 1], dst, kk));
                },
                _ => {},
            }
        }
    }

    assert forall|i: int| 0 <= i <= idx implies outcome_witnessed(
        post.log,
        lo,
        kr[i].bucket@,
        derived_of(kr[i].bucket@),
        kr[i].key@,
        #[trigger] outcomes.push(o)[i],
    ) by {
        if i < idx {
            lemma_witness_extends(
                mid.log,
                post.log,
                lo,
                kr[i].bucket@,
                derived_of(kr[i].bucket@),
                kr[i].key@,
                outcomes[i],
            );
        } else {
            match o {
                ProcessingOutcome::Success => {
                    assert(is_delete(post.log[lm + 2], src, kk, true));
                },
                ProcessingOutcome::FetchFailed(_) => {
                    assert(is_get(post.log[lm], src, kk, false));
                },
                ProcessingOutcome::EncryptFailed(_) => {
                    assert(is_get(post.log[lm], src, kk, true));
                },
                ProcessingOutcome::StoreFailed(_) => {
                    assert(is_put_to(post.log[lm + 1], dst, kk, false));
                },
                ProcessingOutcome::DeleteFailed(_) => {
                    assert(is_delete(post.log[lm + 2], src, kk, false));
                },
            }
        }
    }
}

/// A call witnessed in a log segment stays witnessed when the log grows.
proof fn lemma_witness_extends(
    pre: Seq<StorageEvent>,
    post: Seq<StorageEvent>,
    lo: int,
    source: Seq<char>,
    dest: Seq<char>,
    key: Seq<char>,
    o: ProcessingOutcome,
)
    requires
        log_extends(pre, post),
        outcome_witnessed(pre, lo, source, dest, key, o),
        0 <= lo,
    ensures
        outcome_witnessed(post, lo, source, dest, key, o),
{
    match o {
        ProcessingOutcome::Success => {
            let e = choose|e: int| lo <= e < pre.len() && is_delete(#[trigger] pre[e], source, key, true);
            assert(is_delete(post[e], source, key, true));
        },
        ProcessingOutcome::FetchFailed(_) => {
            let e = choose|e: int| lo <= e < pre.len() && is_get(#[trigger] pre[e], source, key, false);
            assert(is_get(post[e], source, key, false));
        },
        ProcessingOutcome::EncryptFailed(_) => {
            let e = choose|e: int| lo <= e < pre.len() && is_get(#[trigger] pre[e], source, key, true);
            assert(is_get(post[e], source, key, true));
        },
        ProcessingOutcome::StoreFailed(_) => {
            let e = choose|e: int| lo <= e < pre.len() && is_put_to(#[trigger] pre[e], dest, key, false);
            assert(is_put_to(post[e], dest, key, false));
        },
        ProcessingOutcome::DeleteFailed(_) => {
            let e = choose|e: int| lo <= e < pre.len() && is_delete(#[trigger] pre[e], source, key, false);
            assert(is_delete(post[e], source, key, false));
        },
    }
}

} // verus!
