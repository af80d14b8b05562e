//! Inbound creation-event records: the event-driven trigger hands the
//! pipeline a batch of notifications, each naming an event type, a bucket
//! and a key. Only records announcing an object creation with a non-empty
//! bucket and key are acted on; the rest are skipped silently, never treated
//! as failures.

use vstd::prelude::*;

use vstd::string::StrSliceExecFns;
use vstd::string::StringExecFns;

verus! {

/// One inbound storage notification.
pub struct EventRecord {
    pub event_type: String,
    pub bucket: String,
    pub key: String,
}

/// A record to act on: its event type begins with "ObjectCreated" and it
/// names a non-empty bucket and key.
pub open spec fn is_creation_record(r: EventRecord) -> bool {
    &&& r.event_type@.len() >= "ObjectCreated"@.len()
    &&& r.event_type@.subrange(0, "ObjectCreated"@.len() as int) == "ObjectCreated"@
    &&& r.bucket@.len() > 0
    &&& r.key@.len() > 0
}

/// The records to act on, kept in arrival order.
pub open spec fn creation_records_of(rs: Seq<EventRecord>) -> Seq<EventRecord>
    decreases rs.len(),
{
    if rs.len() == 0 {
        rs
    } else if is_creation_record(rs.last()) {
        creation_records_of(rs.drop_last()).push(rs.last())
    } else {
        creation_records_of(rs.drop_last())
    }
}

/// Decides whether one record is to be acted on.
pub fn record_is_creation(r: &EventRecord) -> (b: bool)
    ensures
        b == is_creation_record(*r),
{
    let prefix: &str = "ObjectCreated";
    proof {
        reveal_strlit("ObjectCreated");
    }
    if r.bucket.as_str().is_empty() || r.key.as_str().is_empty() {
        return false;
    }
    let et: &str = r.event_type.as_str();
    let n = et.unicode_len();
    if n < 13 {
        return false;
    }
    let mut i: usize = 0;
    while i < 13
        invariant
            0 <= i <= 13,
            et@.len() >= 13,
            et@ == r.event_type@,
            prefix@ == "ObjectCreated"@,
            prefix@.len() == 13,
            forall|j: int| 0 <= j < i ==> et@[j] == prefix@[j],
        decreases 13 - i,
    {
        if et.get_char(i) != prefix.get_char(i) {
            assert(et@.subrange(0, 13) != prefix@) by {
                assert(et@.subrange(0, 13)[i as int] == et@[i as int]);
            }
            return false;
        }
        i = i + 1;
    }
    assert(et@.subrange(0, 13) =~= prefix@);
    true
}

/// Keeps, in arrival order, exactly the records to act on.
pub fn filter_creation_records(records: &Vec<EventRecord>) -> (out: Vec<EventRecord>)
    ensures
        out@ == creation_records_of(records@),
{
    let mut out: Vec<EventRecord> = Vec::new();
    let mut i: usize = 0;
    while i < records.len()
        invariant
            i <= records@.len(),
            out@ == creation_records_of(records@.take(i as int)),
        decreases records@.len() - i,
    {
        proof {
            assert(records@.take(i + 1).drop_last() =~= records@.take(i as int));
            assert(records@.take(i + 1).last() == records@[i as int]);
        }
        let r = &records[i];
        if record_is_creation(r) {
            let copy = EventRecord {
                event_type: r.event_type.clone(),
                bucket: r.bucket.clone(),
                key: r.key.clone(),
            };
            assert(copy == records@[i as int]);
            out.push(copy);
        }
        i = i + 1;
    }
    proof {
        assert(records@.take(records@.len() as int) =~= records@);
    }
    out
}

/// The name of the sibling bucket that holds a bucket's encrypted objects:
/// the bucket's own name with the fixed "-encrypted" suffix.
pub open spec fn derived_of(bucket: Seq<char>) -> Seq<char> {
    bucket + "-encrypted"@
}

/// The destination bucket derived from a source bucket by the fixed
/// "-encrypted" suffix. The result always differs from the source bucket,
/// as the pipeline's contracts require of the two buckets.
pub fn derived_bucket(source_bucket: &str) -> (r: String)
    ensures
        r@ == derived_of(source_bucket@),
        r@ != source_bucket@,
{
    proof {
        reveal_strlit("-encrypted");
    }
    let r = source_bucket.to_owned().concat("-encrypted");
    assert(r@.len() == source_bucket@.len() + 10);
    r
}

} // verus!
