//! Per-key processing outcomes and their aggregation into a batch summary.

use vstd::prelude::*;

use crate::material::EncryptionMaterial;
use crate::material::hex_of;

verus! {

/// The terminal result of processing one object key. A key aborts on its
/// first failing stage; the variant names the stage that failed and carries
/// the underlying reason.
pub enum ProcessingOutcome {
    Success,
    FetchFailed(String),
    EncryptFailed(String),
    StoreFailed(String),
    DeleteFailed(String),
}

impl ProcessingOutcome {
    pub fn is_success(&self) -> (b: bool)
        ensures
            b == (self is Success),
    {
        matches!(self, ProcessingOutcome::Success)
    }

    /// The key reached no further than the store attempt, so its source
    /// object was never deleted.
    pub open spec fn at_most_store(&self) -> bool {
        self is FetchFailed || self is EncryptFailed || self is StoreFailed
    }
}

/// Whether any outcome of the batch is a failure.
pub open spec fn any_failure(outcomes: Seq<ProcessingOutcome>) -> bool {
    exists|i: int| 0 <= i < outcomes.len() && !(outcomes[i] is Success)
}

/// The aggregate of one run: every per-key outcome, whether any of them
/// failed, and the hex-encoded key and nonce of the run's material, kept for
/// audit whatever the outcomes were.
pub struct BatchSummary {
    pub outcomes: Vec<ProcessingOutcome>,
    pub has_failures: bool,
    pub key_hex: String,
    pub nonce_hex: String,
}

/// Folds the per-key outcomes of one run into its summary.
pub fn summarize(outcomes: Vec<ProcessingOutcome>, material: &EncryptionMaterial) -> (s:
    BatchSummary)
    ensures
        s.outcomes@ == outcomes@,
        s.has_failures == any_failure(outcomes@),
        s.key_hex@ == hex_of(material.key@),
        s.nonce_hex@ == hex_of(material.nonce@),
{
    let mut has_failures = false;
    let mut i: usize = 0;
    while i < outcomes.len()
        invariant
            i <= outcomes@.len(),
            has_failures == exists|j: int| 0 <= j < i && !(outcomes@[j] is Success),
        decreases outcomes@.len() - i,
    {
        if !outcomes[i].is_success() {
            has_failures = true;
        }
        i = i + 1;
    }
    BatchSummary {
        outcomes,
        has_failures,
        key_hex: material.key_hex(),
        nonce_hex: material.nonce_hex(),
    }
}

} // verus!
