//! An event-triggered encryption pipeline over a bucket/key object store:
//! each run generates one (key, nonce) pair, then for every object key it
//! fetches the object, encrypts it with an authenticated cipher, stores the
//! ciphertext in a destination bucket, and deletes the plaintext original
//! only after the ciphertext was stored.

pub mod cipher;
pub mod events;
pub mod material;
pub mod memory;
pub mod outcome;
pub mod pipeline;
pub mod storage;
