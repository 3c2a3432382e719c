//! A binary min-heap over integer scores, together with a re-initializable
//! single-instance adapter and a few scalar marshalling helpers.
//!
//! The heap keeps the smallest score at the root; `push` restores the heap
//! invariant by sifting up, `pop` by sinking down. The adapter owns at most
//! one heap, absorbs calls made before `init`, and signals "no value" with a
//! sentinel score, since its callers can only exchange plain scalars.

pub mod adapter;
pub mod heap;
pub mod marshal;
