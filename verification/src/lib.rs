//! Guest-program profiler for the OpenVM ray-tracer runner.
//!
//! A [`FoldedProfile`] consumes the stream of guest program counters one
//! instruction at a time, keeps a shadow call stack over the functions of
//! the guest ELF and folds every instruction into a call-path trie. The
//! result is written in the folded-stack text format (one line per call
//! path, root first: `frame0; frame1; ...; frameN <count>`).
//!
//! Besides the profiler, [`public_values`] holds the runner's checks on
//! what the guest revealed: where its image lies and the SHA-256 digest of
//! that image.

pub mod profile;
pub mod symbols;
pub mod folded;
pub mod laws;
pub mod public_values;

pub use profile::{FoldedProfile, Func, ProfileError};
