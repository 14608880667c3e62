//! Orchestration core for confidential score processing.
//!
//! A client submits an encrypted block of up to eight scores; a confidential
//! compute cluster sums them and returns a signed encrypted result; the core
//! verifies the proof on the callback, stores the result for the submitting
//! owner, and emits a result-ready event. The core never inspects ciphertext;
//! it only validates requests, tracks job state, authenticates callbacks, and
//! persists verified results.

pub mod circuit;
pub mod error;
pub mod protocol;
pub mod types;
