//! Everything that can go wrong during an install or a cleanup.

use vstd::prelude::*;

verus! {

/// Install-time failures. All of them surface from an install; a cleanup is
/// best-effort and only logs them.
#[derive(Debug, PartialEq, Eq)]
pub enum Error {
    /// Total extensions exceed the compile-time slot ceiling (the payload is
    /// that ceiling).
    SlotsExhausted(usize),
    /// A filesystem entry expected mid-install was absent (racing external
    /// deletion).
    MissingPinComponent(String),
    /// A filesystem syscall failure, by message.
    Io(String),
    /// Byte-code verifier rejection, map creation failure or attach failure,
    /// by message.
    KernelLoad(String),
    /// The named cross-process lock was contended beyond tolerance.
    LockUnavailable,
    /// The caller's program sets are invalid: no programs, a duplicate
    /// `(ebpf_id, program_name)`, an `ebpf_id` with a forbidden character.
    InvalidConfig(String),
}

} // verus!
