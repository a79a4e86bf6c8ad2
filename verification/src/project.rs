//! The limits under which files of a project are read as text.

use vstd::prelude::*;

verus! {

/// How many bytes at the start of a file decide whether it is binary.
pub const BINARY_SNIFF_BYTES: usize = 8192;

/// Files above this size are not searched or edited as text.
pub const MAX_GREP_FILE_BYTES: u64 = 4_194_304;

/// Documents above this size are not opened. They may be larger than text files:
/// ordinary spreadsheets and slides are.
pub const MAX_DOC_FILE_BYTES: u64 = 67_108_864;

/// A NUL stands among the bytes at the start.
pub open spec fn has_early_nul(bytes: Seq<u8>) -> bool {
    exists|i: int| 0 <= i < bytes.len() && i < BINARY_SNIFF_BYTES && bytes[i] == 0
}

/// Whether the bytes at the start of a file give it away as binary.
pub fn looks_binary(bytes: &[u8]) -> (r: bool)
    ensures
        r == has_early_nul(bytes@),
{
    let mut i: usize = 0;
    while i < bytes.len() && i < BINARY_SNIFF_BYTES
        invariant
            i <= bytes@.len(),
            forall|j: int| 0 <= j < i ==> bytes@[j] != 0,
        decreases bytes@.len() - i,
    {
        if bytes[i] == 0 {
            return true;
        }
        i += 1;
    }
    false
}

/// A size that is known and within the cap.
pub open spec fn within(len: Option<u64>, cap: u64) -> bool {
    len is Some && len->0 <= cap
}

/// Whether a file may be read: its size is known and within the cap.
pub fn may_read(len: Option<u64>, cap: u64) -> (r: bool)
    ensures
        r == within(len, cap),
{
    match len {
        Some(n) => n <= cap,
        None => false,
    }
}

} // verus!
