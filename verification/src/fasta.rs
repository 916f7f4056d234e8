//! Input-size estimation for FASTA files. The file metadata itself is
//! read outside the library; the estimate from a file's byte length is
//! computed here.

use vstd::prelude::*;

verus! {

/// A stream of sequences read from FASTA files.
pub struct FastaFileSequencesStream {
    /// How many files the stream has been pointed at.
    pub opened_files: u64,
}

impl FastaFileSequencesStream {
    pub fn new() -> (r: Self)
        ensures
            r.opened_files == 0,
    {
        FastaFileSequencesStream { opened_files: 0 }
    }

    /// Estimated number of bases in a file of `file_len` bytes: the byte
    /// count itself, halved for a compressed file. The one-half
    /// compressed-to-uncompressed ratio is a crude fixed guess, kept as a
    /// tunable.
    pub fn get_estimated_bases_count(file_len: u64, compressed: bool) -> (r: u64)
        ensures
            r == if compressed {
                file_len / 2
            } else {
                file_len
            },
    {
        if compressed {
            file_len / 2
        } else {
            file_len
        }
    }
}

} // verus!
