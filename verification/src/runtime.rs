//! The counting and query runtime: the sieve, the archive formats, the
//! checkpoint format and the decisions of the counting loop.
use vstd::prelude::*;

pub mod checkpoint;
pub mod count;
pub mod counting;
pub mod exact;
pub mod ledger;
pub mod little_endian;
pub mod names;
pub mod numtheory;
pub mod query;
pub mod resume;
pub mod sieve;
pub mod text;
pub mod wheel210;

verus! {

#[derive(Clone, Copy, Debug, Eq, PartialEq, Structural)]
pub enum Backend {
    Cpu,
    Gpu,
    Hybrid,
}

#[derive(Clone, Copy, Debug, Eq, PartialEq)]
pub enum ResumeMode {
    Auto,
    Always,
    Never,
}

#[derive(Clone, Copy, Debug, Eq, PartialEq)]
pub enum ArchiveMode {
    Both,
    Wheel210,
}

/// What can be wrong with the bytes or the text of an archive.
#[derive(Clone, Copy, Debug, Eq, PartialEq)]
pub enum ArchiveError {
    /// The chunk is too short for its header or does not start with its magic bytes.
    ChunkHeader,
    /// zstd refused to compress a chunk.
    Compress,
    /// zstd refused to decompress a chunk.
    Decompress,
    /// The decompressed bitset does not have the length that the header records.
    RawSize { got: u64, expected: u64 },
    /// A varint runs past the end of the chunk.
    VarintEof,
    /// A varint has more than ten bytes of payload.
    VarintTooLong,
    /// A column of an index line is not a decimal `u64`.
    IndexField,
}

#[derive(Clone, Copy, Debug, Eq, PartialEq)]
pub enum QuerySource {
    Wheel210Archive,
    E8MaskFallback,
}

impl QuerySource {
    pub fn as_str(&self) -> (name: &'static str)
        ensures
            name@ == (match self {
                QuerySource::Wheel210Archive => "wheel210_archive"@,
                QuerySource::E8MaskFallback => "e8_mask_fallback"@,
            }),
    {
        match self {
            QuerySource::Wheel210Archive => "wheel210_archive",
            QuerySource::E8MaskFallback => "e8_mask_fallback",
        }
    }
}

#[derive(Clone, Copy, Debug, Eq, PartialEq)]
pub struct IsPrimeAnswer {
    pub is_prime: bool,
    pub source: QuerySource,
}

#[derive(Clone, Copy, Debug, Eq, PartialEq)]
pub struct NextPrimeAnswer {
    pub next_prime: u64,
    pub source: QuerySource,
}

} // verus!
