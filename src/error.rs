use vstd::prelude::*;

verus! {

/// Every way a cache read can fail.
#[derive(Debug)]
pub enum CacheError {
    /// The expected cache file or directory is absent; carries the path that was tried.
    CacheNotFound(String),
    /// The archive `(index_id, archive_id)` is not in the metadata, its slot is empty,
    /// or its sector chain is missing.
    ArchiveNotFound(u32, u32),
    /// The child `(index_id, archive_id, child_id)` is not in the archive.
    FileNotFound(u32, u32, u32),
    /// Stored data disagrees with the layout it must follow.
    Corrupt,
    /// CRC mismatch: `(index_id, archive_id, expected, actual)`.
    Crc(u32, u32, i64, i64),
    /// Version mismatch: `(index_id, archive_id, expected, actual)`.
    Version(u32, u32, i64, i64),
    /// A compressed container is malformed or uses an unknown tag.
    Decompression,
    /// A definition record uses an opcode that no decoder knows: `(opcode, id)`.
    UnknownOpcode(u8, u32),
    /// A buffer read ran past its end.
    EndOfInput,
    /// An unexpected I/O failure; carries the path.
    Io(String),
    /// The jcache database failed; carries its message.
    Database(String),
}

/// The result of every fallible cache operation.
pub type CacheResult<T> = Result<T, CacheError>;

} // verus!
