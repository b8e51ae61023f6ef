use vstd::prelude::*;

verus! {

/// Why reading a stored structure failed.
#[derive(Debug, Clone, Copy, PartialEq, Eq, Structural)]
pub enum IoError {
    /// The bytes ended before the structure did.
    UnexpectedEof,
    /// A footer was not exactly `FOOTER_SIZE` bytes long.
    InvalidFooterSize,
    /// A footer did not end with the SSTable magic number.
    InvalidMagic,
    /// A file was too small to hold a footer.
    TooSmall,
    /// The offsets that a footer or index gives do not fit the file.
    InvalidOffsets,
    /// A Bloom filter of no bits was asked to probe a key.
    EmptyBloomFilter,
    /// The operating system reported a failure.
    Os,
}

/// The errors of the storage engine.
#[derive(Debug, Clone, Copy, PartialEq, Eq, Structural)]
pub enum StorageError {
    Io(IoError),
    KeyTooLarge { size: usize, max: usize },
    ValueTooLarge { size: usize, max: usize },
}

} // verus!
