use vstd::prelude::*;

verus! {

/// What made an input structurally invalid.
#[derive(Debug, Clone, Copy, PartialEq, Eq, Structural)]
pub enum Malformed {
    /// The declared number of data directories exceeds the table's capacity.
    DirectoryCount { count: usize, max: usize },
    /// A fixed-size record starting at `offset` runs past the end of the input.
    Truncated { offset: usize },
    /// A directory entry was built without knowing where its payload lives.
    MissingSourceOffset,
    /// A directory's payload range does not lie inside the file.
    PayloadOutOfBounds { start: usize, size: u32, len: usize },
    /// An index that names no well-known directory type.
    DirectoryIndex { index: usize },
    /// A section name longer than the eight bytes a header holds.
    SectionName { len: usize },
    /// Section data too long for a 32-bit size field.
    SectionTooLarge { len: usize },
    /// Header fields disagree with the rest of the image.
    InconsistentHeader,
    /// The staged section at `index` already has the name being inserted.
    DuplicateSectionName { index: usize },
    /// The section count would no longer fit its 16-bit header field.
    TooManySections,
    /// An offset or address of the new layout does not fit in 32 bits.
    LayoutOverflow,
    /// The attribute-certificate records do not exactly tile their directory.
    CertificateRecords,
}

/// Errors reported by this library.
#[derive(Debug, Clone, Copy, PartialEq, Eq, Structural)]
pub enum Error {
    /// A structural violation in the input.
    Malformed(Malformed),
    /// The destination cannot hold `needed` bytes from the requested offset;
    /// `available` bytes remain there.
    BufferTooSmall { needed: u64, available: u64 },
}

} // verus!
