use vstd::prelude::*;

verus! {

/// What can go wrong when reading or writing the world.
#[derive(Debug, Copy, Clone, PartialEq, Eq, Structural)]
pub enum WorldError {
    /// The store failed to read, write or delete a record.
    Io,
    /// A record ended before its last field.
    Truncated,
    /// A subchunk record does not start with version 8.
    BadVersion,
    /// A subchunk record holds neither one nor two block storages.
    BadStorageCount,
    /// A block storage is marked as the network variant.
    NetworkFormat,
    /// A block storage gives a width that is not 1, 2, 3, 4, 5, 6, 8 or 16.
    BadBitsPerBlock,
    /// A block storage has an empty palette.
    EmptyPalette,
    /// A block refers past the end of its palette.
    PaletteIndexOutOfRange,
    /// A palette entry is not a readable named-tag blob.
    BadPaletteEntry,
    /// A palette entry has no string field `name`.
    MissingName,
    /// A palette entry has no 16-bit field `val`.
    MissingVal,
    /// A palette name is longer than a palette entry can be written with.
    NameTooLong,
    /// Bytes follow the last palette entry of a subchunk record.
    TrailingBytes,
    /// A record key names a dimension other than 1 or 2.
    UnknownDimension,
    /// Loading a chunk would give the name table more ids than 32 bits hold.
    TooManyNames,
}

} // verus!
