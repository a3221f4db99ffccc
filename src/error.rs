use vstd::prelude::*;

verus! {

/// The kinds of failure reported by the archive engine.
#[derive(Debug, Clone, Copy, PartialEq, Eq, Structural)]
pub enum Error {
    /// Magic or fixed-field mismatch when a container is opened.
    InvalidHeader,
    /// Version not in the supported set, or a write attempted on a
    /// read-only version.
    UnsupportedVersion(u32),
    /// A read ran past the end of a buffer; carries the offset at which the
    /// read was attempted.
    MalformedArchive(u64),
    /// An RGZ stream holds a record tag that is not `f`, `d` or `e`.
    InvalidFormat,
    /// A deflate or gzip stream was refused by the decoder.
    Decompression,
    /// The encoder refused the input.
    Compression,
    /// A BEAM entry's stored MD5 differs from the MD5 of its payload.
    ChecksumMismatch,
    /// The requested name is not in the container.
    FileNotFound,
    /// The entry's flags ask for a cipher that is not supported.
    EncryptedEntry,
    /// A patch archive's extension is not one of the known formats.
    UnknownPatchFormat,
    /// A size or offset does not fit the container's 32-bit fields.
    CapacityExceeded,
}

} // verus!
