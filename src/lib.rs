//! Reading and writing of the archive containers used by Bethesda game engines.

pub mod bytes;
pub mod compress;
pub mod fo4;
pub mod path;
pub mod read;
pub mod tes3;
pub mod tes4;
pub mod tes4_hash;
pub mod tes4_writer;
pub mod windows_1252;

use vstd::prelude::*;

verus! {

/// Errors raised while decoding the structure of an archive.
#[derive(Debug, Clone, Copy, PartialEq, Eq, Structural)]
pub enum ArchiveReadError {
    BadHeader,
    MissingNul,
    EmbeddedNul,
    BadEncoding,
    BadOffset,
    UnsupportedFormat,
    InvalidMagic,
    InvalidVersion,
    InvalidFlags,
    BadSentinel,
    BadArchive,
    FileNotFound,
    Overflow,
}

/// Errors raised by a bounded byte cursor.
#[derive(Debug, Clone, Copy, PartialEq, Eq, Structural)]
pub enum ReadBytesError {
    Eof,
}

/// Errors raised while assembling an archive.
#[derive(Debug, Clone, Copy, PartialEq, Eq, Structural)]
pub enum ArchiveWriteError {
    InvalidFileName,
    CompressionUnsupported,
    ArchiveTooLarge,
    FileTooLarge,
    FileExists,
}

/// Every error the library reports.
#[derive(Debug, Clone, Copy, PartialEq, Eq, Structural)]
pub enum Error {
    Read(ArchiveReadError),
    Write(ArchiveWriteError),
    ReadBytes(ReadBytesError),
    Compression,
}

/// The archive formats.
#[derive(Debug, Clone, Copy, PartialEq, Eq, Structural)]
pub enum Format {
    Tes3,
    Tes4,
    Tes5,
    Sse,
    Fo4,
}

} // verus!
