use crate::tag::Tag;
use vstd::prelude::*;

verus! {

/// Everything that can go wrong while reading or writing the formats of this
/// crate. Values carry no reference into the input.
#[derive(Clone, Debug)]
pub enum Error {
    /// The input ended in the middle of a field.
    UnexpectedEof,
    /// A tag byte that names none of the thirteen tags.
    InvalidTag(u8),
    /// The document does not start with a compound.
    NonRootCompound,
    /// The consumer asked for one kind of value and the stream held another.
    TypeMismatch { expected: Tag, found: Tag },
    /// An integer does not fit the target type.
    RangeError,
    /// A string is not valid modified UTF-8.
    InvalidCesu8,
    /// A borrowed string was asked for, but its stored bytes differ from UTF-8.
    CannotBorrowCesu8,
    /// The input starts with the gzip magic bytes.
    GzipInput,
    /// A required field of a structure is absent.
    MissingField(String),
    /// An array or list length does not suit the target.
    InvalidLength,
    /// The header of a region file is inconsistent.
    CorruptRegionHeader,
    /// No chunk is stored at the requested coordinates.
    ChunkNotPresent,
    /// The compression byte of a chunk names no known scheme.
    UnknownCompressionScheme(u8),
    /// The compression byte names a scheme that this crate cannot apply:
    /// LZ4, or a chunk kept in a file of its own.
    UnsupportedCompressionScheme(u8),
    /// The stored bytes of a chunk are not a valid stream of its scheme.
    CorruptCompressedData,
    /// Two chunks claim the same sector.
    SectorOverlap,
    /// A block state refers past the end of its palette.
    PaletteIndexOutOfRange,
    /// A collaborator doing input or output failed.
    IoError(String),
}

impl Error {
    /// The error for an unknown tag byte.
    pub fn invalid_tag(byte: u8) -> (e: Error)
        ensures
            e == Error::InvalidTag(byte),
    {
        Error::InvalidTag(byte)
    }

    /// A short human-readable description of the error.
    pub fn message(&self) -> (r: String)
        ensures
            *self is GzipInput ==> r@
                == "detected gzip compressed input: decompress the data before decoding nbt"@,
    {
        match self {
            Error::UnexpectedEof => "unexpected end of input".to_owned(),
            Error::InvalidTag(_) => "invalid nbt tag value".to_owned(),
            Error::NonRootCompound => "root of nbt document is not a compound".to_owned(),
            Error::TypeMismatch { .. } => "nbt tag does not match the requested type".to_owned(),
            Error::RangeError => "integer value out of range of the target type".to_owned(),
            Error::InvalidCesu8 => "string is not valid modified utf-8".to_owned(),
            Error::CannotBorrowCesu8 => {
                "cannot borrow string: modified utf-8 differs from utf-8".to_owned()
            },
            Error::GzipInput => {
                "detected gzip compressed input: decompress the data before decoding nbt".to_owned()
            },
            Error::MissingField(_) => "missing field".to_owned(),
            Error::InvalidLength => "array length does not suit the target".to_owned(),
            Error::CorruptRegionHeader => "corrupt region header".to_owned(),
            Error::ChunkNotPresent => "chunk not present".to_owned(),
            Error::UnknownCompressionScheme(_) => "unknown compression scheme".to_owned(),
            Error::UnsupportedCompressionScheme(_) => "unsupported compression scheme".to_owned(),
            Error::CorruptCompressedData => "compressed chunk data is corrupt".to_owned(),
            Error::SectorOverlap => "chunks of the region overlap".to_owned(),
            Error::PaletteIndexOutOfRange => "block state index beyond the palette".to_owned(),
            Error::IoError(_) => "input or output failed".to_owned(),
        }
    }
}

} // verus!
