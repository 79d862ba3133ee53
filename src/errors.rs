//! Error types.
use vstd::prelude::*;

verus! {

/// `std::io::Error`, carried through unopened.
#[verifier::external_type_specification]
#[verifier::external_body]
pub struct ExIoError(std::io::Error);

/// Relies on `std::io::Error::from(ErrorKind::UnexpectedEof)`: the error that
/// reports data ending before a read was complete.
#[verifier::external_body]
pub(crate) fn unexpected_eof() -> std::io::Error {
    std::io::Error::from(std::io::ErrorKind::UnexpectedEof)
}

/// Error when parsing key types.
#[derive(Debug)]
pub enum KeyTypeParseError {
    /// The name holds a byte that is not ASCII graphic.
    Invalid(String),
}

/// Error when creating a new index.
#[derive(Debug)]
pub enum BuilderCreateError {
    /// Write error.
    IOError(std::io::Error),
    /// The description holds a newline.
    InvalidDescription { description: String },
    /// Key length does not fit the table depth.
    InvalidKeyLength,
    /// Header longer than its limit.
    HeaderTooBig,
}

/// Error when opening an index.
#[derive(Debug)]
pub enum IndexOpenError {
    /// Read error.
    IOError(std::io::Error),
    /// Invalid key type name.
    KeyTypeError(KeyTypeParseError),
    /// Invalid bucket table.
    TableReadError(TableReadError),
    /// Key length does not fit the table depth or the requested key type.
    InvalidKeyLength,
    /// Unknown or malformed header.
    InvalidHeader,
}

/// Error when looking up entries in an index.
#[derive(Debug)]
pub enum LookupError {
    /// Read error.
    IOError(std::io::Error),
    /// A bucket's length is not a multiple of the entry size.
    InvalidSegmentLength,
}

/// Error when reading the bucket table.
#[derive(Debug)]
pub enum TableReadError {
    /// Read or decompression error.
    IOError(std::io::Error),
    /// Depth above the maximum.
    InvalidDepth { depth: u8 },
    /// Data left after the last offset.
    TooMuchTableData,
    /// Offsets decreasing.
    InvalidTableOffsets,
}

/// Error when adding an entry from a line of a pwned-passwords file.
#[derive(Debug)]
pub enum HibpLineError {
    /// The text before the colon is no hash of the key type.
    InvalidHash(crate::hex::HexError),
    /// A line that is neither empty nor holds a colon.
    InvalidLine,
    /// The hash is not greater than the one before.
    UnorderedKey,
    /// The index would outgrow 64-bit offsets.
    TooLarge,
}

/// Error when opening a hash list.
#[derive(Debug)]
pub enum HashListOpenError {
    /// Read error.
    IOError(std::io::Error),
    /// Unknown or malformed header.
    InvalidHeader,
    /// Invalid key type name.
    KeyTypeError(KeyTypeParseError),
    /// Modification time out of range.
    InvalidMtime,
    /// Key, payload or prefix length does not fit the requested types.
    InvalidKeyLength,
}

/// Error when creating a hash list.
#[derive(Debug)]
pub enum HashListCreateError {
    /// Write error.
    IOError(std::io::Error),
    /// The description spans more than one line.
    InvalidDescription,
}

} // verus!
