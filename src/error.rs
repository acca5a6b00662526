//! What can go wrong while reading or writing a file.
use vstd::prelude::*;
use vstd::string::StringExecFns;

verus! {

#[derive(Clone, Copy, Debug, PartialEq, Eq, Structural)]
pub enum TiffError {
    /// The operating system refused to open, read or write the file.
    IoError,
    /// The first two bytes are neither "II" nor "MM".
    BadByteOrderMark,
    /// The header's magic number is not 42.
    BadMagic,
    /// A field, payload or strip reaches past the end of the file.
    TruncatedFile,
    /// A directory lacks a tag that has no default.
    MissingTag(u16),
    /// The frame is compressed; only uncompressed data is handled.
    CompressionUnsupported,
    /// A directory entry has a type or a count its tag does not allow.
    MalformedIfdEntry,
    /// The description does not fit the space reserved for it.
    DescriptionTooLong,
    /// The sample index is out of range, or the buffer's element size
    /// differs from the sample's bit depth.
    InvalidSampleRequest,
}

/// The text that describes each error.
pub open spec fn message_of(e: TiffError) -> Seq<char> {
    match e {
        TiffError::IoError => "could not access the file"@,
        TiffError::BadByteOrderMark => "bad byte order mark"@,
        TiffError::BadMagic => "bad magic number"@,
        TiffError::TruncatedFile => "file is truncated"@,
        TiffError::MissingTag(_) => "a required tag is missing"@,
        TiffError::CompressionUnsupported => "compression is not supported"@,
        TiffError::MalformedIfdEntry => "malformed directory entry"@,
        TiffError::DescriptionTooLong => "image description is too long"@,
        TiffError::InvalidSampleRequest => "invalid sample request"@,
    }
}

impl TiffError {
    /// A short human-readable description of the error.
    pub fn message(&self) -> (r: String)
        ensures
            r@ == message_of(*self),
            r@.len() > 0,
    {
        let s = match self {
            TiffError::IoError => String::from_str("could not access the file"),
            TiffError::BadByteOrderMark => String::from_str("bad byte order mark"),
            TiffError::BadMagic => String::from_str("bad magic number"),
            TiffError::TruncatedFile => String::from_str("file is truncated"),
            TiffError::MissingTag(_) => String::from_str("a required tag is missing"),
            TiffError::CompressionUnsupported => String::from_str("compression is not supported"),
            TiffError::MalformedIfdEntry => String::from_str("malformed directory entry"),
            TiffError::DescriptionTooLong => String::from_str("image description is too long"),
            TiffError::InvalidSampleRequest => String::from_str("invalid sample request"),
        };
        proof {
            reveal_strlit("could not access the file");
            reveal_strlit("bad byte order mark");
            reveal_strlit("bad magic number");
            reveal_strlit("file is truncated");
            reveal_strlit("a required tag is missing");
            reveal_strlit("compression is not supported");
            reveal_strlit("malformed directory entry");
            reveal_strlit("image description is too long");
            reveal_strlit("invalid sample request");
        }
        s
    }
}

} // verus!
