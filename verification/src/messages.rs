//! The errors in words: each error has a text, with the numbers that it
//! carries written in decimal.

use crate::flate::DeflateError;
use crate::loose::{Error as HeaderError, StreamError};
use crate::source::SeekError;
use crate::store::{FindError, WriteError};
use crate::text::{decimal_text, to_decimal_string};
use crate::zlib::Error as ZlibError;
use vstd::prelude::*;
use vstd::string::*;

verus! {

impl SeekError {
    /// The text of the error: the bound and the distance by which the
    /// target lies beyond it, or the distance by which it lies before 0.
    pub open spec fn text(self) -> Seq<char> {
        match self {
            SeekError::Beyond { bound, excess } => "invalid seek to "@ + decimal_text(bound as nat)
                + " + "@ + decimal_text(excess as nat)
                + ", which is beyond the end of the read-only file"@,
            SeekError::Before { deficit } => "invalid seek to -"@ + decimal_text(deficit as nat)
                + ", which is before the start of the file"@,
        }
    }

    pub fn message(&self) -> (text: String)
        ensures
            text@ == self.text(),
    {
        match self {
            SeekError::Beyond { bound, excess } => {
                let mut text = String::from_str("invalid seek to ");
                text.append(to_decimal_string(*bound).as_str());
                text.append(" + ");
                text.append(to_decimal_string(*excess).as_str());
                text.append(", which is beyond the end of the read-only file");
                text
            },
            SeekError::Before { deficit } => {
                let mut text = String::from_str("invalid seek to -");
                text.append(to_decimal_string(*deficit).as_str());
                text.append(", which is before the start of the file");
                text
            },
        }
    }
}

impl DeflateError {
    /// The text of the error, with the offset of the block that it is about.
    pub open spec fn text(self) -> Seq<char> {
        match self {
            DeflateError::UnexpectedEof => "unexpected end of file in a block header"@,
            DeflateError::InvalidStoredLength { offset, len, nlen } => "invalid nlen "@
                + decimal_text(nlen as nat) + " for len "@ + decimal_text(len as nat)
                + " at offset "@ + decimal_text(offset as nat),
            DeflateError::ReservedBlockType { offset } => "unexpected reserved BTYPE 11 at offset "@
                + decimal_text(offset as nat),
            DeflateError::Seek(e) => e.text(),
        }
    }

    pub fn message(&self) -> (text: String)
        ensures
            text@ == self.text(),
    {
        match self {
            DeflateError::UnexpectedEof => String::from_str(
                "unexpected end of file in a block header",
            ),
            DeflateError::InvalidStoredLength { offset, len, nlen } => {
                let mut text = String::from_str("invalid nlen ");
                text.append(to_decimal_string(*nlen as u64).as_str());
                text.append(" for len ");
                text.append(to_decimal_string(*len as u64).as_str());
                text.append(" at offset ");
                text.append(to_decimal_string(*offset).as_str());
                text
            },
            DeflateError::ReservedBlockType { offset } => {
                let mut text = String::from_str("unexpected reserved BTYPE 11 at offset ");
                text.append(to_decimal_string(*offset).as_str());
                text
            },
            DeflateError::Seek(e) => e.message(),
        }
    }
}

impl ZlibError {
    /// The text of the error.
    pub open spec fn text(self) -> Seq<char> {
        match self {
            ZlibError::UnsupportedCompressionMethod => "unsupported compression method"@,
            ZlibError::DisallowedWindowBits { cinfo } => "invalid window size "@ + decimal_text(
                cinfo as nat,
            ),
            ZlibError::UnsupportedZlibDict => "unsupported preset dictionary"@,
            ZlibError::InvalidHeaderChecksum => "invalid header checksum"@,
            ZlibError::UnexpectedEof => "unexpected end of file in the zlib header"@,
        }
    }

    pub fn message(&self) -> (text: String)
        ensures
            text@ == self.text(),
    {
        match self {
            ZlibError::UnsupportedCompressionMethod => String::from_str(
                "unsupported compression method",
            ),
            ZlibError::DisallowedWindowBits { cinfo } => {
                let mut text = String::from_str("invalid window size ");
                text.append(to_decimal_string(*cinfo as u64).as_str());
                text
            },
            ZlibError::UnsupportedZlibDict => String::from_str("unsupported preset dictionary"),
            ZlibError::InvalidHeaderChecksum => String::from_str("invalid header checksum"),
            ZlibError::UnexpectedEof => String::from_str(
                "unexpected end of file in the zlib header",
            ),
        }
    }
}

impl HeaderError {
    /// The text of the error.
    pub open spec fn text(self) -> Seq<char> {
        match self {
            HeaderError::MissingDelimiter => "object header without its delimiters"@,
            HeaderError::UnknownKind => "object header with an unknown kind"@,
            HeaderError::MalformedLength => "object header with a malformed size"@,
        }
    }

    pub fn message(&self) -> (text: String)
        ensures
            text@ == self.text(),
    {
        match self {
            HeaderError::MissingDelimiter => String::from_str(
                "object header without its delimiters",
            ),
            HeaderError::UnknownKind => String::from_str("object header with an unknown kind"),
            HeaderError::MalformedLength => String::from_str("object header with a malformed size"),
        }
    }
}

impl StreamError {
    /// The text of the error.
    pub open spec fn text(self) -> Seq<char> {
        match self {
            StreamError::Inflate => "incomplete or damaged zlib stream"@,
            StreamError::Header(e) => e.text(),
        }
    }

    pub fn message(&self) -> (text: String)
        ensures
            text@ == self.text(),
    {
        match self {
            StreamError::Inflate => String::from_str("incomplete or damaged zlib stream"),
            StreamError::Header(e) => e.message(),
        }
    }
}

impl FindError {
    /// The text of the error: that of the step that failed.
    pub open spec fn text(self) -> Seq<char> {
        match self {
            FindError::Zlib(e) => e.text(),
            FindError::Deflate(e) => e.text(),
            FindError::Header(e) => e.text(),
            FindError::Inflate => StreamError::Inflate.text(),
        }
    }

    pub fn message(&self) -> (text: String)
        ensures
            text@ == self.text(),
    {
        match self {
            FindError::Zlib(e) => e.message(),
            FindError::Deflate(e) => e.message(),
            FindError::Header(e) => e.message(),
            FindError::Inflate => StreamError::Inflate.message(),
        }
    }
}

impl WriteError {
    /// The text of the error.
    pub open spec fn text(self) -> Seq<char> {
        match self {
            WriteError::ExistingUnreadable => "the object in place is no zlib stream"@,
            WriteError::StagedUnreadable => "the staged object is no zlib stream"@,
            WriteError::Collision => "two different objects have the same id"@,
        }
    }

    pub fn message(&self) -> (text: String)
        ensures
            text@ == self.text(),
    {
        match self {
            WriteError::ExistingUnreadable => String::from_str(
                "the object in place is no zlib stream",
            ),
            WriteError::StagedUnreadable => String::from_str("the staged object is no zlib stream"),
            WriteError::Collision => String::from_str("two different objects have the same id"),
        }
    }
}

} // verus!
