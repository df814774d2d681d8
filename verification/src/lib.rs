//! A content-addressed object store in the on-disk format of git: zlib framing,
//! a seekable index over stored DEFLATE blocks, loose object headers, and the
//! decisions of the read and write paths.

use vstd::prelude::*;

pub mod equality;
pub mod flate;
pub mod hash;
pub mod loose;
pub mod messages;
pub mod obj;
pub mod source;
pub mod store;
pub mod text;
pub mod zlib;

pub use flate::{DeflateError, Index, ParsedDeflate, SeekReadDeflate};
pub use hash::HashBytes;
pub use loose::{
    file_to_stream, object_path, parse_seek_header, parse_stream_header, LoosePath, OffsetSeek,
    StreamReader,
};
pub use obj::{HashType, Kind, ID};
pub use source::{ByteCursor, ByteRead, SeekError, SeekFrom, UnexpectedEof};
pub use store::{
    conclude, open_loose_object_seek, open_loose_object_stream, open_packed_object,
    streams_equal, FindError, Publish, Staged, ObjectView, WriteError, WriteHandle,
};
pub use zlib::{decode_zlib, ZlibHeader};

verus! {

/// Sum of two sizes.
pub fn add(left: usize, right: usize) -> (sum: usize)
    requires
        left + right <= usize::MAX,
    ensures
        sum == left + right,
{
    left + right
}

} // verus!
