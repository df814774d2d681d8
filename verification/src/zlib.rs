//! The two-byte header of a zlib stream (RFC 1950), and zlib streams as a whole.

use crate::flate::{scan, stored_content};
use crate::source::{ByteCursor, ByteRead};
use vstd::arithmetic::power2::{lemma2_to64, pow2};
use vstd::prelude::*;

verus! {

/// Why a zlib header was refused.
#[derive(Clone, Copy, Debug, PartialEq, Eq, Structural)]
pub enum Error {
    /// The compression method is not DEFLATE.
    UnsupportedCompressionMethod,
    /// The window size field is larger than 7.
    DisallowedWindowBits { cinfo: u8 },
    /// The stream asks for a preset dictionary.
    UnsupportedZlibDict,
    /// The two header bytes, read as one big-endian number, are no multiple of 31.
    InvalidHeaderChecksum,
    /// The source ended inside the header.
    UnexpectedEof,
}

/// What a zlib header declares.
#[derive(Clone, Copy, Debug, PartialEq, Eq, Structural)]
pub struct ZlibHeader {
    pub window_size: usize,
    pub flevel: u8,
    pub dictid: Option<u32>,
}

/// The compression method field of the first header byte.
pub open spec fn method_of(cmf: u8) -> int {
    cmf as int % 16
}

/// The window size field of the first header byte.
pub open spec fn window_bits_of(cmf: u8) -> int {
    cmf as int / 16
}

/// Whether the second header byte announces a preset dictionary.
pub open spec fn has_dict(flg: u8) -> bool {
    (flg as int / 32) % 2 == 1
}

/// Whether the first two bytes of `bytes` pass the checks on method, window
/// size and checksum.
pub open spec fn header_accepted(bytes: Seq<u8>) -> bool {
    &&& bytes.len() >= 2
    &&& method_of(bytes[0]) == 8
    &&& window_bits_of(bytes[0]) <= 7
    &&& (bytes[0] as int * 256 + bytes[1] as int) % 31 == 0
}

/// What parsing makes of a source whose remaining bytes are `bytes`.
pub open spec fn header_outcome(bytes: Seq<u8>) -> Result<ZlibHeader, Error> {
    if bytes.len() < 2 {
        Err(Error::UnexpectedEof)
    } else if method_of(bytes[0]) != 8 {
        Err(Error::UnsupportedCompressionMethod)
    } else if window_bits_of(bytes[0]) > 7 {
        Err(Error::DisallowedWindowBits { cinfo: window_bits_of(bytes[0]) as u8 })
    } else if (bytes[0] as int * 256 + bytes[1] as int) % 31 != 0 {
        Err(Error::InvalidHeaderChecksum)
    } else if has_dict(bytes[1]) {
        if bytes.len() < 6 {
            Err(Error::UnexpectedEof)
        } else {
            Err(Error::UnsupportedZlibDict)
        }
    } else {
        Ok(
            ZlibHeader {
                window_size: pow2((window_bits_of(bytes[0]) + 8) as nat) as usize,
                flevel: (bytes[1] as int / 64) as u8,
                dictid: None,
            },
        )
    }
}

/// How many of the remaining bytes `bytes` parsing takes from the source.
pub open spec fn header_consumed(bytes: Seq<u8>) -> nat {
    if bytes.len() < 2 {
        bytes.len()
    } else if header_accepted(bytes) && has_dict(bytes[1]) {
        if bytes.len() < 6 {
            bytes.len()
        } else {
            6
        }
    } else {
        2
    }
}

proof fn lemma_header_fields(cmf: u8, flg: u8)
    ensures
        (cmf & 0b1111) as int == method_of(cmf),
        ((cmf >> 4) & 0b1111) as int == window_bits_of(cmf),
        ((flg >> 5) & 1) == 1 <==> has_dict(flg),
        ((flg >> 6) & 0b11) as int == flg as int / 64,
        (((cmf as u16) << 8) + (flg as u16)) as int == cmf as int * 256 + flg as int,
        ((cmf as u16) << 8) as int + (flg as u16) as int <= u16::MAX,
{
    assert((cmf & 0b1111) == cmf % 16) by (bit_vector);
    assert(((cmf >> 4) & 0b1111) == cmf / 16) by (bit_vector);
    assert(((flg >> 5) & 1) == (flg / 32) % 2) by (bit_vector);
    assert(((flg >> 6) & 0b11) == flg / 64) by (bit_vector);
    assert(((cmf as u16) << 8) == (cmf as u16) * 256) by (bit_vector);
}

proof fn lemma_window_size(cinfo: u8)
    requires
        cinfo <= 7,
    ensures
        (1u32 << (cinfo as u32 + 8) as u32) as nat == pow2((cinfo + 8) as nat),
        (1u32 << (cinfo as u32 + 8) as u32) <= 32768,
{
    lemma2_to64();
    assert(1u32 << 8u32 == 256 && 1u32 << 9u32 == 512 && 1u32 << 10u32 == 1024 && 1u32 << 11u32
        == 2048 && 1u32 << 12u32 == 4096 && 1u32 << 13u32 == 8192 && 1u32 << 14u32 == 16384 && 1u32
        << 15u32 == 32768) by (bit_vector);
}

/// The bytes that the zlib stream at the front of `stream` decompresses to;
/// `None` where `stream` does not start with a complete zlib stream.
pub uninterp spec fn zlib_decoded(stream: Seq<u8>) -> Option<Seq<u8>>;

/// The level at which a compressor only stores.
pub const LEVEL_STORE: u32 = 0;

/// The level at which a compressor compresses best.
pub const LEVEL_BEST: u32 = 9;

/// `flate2::bufread::ZlibDecoder`, read to its end: the decompressed bytes of
/// the zlib stream at the front of `src`, or nothing where the decoder reports
/// an error. The contract gives the outcome its name.
#[verifier::external_body]
pub fn decode_zlib(src: &[u8]) -> (r: Option<Vec<u8>>)
    ensures
        match r {
            Some(out) => zlib_decoded(src@) == Some(out@),
            None => zlib_decoded(src@) is None,
        },
{
    let mut out = Vec::new();
    match std::io::Read::read_to_end(&mut flate2::bufread::ZlibDecoder::new(src), &mut out) {
        Ok(_) => Some(out),
        Err(_) => None,
    }
}

/// Whether `stream` starts as a zlib stream of stored blocks only: a header
/// that is accepted and announces no dictionary, and after its two bytes
/// stored blocks up to a final one.
pub open spec fn stored_only(stream: Seq<u8>) -> bool {
    &&& header_outcome(stream) is Ok
    &&& scan(stream, 2, 0) matches Ok(found) && !found.more
}

/// The payloads of the stored blocks of `stream`, one after the other.
pub open spec fn stored_payloads(stream: Seq<u8>) -> Seq<u8> {
    stored_content(stream, scan(stream, 2, 0).unwrap().entries)
}

/// Whether `stream` is framed as this library reads a loose file: its zlib
/// header is accepted and announces no dictionary, and the blocks after its
/// two bytes are stored blocks up to a final one, or stored blocks, none or
/// some, and then a block with Huffman codes.
pub open spec fn well_framed(stream: Seq<u8>) -> bool {
    header_outcome(stream) is Ok && scan(stream, 2, 0) is Ok
}

/// Whether `stream` is a zlib stream of `data`: it is framed as one,
/// decompressing it gives `data`, and where it consists of stored blocks
/// only, the payloads of the blocks are `data`.
pub open spec fn encodes(stream: Seq<u8>, data: Seq<u8>) -> bool {
    &&& well_framed(stream)
    &&& zlib_decoded(stream) == Some(data)
    &&& stored_only(stream) ==> stored_payloads(stream) == data
}

/// `flate2::write::ZlibEncoder` over a vector, fed `data` and finished: a
/// zlib stream of `data`.
///
/// The encoder does not fail here: it hands on the errors of its sink, and a
/// vector has none; the compressor itself refuses only a call out of order.
/// Three things are taken on trust of the stream that it writes.
/// - It starts with the two bytes of a zlib header for DEFLATE with a window
///   of 32 KiB and without a dictionary, and goes on with the blocks of a
///   complete DEFLATE stream: the first block starts with the third byte, and
///   a stored block is followed by the next block, if it is not the last, at
///   a whole byte.
/// - The decoder of the same crate gives `data` back from it.
/// - Its stored blocks, where it has no others, hold `data` as RFC 1951
///   lays stored blocks out.
#[verifier::external_body]
pub(crate) fn encode_zlib(data: &[u8], level: u32) -> (r: Option<Vec<u8>>)
    requires
        level <= LEVEL_BEST,
    ensures
        r is Some,
        r matches Some(file) ==> encodes(file@, data@),
{
    let mut encoder = flate2::write::ZlibEncoder::new(Vec::new(), flate2::Compression::new(level));
    match std::io::Write::write_all(&mut encoder, data) {
        Ok(()) => encoder.finish().ok(),
        Err(_) => None,
    }
}

impl ZlibHeader {
    /// Reads the header of a zlib stream from `src`: two bytes, and the four
    /// bytes of the dictionary id after them where the header announces one.
    ///
    /// The checks are made in this order: compression method, window size,
    /// checksum, preset dictionary. A source that ends too early is left at
    /// its end.
    pub fn parse(src: &mut ByteCursor) -> (r: Result<ZlibHeader, Error>)
        ensures
            r == header_outcome(old(src).remaining()),
            final(src).data() == old(src).data(),
            final(src).remaining() == old(src).remaining().skip(
                header_consumed(old(src).remaining()) as int,
            ),
            final(src).position() == old(src).position() + header_consumed(old(src).remaining()),
    {
        let ghost bytes = src.remaining();
        let mut header_buf = [0u8;2];
        if src.read_exact(&mut header_buf).is_err() {
            assert(src.remaining() =~= bytes.skip(bytes.len() as int));
            return Err(Error::UnexpectedEof);
        }
        assert(src.remaining() =~= bytes.skip(2));
        let cmf = header_buf[0];
        let flg = header_buf[1];
        assert(cmf == bytes[0] && flg == bytes[1]);
        proof {
            lemma_header_fields(cmf, flg);
        }
        let cm = cmf & 0b1111;
        let cinfo = (cmf >> 4) & 0b1111;
        let fdict = (flg >> 5) & 1;
        let flevel = (flg >> 6) & 0b11;
        if cm != 8 {
            return Err(Error::UnsupportedCompressionMethod);
        }
        if cinfo > 7 {
            return Err(Error::DisallowedWindowBits { cinfo });
        }
        if (((cmf as u16) << 8) + (flg as u16)) % 31 != 0 {
            return Err(Error::InvalidHeaderChecksum);
        }
        if fdict == 1 {
            let mut dictid_buf = [0u8;4];
            if src.read_exact(&mut dictid_buf).is_err() {
                assert(src.remaining() =~= bytes.skip(bytes.len() as int));
                return Err(Error::UnexpectedEof);
            }
            assert(src.remaining() =~= bytes.skip(6));
            return Err(Error::UnsupportedZlibDict);
        }
        proof {
            lemma_window_size(cinfo);
        }
        let window: u32 = 1u32 << (cinfo as u32 + 8);
        Ok(ZlibHeader { window_size: window as usize, flevel, dictid: None })
    }
}

} // verus!
