//! Loose objects: the header `<kind> <size>\0` before the payload, the
//! reader that numbers positions from the end of the header, and the place of
//! an object below the objects directory.

use crate::flate::{read_len, SeekReadDeflate};
use crate::obj::{kind_of_token, lemma_token_round_trip, Kind, ID};
use crate::source::{settle, ByteCursor, ByteRead, SeekError, SeekFrom};
use crate::text::{
    bytes_to_hex, decimal_digits, decimal_value, hex_text, is_digits, lemma_decimal_round_trip,
    lemma_digit_count, lemma_hex_text_concat, to_decimal,
};
use crate::zlib::{decode_zlib, zlib_decoded};
use vstd::prelude::*;
use vstd::slice::slice_subrange;

verus! {

/// The largest number of bytes that is searched for a header.
pub const MAX_HEADER_LEN: usize = 10;

/// Why a loose object header was refused.
#[derive(Clone, Copy, Debug, PartialEq, Eq, Structural)]
pub enum Error {
    /// The space after the kind, or the zero byte after the size, does not
    /// occur within the bytes searched.
    MissingDelimiter,
    /// The bytes before the space name no kind of object.
    UnknownKind,
    /// The bytes between the space and the zero byte are no size.
    MalformedLength,
}

/// The number that the decimal digits `digits` spell, if it fits in 64 bits.
pub open spec fn unsigned_size(digits: Seq<u8>) -> Option<u64> {
    if is_digits(digits) && decimal_value(digits) <= u64::MAX {
        Some(decimal_value(digits) as u64)
    } else {
        None
    }
}

/// The size that a size field spells: decimal digits, which a plus sign may
/// precede. A minus sign is accepted before digits that are all zero.
pub open spec fn size_of_field(field: Seq<u8>) -> Option<u64> {
    if field.len() > 0 && field[0] == 0x2b {
        unsigned_size(field.skip(1))
    } else if field.len() > 0 && field[0] == 0x2d {
        if is_digits(field.skip(1)) && decimal_value(field.skip(1)) == 0 {
            Some(0)
        } else {
            None
        }
    } else {
        unsigned_size(field)
    }
}

/// What decoding makes of the bytes `input`: the kind named before the first
/// space, the size between that space and the first zero byte, and the number
/// of bytes up to and including the zero byte.
pub open spec fn header_outcome(input: Seq<u8>) -> Result<(Kind, u64, usize), Error> {
    match input.index_of_first(0x20u8) {
        None => Err(Error::MissingDelimiter),
        Some(space) => match kind_of_token(input.take(space)) {
            None => Err(Error::UnknownKind),
            Some(kind) => match input.index_of_first(0u8) {
                None => Err(Error::MissingDelimiter),
                Some(nul) => match size_of_field(input.subrange(space + 1, nul)) {
                    None => Err(Error::MalformedLength),
                    Some(size) => Ok((kind, size, (nul + 1) as usize)),
                },
            },
        },
    }
}

/// The bytes of a stream that are searched for its header: those up to and
/// including the first zero byte, and no more than `MAX_HEADER_LEN`.
pub open spec fn header_window(bytes: Seq<u8>) -> Seq<u8> {
    let limit = if bytes.len() < MAX_HEADER_LEN {
        bytes.len() as int
    } else {
        MAX_HEADER_LEN as int
    };
    match bytes.take(limit).index_of_first(0u8) {
        Some(nul) => bytes.take(nul + 1),
        None => bytes.take(limit),
    }
}

/// `gix_object::decode::loose_header`: splits `<kind> <size>\0` at the first
/// space and the first zero byte, and gives the kind, the size and the number
/// of bytes up to and including the zero byte. It fails where a delimiter is
/// missing, the kind is none of the four, or the size is no decimal number of
/// 64 bits (a leading plus sign is accepted, and a minus sign before zeros).
#[verifier::external_body]
fn decode_loose_header(input: &[u8]) -> (r: Option<(Kind, u64, usize)>)
    ensures
        r == match header_outcome(input@) {
            Ok(header) => Some(header),
            Err(_) => None,
        },
{
    match gix_object::decode::loose_header(input) {
        Ok((kind, size, consumed)) => {
            let kind = match kind {
                gix_object::Kind::Tree => Kind::Tree,
                gix_object::Kind::Blob => Kind::Blob,
                gix_object::Kind::Commit => Kind::Commit,
                gix_object::Kind::Tag => Kind::Tag,
            };
            Some((kind, size, consumed))
        },
        Err(_) => None,
    }
}

proof fn lemma_first_at(s: Seq<u8>, b: u8, i: int)
    requires
        0 <= i < s.len(),
        s[i] == b,
        forall|k: int| 0 <= k < i ==> s[k] != b,
    ensures
        s.index_of_first(b) == Some(i),
{
    s.index_of_first_ensures(b);
    assert(s.contains(b));
    let j = s.index_of_first(b).unwrap();
    if j < i {
        assert(s[j] != b);
    }
}

proof fn lemma_first_absent(s: Seq<u8>, b: u8)
    requires
        forall|k: int| 0 <= k < s.len() ==> s[k] != b,
    ensures
        s.index_of_first(b) is None,
{
    s.index_of_first_ensures(b);
}

/// The index of the first byte `b` in `buf`.
fn find_byte(buf: &Vec<u8>, b: u8) -> (r: Option<usize>)
    ensures
        match r {
            Some(i) => buf@.index_of_first(b) == Some(i as int) && i < buf@.len(),
            None => buf@.index_of_first(b) is None,
        },
{
    let mut i: usize = 0;
    while i < buf.len()
        invariant
            i <= buf@.len(),
            forall|k: int| 0 <= k < i ==> buf@[k] != b,
        decreases buf@.len() - i,
    {
        if buf[i] == b {
            proof {
                lemma_first_at(buf@, b, i as int);
            }
            return Some(i);
        }
        i += 1;
    }
    proof {
        lemma_first_absent(buf@, b);
    }
    None
}

/// Whether the first `len` bytes of `buf` name a kind of object.
fn names_kind(buf: &Vec<u8>, len: usize) -> (r: bool)
    requires
        len <= buf@.len(),
    ensures
        r == kind_of_token(buf@.take(len as int)) is Some,
{
    Kind::from_bytes(slice_subrange(buf.as_slice(), 0, len)).is_some()
}

/// Says why the bytes `buf` are no header.
fn refusal(buf: &Vec<u8>) -> (e: Error)
    requires
        header_outcome(buf@) is Err,
    ensures
        header_outcome(buf@) == Err::<(Kind, u64, usize), Error>(e),
{
    match find_byte(buf, 0x20) {
        None => Error::MissingDelimiter,
        Some(space) => {
            if !names_kind(buf, space) {
                Error::UnknownKind
            } else {
                match find_byte(buf, 0) {
                    None => Error::MissingDelimiter,
                    Some(_) => Error::MalformedLength,
                }
            }
        },
    }
}

/// Reads the header of a loose object from the front of `reader`: the bytes
/// up to and including the first zero byte, `MAX_HEADER_LEN` at most. Returns
/// the kind, the size, and the number of header bytes.
///
/// The bytes searched are taken from the reader whether or not they are a
/// header.
pub fn parse_stream_header<R: ByteRead>(reader: &mut R) -> (r: Result<(Kind, u64, usize), Error>)
    ensures
        r == header_outcome(header_window(old(reader).remaining())),
        final(reader).remaining() == old(reader).remaining().skip(
            header_window(old(reader).remaining()).len() as int,
        ),
        r matches Ok(header) ==> header.2 == header_window(old(reader).remaining()).len(),
{
    let ghost bytes = reader.remaining();
    let mut buffer: Vec<u8> = Vec::new();
    let mut open = true;
    assert(bytes.skip(0) =~= bytes);
    assert(bytes.take(0) =~= buffer@);
    while open && buffer.len() < MAX_HEADER_LEN
        invariant
            buffer@.len() <= MAX_HEADER_LEN,
            buffer@.len() <= bytes.len(),
            buffer@ == bytes.take(buffer@.len() as int),
            reader.remaining() == bytes.skip(buffer@.len() as int),
            forall|k: int| 0 <= k < buffer@.len() - 1 ==> buffer@[k] != 0,
            open ==> forall|k: int| 0 <= k < buffer@.len() ==> buffer@[k] != 0,
            !open ==> (buffer@.len() == bytes.len() && forall|k: int|
                0 <= k < buffer@.len() ==> buffer@[k] != 0) || (buffer@.len() > 0
                && buffer@.last() == 0),
        decreases MAX_HEADER_LEN - buffer@.len() + (if open {
            1int
        } else {
            0int
        }),
    {
        let mut one = [0u8;1];
        let ghost before = buffer@;
        let n = reader.read(&mut one);
        if n == 0 {
            open = false;
        } else {
            let byte = one[0];
            assert(byte == bytes[before.len() as int]) by {
                assert(one@[0] == bytes.skip(before.len() as int).take(1)[0]);
            }
            buffer.push(byte);
            assert(buffer@ =~= bytes.take(buffer@.len() as int));
            assert(reader.remaining() =~= bytes.skip(buffer@.len() as int));
            if byte == 0 {
                open = false;
            }
        }
    }
    proof {
        let limit = if bytes.len() < MAX_HEADER_LEN {
            bytes.len() as int
        } else {
            MAX_HEADER_LEN as int
        };
        let searched = bytes.take(limit);
        if buffer@.len() > 0 && buffer@.last() == 0 {
            let nul = buffer@.len() - 1;
            assert forall|k: int| 0 <= k < nul implies searched[k] != 0 by {
                assert(searched[k] == buffer@[k]);
            }
            assert(searched[nul] == buffer@[nul]);
            lemma_first_at(searched, 0, nul);
        } else {
            assert(buffer@.len() == limit);
            assert(searched =~= buffer@);
            lemma_first_absent(searched, 0);
        }
        assert(buffer@ == header_window(bytes));
    }
    match decode_loose_header(buffer.as_slice()) {
        Some(header) => {
            proof {
                buffer@.index_of_first_ensures(0u8);
                if buffer@.len() > 0 && buffer@.last() == 0 {
                    lemma_first_at(buffer@, 0, buffer@.len() - 1);
                } else {
                    lemma_first_absent(buffer@, 0);
                }
            }
            Ok(header)
        },
        None => Err(refusal(&buffer)),
    }
}

/// A seeking reader whose position 0 stands `offset` bytes into the
/// reader that it wraps.
pub struct OffsetSeek {
    data: SeekReadDeflate,
    offset: usize,
}

impl OffsetSeek {
    /// The reader that is wrapped.
    pub closed spec fn inner(&self) -> SeekReadDeflate {
        self.data
    }

    /// The number of bytes by which absolute positions are shifted.
    pub closed spec fn offset(&self) -> nat {
        self.offset as nat
    }

    /// The bytes after the header: the content of the wrapped reader from
    /// the offset on.
    pub open spec fn payload(&self) -> Seq<u8> {
        if self.offset() <= self.inner().content().len() {
            self.inner().content().skip(self.offset() as int)
        } else {
            Seq::empty()
        }
    }

    /// A reader that stands at position `k`, counted from the end of the
    /// header, delivers the payload from its byte `k` on, however it came
    /// there.
    pub proof fn lemma_position_in_payload(self, k: nat)
        requires
            self.inner().position() == self.offset() + k,
        ensures
            self.remaining() == if k <= self.payload().len() {
                self.payload().skip(k as int)
            } else {
                Seq::empty()
            },
    {
        let content = self.inner().content();
        if self.offset() + k <= content.len() {
            assert(content.skip(self.offset() as int).skip(k as int) =~= content.skip(
                (self.offset() + k) as int,
            ));
        }
    }

    /// The position in the wrapped reader that `req` asks for: an absolute
    /// position is shifted by the offset, the others are passed on as they are.
    pub open spec fn target(&self, req: SeekFrom) -> int {
        match req {
            SeekFrom::Start(n) => n + self.offset(),
            _ => req.target(self.inner().position() as int, self.inner().total()),
        }
    }

    /// Moves to the position that `req` asks for. An absolute position counts
    /// from the end of the header; the position returned is that of the
    /// wrapped reader. A refused request changes nothing.
    pub fn seek(&mut self, req: SeekFrom) -> (r: Result<u64, SeekError>)
        ensures
            r == settle(old(self).target(req), old(self).inner().total()),
            final(self).offset() == old(self).offset(),
            final(self).inner().data() == old(self).inner().data(),
            final(self).inner().entries() == old(self).inner().entries(),
            final(self).inner().base() == old(self).inner().base(),
            final(self).inner().position() == match r {
                Ok(p) => p as nat,
                Err(_) => old(self).inner().position(),
            },
            final(self).inner().dirty() == match r {
                Ok(p) => p != old(self).inner().position() || old(self).inner().dirty(),
                Err(_) => old(self).inner().dirty(),
            },
    {
        match req {
            SeekFrom::Start(n) => {
                let shift = self.offset as u64;
                if n > u64::MAX - shift {
                    let bound = self.data.len();
                    let past: u128 = n as u128 + shift as u128 - bound as u128;
                    let excess: u64 = if past > u64::MAX as u128 {
                        u64::MAX
                    } else {
                        past as u64
                    };
                    Err(SeekError::Beyond { bound, excess })
                } else {
                    self.data.seek(SeekFrom::Start(n + shift))
                }
            },
            SeekFrom::End(n) => self.data.seek(SeekFrom::End(n)),
            SeekFrom::Current(d) => self.data.seek(SeekFrom::Current(d)),
        }
    }

    /// The position of the wrapped reader.
    pub fn stream_position(&self) -> (p: u64)
        ensures
            p == self.inner().position(),
    {
        self.data.stream_position()
    }

    /// Hands the wrapped reader back.
    pub fn into_inner(self) -> (inner: SeekReadDeflate)
        ensures
            inner == self.inner(),
    {
        self.data
    }
}

impl ByteRead for OffsetSeek {
    open spec fn remaining(&self) -> Seq<u8> {
        self.inner().remaining()
    }

    fn read(&mut self, buf: &mut [u8]) -> (n: usize)
        ensures
            final(self).offset() == old(self).offset(),
            final(self).inner().data() == old(self).inner().data(),
            final(self).inner().entries() == old(self).inner().entries(),
            final(self).inner().base() == old(self).inner().base(),
            final(self).inner().position() == old(self).inner().position() + n,
            final(self).inner().dirty() == (old(self).inner().position() == old(
                self,
            ).inner().total()),
            n == read_len(
                old(self).inner().entries(),
                old(self).inner().position() as int,
                old(buf)@.len() as int,
                old(self).remaining().len() as int,
            ),
    {
        self.data.read(buf)
    }
}

/// The header of a loose object: the name of the kind, a space, the length
/// in decimal, and a zero byte.
pub open spec fn header_bytes(kind: Kind, len: u64) -> Seq<u8> {
    kind.token() + seq![0x20u8] + decimal_digits(len as nat) + seq![0u8]
}

/// Writes the header of a loose object.
pub fn object_header(kind: Kind, len: u64) -> (header: Vec<u8>)
    ensures
        header@ == header_bytes(kind, len),
{
    let mut header = kind.as_bytes();
    header.push(0x20);
    let mut digits = to_decimal(len);
    header.append(&mut digits);
    header.push(0);
    header
}

/// Whether the header for an object of kind `kind` and length `len` is
/// found when it is read back, that is, whether it is no longer than
/// `MAX_HEADER_LEN`: up to four digits go with `blob` and `tree`, two with
/// `commit`, and five with `tag`.
pub open spec fn header_fits(kind: Kind, len: u64) -> bool {
    match kind {
        Kind::Blob => len <= 9999,
        Kind::Tree => len <= 9999,
        Kind::Commit => len <= 99,
        Kind::Tag => len <= 99999,
    }
}

/// The headers that fit are those of at most `MAX_HEADER_LEN` bytes.
pub proof fn lemma_header_fits(kind: Kind, len: u64)
    ensures
        header_fits(kind, len) <==> header_bytes(kind, len).len() <= MAX_HEADER_LEN,
{
    lemma_digit_count(len as nat);
    let digits = decimal_digits(len as nat).len();
    assert(header_bytes(kind, len).len() == kind.token().len() + 2 + digits);
    match kind {
        Kind::Blob => {
            assert(kind.token().len() == 4);
        },
        Kind::Tree => {
            assert(kind.token().len() == 4);
        },
        Kind::Commit => {
            assert(kind.token().len() == 6);
        },
        Kind::Tag => {
            assert(kind.token().len() == 3);
        },
    }
}

/// A header that is written is read back: at the front of any stream it is
/// found whole, if it is no longer than `MAX_HEADER_LEN`, and it is decoded
/// to the kind and the length that it was written for.
pub proof fn lemma_header_round_trip(kind: Kind, len: u64, rest: Seq<u8>)
    requires
        header_bytes(kind, len).len() <= MAX_HEADER_LEN,
    ensures
        header_window(header_bytes(kind, len) + rest) == header_bytes(kind, len),
        header_outcome(header_bytes(kind, len)) == Ok::<(Kind, u64, usize), Error>(
            (kind, len, header_bytes(kind, len).len() as usize),
        ),
        (header_bytes(kind, len) + rest).skip(header_bytes(kind, len).len() as int) == rest,
{
    let token = kind.token();
    let digits = decimal_digits(len as nat);
    let header = header_bytes(kind, len);
    let raw = header + rest;
    lemma_decimal_round_trip(len as nat);
    let space = token.len() as int;
    let nul = header.len() - 1;
    assert forall|k: int| 0 <= k < token.len() implies token[k] != 0x20 && token[k] != 0 by {
        match kind {
            Kind::Blob => {},
            Kind::Tree => {},
            Kind::Commit => {},
            Kind::Tag => {},
        }
    }
    assert forall|k: int| 0 <= k < nul implies header[k] != 0 by {
        if k < space {
            assert(header[k] == token[k]);
        } else if k > space {
            assert(header[k] == digits[k - space - 1]);
        }
    }
    assert forall|k: int| 0 <= k < space implies header[k] != 0x20 by {
        assert(header[k] == token[k]);
    }
    lemma_first_at(header, 0x20, space);
    lemma_first_at(header, 0, nul);
    assert(header.take(space) =~= token);
    lemma_token_round_trip(kind);
    assert(header.subrange(space + 1, nul) =~= digits);
    assert(digits[0] != 0x2b && digits[0] != 0x2d);
    let limit = if raw.len() < MAX_HEADER_LEN {
        raw.len() as int
    } else {
        MAX_HEADER_LEN as int
    };
    let searched = raw.take(limit);
    assert forall|k: int| 0 <= k < nul implies searched[k] != 0 by {
        assert(searched[k] == header[k]);
    }
    assert(searched[nul] == header[nul]);
    lemma_first_at(searched, 0, nul);
    assert(raw.take(nul + 1) =~= header);
    assert(raw.skip(header.len() as int) =~= rest);
}

/// The bytes searched for a header are at the front of the stream, and a
/// header found in them ends within them.
pub proof fn lemma_window_len(bytes: Seq<u8>)
    ensures
        header_window(bytes).len() <= bytes.len(),
        header_window(bytes).len() <= MAX_HEADER_LEN,
        header_window(bytes) == bytes.take(header_window(bytes).len() as int),
        header_outcome(header_window(bytes)) matches Ok(header) ==> 0 < header.2
            <= header_window(bytes).len(),
{
    let limit = if bytes.len() < MAX_HEADER_LEN {
        bytes.len() as int
    } else {
        MAX_HEADER_LEN as int
    };
    bytes.take(limit).index_of_first_ensures(0u8);
    header_window(bytes).index_of_first_ensures(0u8);
}

/// The bytes searched for a header are among the first `MAX_HEADER_LEN`.
proof fn lemma_window_of_front(bytes: Seq<u8>, front: Seq<u8>)
    requires
        front == bytes.take(
            if bytes.len() < MAX_HEADER_LEN {
                bytes.len() as int
            } else {
                MAX_HEADER_LEN as int
            },
        ),
    ensures
        header_window(front) == header_window(bytes),
{
    assert(front.take(front.len() as int) =~= front);
    match front.index_of_first(0u8) {
        Some(nul) => {
            front.index_of_first_ensures(0u8);
            assert(front.take(nul + 1) =~= bytes.take(nul + 1));
        },
        None => {},
    }
}

/// Reads the header of a loose object from `reader` and wraps the reader so
/// that position 0 is the first byte after the header. The reader is left at
/// that byte.
///
/// The header is looked for in the next `MAX_HEADER_LEN` bytes of the reader.
pub fn parse_seek_header(reader: SeekReadDeflate) -> (r: Result<(Kind, u64, OffsetSeek), Error>)
    ensures
        match header_outcome(header_window(reader.remaining())) {
            Ok((kind, size, consumed)) => r matches Ok((k, s, wrapped)) && k == kind && s == size
                && wrapped.offset() == consumed && wrapped.inner().data() == reader.data()
                && wrapped.inner().entries() == reader.entries() && wrapped.inner().base()
                == reader.base() && wrapped.inner().position() == consumed,
            Err(e) => r == Err::<(Kind, u64, OffsetSeek), Error>(e),
        },
{
    let ghost first = reader;
    let ghost bytes = reader.remaining();
    let mut reader = reader;
    proof {
        use_type_invariant(&reader);
        first.lemma_content_len();
    }
    let mut front: Vec<u8> = Vec::new();
    let mut open = true;
    assert(bytes.skip(0) =~= bytes);
    assert(bytes.take(0) =~= front@);
    while open && front.len() < MAX_HEADER_LEN
        invariant
            front@.len() <= MAX_HEADER_LEN,
            front@.len() <= bytes.len(),
            front@ == bytes.take(front@.len() as int),
            reader.remaining() == bytes.skip(front@.len() as int),
            reader.data() == first.data(),
            reader.entries() == first.entries(),
            reader.base() == first.base(),
            !open ==> front@.len() == bytes.len(),
        decreases MAX_HEADER_LEN - front@.len() + (if open {
            1int
        } else {
            0int
        }),
    {
        let mut one = [0u8;1];
        let ghost before = front@;
        let n = reader.read(&mut one);
        if n == 0 {
            open = false;
        } else {
            assert(one@[0] == bytes[before.len() as int]) by {
                assert(one@[0] == bytes.skip(before.len() as int).take(1)[0]);
            }
            front.push(one[0]);
            assert(front@ =~= bytes.take(front@.len() as int));
            assert(reader.remaining() =~= bytes.skip(front@.len() as int));
        }
    }
    proof {
        lemma_window_of_front(bytes, front@);
        front@.take(front@.len() as int).index_of_first_ensures(0u8);
        assert(header_window(front@).len() <= front@.len());
        assert(bytes.len() <= first.content().len());
    }
    let mut cursor = ByteCursor::new(front);
    assert(cursor.remaining() =~= cursor.data());
    let (kind, size, consumed) = match parse_stream_header(&mut cursor) {
        Ok(header) => header,
        Err(e) => {
            return Err(e);
        },
    };
    let mut wrapped = OffsetSeek { data: reader, offset: consumed };
    match wrapped.seek(SeekFrom::Start(0)) {
        Ok(_) => Ok((kind, size, wrapped)),
        Err(_) => {
            proof {
                assert(false);
            }
            vstd::pervasive::unreached()
        },
    }
}

/// A forward reader of the payload of a loose object that was decompressed
/// as a whole.
pub struct StreamReader {
    inner: ByteCursor,
}

impl ByteRead for StreamReader {
    closed spec fn remaining(&self) -> Seq<u8> {
        self.inner.remaining()
    }

    fn read(&mut self, buf: &mut [u8]) -> (n: usize)
        ensures
            n == if old(buf)@.len() <= old(self).remaining().len() {
                old(buf)@.len()
            } else {
                old(self).remaining().len()
            },
    {
        self.inner.read(buf)
    }
}

/// Decompresses the zlib stream `file` and reads the header of the loose
/// object in it. Returns the kind, the size, and a reader that stands at the
/// first byte of the payload.
pub fn file_to_stream(file: &[u8]) -> (r: Result<(Kind, u64, StreamReader), StreamError>)
    ensures
        match zlib_decoded(file@) {
            None => r == Err::<(Kind, u64, StreamReader), StreamError>(StreamError::Inflate),
            Some(raw) => match header_outcome(header_window(raw)) {
                Err(e) => r == Err::<(Kind, u64, StreamReader), StreamError>(
                    StreamError::Header(e),
                ),
                Ok((kind, size, consumed)) => r matches Ok((k, s, payload)) && k == kind && s
                    == size && payload.remaining() == raw.skip(consumed as int),
            },
        },
{
    let raw = match decode_zlib(file) {
        Some(raw) => raw,
        None => {
            return Err(StreamError::Inflate);
        },
    };
    let mut reader = ByteCursor::new(raw);
    assert(reader.remaining() =~= reader.data());
    match parse_stream_header(&mut reader) {
        Ok((kind, size, _)) => Ok((kind, size, StreamReader { inner: reader })),
        Err(e) => Err(StreamError::Header(e)),
    }
}

/// Why a loose object could not be read as a stream.
#[derive(Clone, Copy, Debug, PartialEq, Eq, Structural)]
pub enum StreamError {
    /// The bytes are no complete zlib stream.
    Inflate,
    /// The decompressed bytes do not start with a header.
    Header(Error),
}

/// The place of a loose object below the objects directory: a directory
/// named by the first byte of the id, and in it a file named by the rest.
#[derive(Clone, Debug, PartialEq, Eq)]
pub struct LoosePath {
    pub dir: String,
    pub file: String,
}

/// The place of the loose object `oid`: both names are in lowercase
/// hexadecimal.
pub fn object_path(oid: &ID) -> (path: LoosePath)
    ensures
        path.dir@ == hex_text(oid.bytes().take(1)),
        path.file@ == hex_text(oid.bytes().skip(1)),
        path.dir@ + path.file@ == hex_text(oid.bytes()),
        path.dir@.len() == 2,
{
    match oid {
        ID::SHA1(hash) => {
            let bytes = hash.as_bytes().as_slice();
            let (first, rest) = bytes.split_at(1);
            proof {
                lemma_hex_text_concat(first@, rest@);
                assert(first@ + rest@ =~= bytes@);
            }
            LoosePath { dir: bytes_to_hex(first), file: bytes_to_hex(rest) }
        },
    }
}

} // verus!
