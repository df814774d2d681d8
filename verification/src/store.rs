//! The object store: what a lookup makes of the bytes of a loose file or of
//! a packed object, and how an object is staged for writing and published.

use crate::flate::{scan, stored_content, DeflateError, ParsedDeflate};
use crate::hash::{lemma_same_bytes, sha1, sha1_of};
use crate::loose::{
    file_to_stream, header_bytes, header_fits, header_outcome, header_window, lemma_header_fits,
    lemma_header_round_trip, object_header, parse_seek_header, Error as HeaderError, OffsetSeek,
    StreamError, StreamReader, MAX_HEADER_LEN,
};
use crate::obj::{HashType, Kind, ID};
use crate::source::{ByteCursor, ByteRead};
use crate::zlib::{
    decode_zlib, encode_zlib, encodes, stored_only, zlib_decoded, Error as ZlibError, ZlibHeader,
    LEVEL_BEST, LEVEL_STORE,
};
use vstd::prelude::*;
use vstd::slice::slice_subrange;

verus! {

/// The size of the buffers through which streams are read.
pub const CHUNK: usize = 4096;

/// The bytes of an object, in one of three forms.
pub enum ObjectView {
    /// The bytes themselves: a packed object.
    Buffer(Vec<u8>),
    /// A forward reader: a loose object with a block that is not stored.
    Stream(StreamReader),
    /// A seeking reader: a loose object of stored blocks only.
    Seek(OffsetSeek),
}

impl ObjectView {
    /// The bytes of the object that the view still delivers.
    pub open spec fn bytes(&self) -> Seq<u8> {
        match self {
            ObjectView::Buffer(data) => data@,
            ObjectView::Stream(reader) => reader.remaining(),
            ObjectView::Seek(reader) => reader.remaining(),
        }
    }

    /// Reads the view to its end.
    pub fn into_bytes(self) -> (data: Vec<u8>)
        ensures
            data@ == self.bytes(),
    {
        match self {
            ObjectView::Buffer(data) => data,
            ObjectView::Stream(reader) => {
                let mut reader = reader;
                read_to_end(&mut reader)
            },
            ObjectView::Seek(reader) => {
                let mut reader = reader;
                read_to_end(&mut reader)
            },
        }
    }
}

/// Why a loose object could not be opened.
#[derive(Clone, Copy, Debug, PartialEq, Eq, Structural)]
pub enum FindError {
    /// The file does not start with an acceptable zlib header.
    Zlib(ZlibError),
    /// The block headers of the DEFLATE stream are damaged.
    Deflate(DeflateError),
    /// The decompressed bytes do not start with an object header.
    Header(HeaderError),
    /// The file is no complete zlib stream.
    Inflate,
}

/// What a loose file holds: the kind and the size that its header declares,
/// the bytes after the header, and whether they can be had by seeking.
pub ghost struct Opened {
    pub kind: Kind,
    pub size: u64,
    pub payload: Seq<u8>,
    pub seekable: bool,
}

/// What reading the whole of `file` as a zlib stream gives.
pub open spec fn stream_outcome(file: Seq<u8>) -> Result<Opened, FindError> {
    match zlib_decoded(file) {
        None => Err(FindError::Inflate),
        Some(raw) => match header_outcome(header_window(raw)) {
            Err(e) => Err(FindError::Header(e)),
            Ok((kind, size, consumed)) => Ok(
                Opened { kind, size, payload: raw.skip(consumed as int), seekable: false },
            ),
        },
    }
}

/// What opening `file` for seeking gives. After the two bytes of the zlib
/// header the blocks are scanned. Where all are stored, the object is read
/// from their payloads; where the scan stops before a block that is not
/// stored, the file is read as a stream.
pub open spec fn loose_outcome(file: Seq<u8>) -> Result<Opened, FindError> {
    match crate::zlib::header_outcome(file) {
        Err(e) => Err(FindError::Zlib(e)),
        Ok(_) => match scan(file, 2, 0) {
            Err(e) => Err(FindError::Deflate(e)),
            Ok(found) => if found.more {
                stream_outcome(file)
            } else {
                let content = stored_content(file, found.entries);
                match header_outcome(header_window(content)) {
                    Err(e) => Err(FindError::Header(e)),
                    Ok((kind, size, consumed)) => Ok(
                        Opened {
                            kind,
                            size,
                            payload: content.skip(consumed as int),
                            seekable: true,
                        },
                    ),
                }
            },
        },
    }
}

/// Whether a view that seeks stands at the first byte of `payload`, and
/// numbers the positions of `payload` from 0.
pub open spec fn seeks_in(view: ObjectView, payload: Seq<u8>) -> bool {
    match view {
        ObjectView::Seek(reader) => reader.payload() == payload && reader.inner().position()
            == reader.offset(),
        _ => true,
    }
}

/// Whether the result `r` of opening an object is what `outcome` describes.
pub open spec fn opened_as(
    r: Result<Option<(Kind, u64, ObjectView)>, FindError>,
    outcome: Result<Opened, FindError>,
) -> bool {
    match outcome {
        Err(e) => r == Err::<Option<(Kind, u64, ObjectView)>, FindError>(e),
        Ok(opened) => r matches Ok(Some((kind, size, view))) && kind == opened.kind && size
            == opened.size && view.bytes() == opened.payload && (view is Seek <==> opened.seekable)
            && (view is Stream <==> !opened.seekable) && seeks_in(view, opened.payload),
    }
}

fn as_find_error(e: StreamError) -> (f: FindError)
    ensures
        f == match e {
            StreamError::Inflate => FindError::Inflate,
            StreamError::Header(h) => FindError::Header(h),
        },
{
    match e {
        StreamError::Inflate => FindError::Inflate,
        StreamError::Header(h) => FindError::Header(h),
    }
}

/// Opens the loose object in `file` as a stream; `None` stands for a file
/// that does not exist.
pub fn open_loose_object_stream(file: Option<Vec<u8>>) -> (r: Result<
    Option<(Kind, u64, StreamReader)>,
    FindError,
>)
    ensures
        match file {
            None => r == Ok::<Option<(Kind, u64, StreamReader)>, FindError>(None),
            Some(bytes) => match stream_outcome(bytes@) {
                Err(e) => r == Err::<Option<(Kind, u64, StreamReader)>, FindError>(e),
                Ok(opened) => r matches Ok(Some((kind, size, reader))) && kind == opened.kind
                    && size == opened.size && reader.remaining() == opened.payload,
            },
        },
{
    match file {
        None => Ok(None),
        Some(bytes) => match file_to_stream(bytes.as_slice()) {
            Ok(found) => Ok(Some(found)),
            Err(e) => Err(as_find_error(e)),
        },
    }
}

/// Opens the loose object in `file`; `None` stands for a file that does not
/// exist. The view seeks where the file consists of stored blocks only, and
/// streams otherwise.
pub fn open_loose_object_seek(file: Option<Vec<u8>>) -> (r: Result<
    Option<(Kind, u64, ObjectView)>,
    FindError,
>)
    ensures
        match file {
            None => r == Ok::<Option<(Kind, u64, ObjectView)>, FindError>(None),
            Some(bytes) => opened_as(r, loose_outcome(bytes@)),
        },
{
    let bytes = match file {
        None => {
            return Ok(None);
        },
        Some(bytes) => bytes,
    };
    let ghost data = bytes@;
    let mut cursor = ByteCursor::new(bytes);
    assert(cursor.remaining() =~= data);
    if let Err(e) = ZlibHeader::parse(&mut cursor) {
        return Err(FindError::Zlib(e));
    }
    let deflate = match ParsedDeflate::parse(cursor) {
        Ok(deflate) => deflate,
        Err(e) => {
            return Err(FindError::Deflate(e));
        },
    };
    match deflate.into_reader() {
        Ok(reader) => {
            proof {
                use_type_invariant(&reader);
                reader.lemma_content_len();
                assert(reader.remaining() =~= reader.content());
            }
            match parse_seek_header(reader) {
                Ok((kind, size, wrapped)) => {
                    proof {
                        crate::loose::lemma_window_len(reader.content());
                    }
                    Ok(Some((kind, size, ObjectView::Seek(wrapped))))
                },
                Err(e) => Err(FindError::Header(e)),
            }
        },
        Err(raw) => {
            let bytes = raw.into_inner();
            match file_to_stream(bytes.as_slice()) {
                Ok((kind, size, reader)) => Ok(Some((kind, size, ObjectView::Stream(reader)))),
                Err(e) => Err(as_find_error(e)),
            }
        },
    }
}

/// What a lookup does after it has looked for the loose file of an object.
pub enum Probe {
    /// The object is loose: its kind, its length, and a view of its bytes.
    Found(Kind, u64, ObjectView),
    /// There is no loose file: the packs are to be asked.
    AskPacks,
}

/// The first step of a lookup, once the loose file of the object has been
/// looked for: the object where the file is there, and the packs' turn where
/// it is not. `None` stands for a file that does not exist.
pub fn lookup_loose(file: Option<Vec<u8>>) -> (r: Result<Probe, FindError>)
    ensures
        match file {
            None => r matches Ok(Probe::AskPacks),
            Some(bytes) => match loose_outcome(bytes@) {
                Err(e) => r == Err::<Probe, FindError>(e),
                Ok(opened) => r matches Ok(Probe::Found(kind, size, view)) && opened_as(
                    Ok(Some((kind, size, view))),
                    Ok(opened),
                ),
            },
        },
{
    match open_loose_object_seek(file) {
        Ok(Some((kind, size, view))) => Ok(Probe::Found(kind, size, view)),
        Ok(None) => Ok(Probe::AskPacks),
        Err(e) => Err(e),
    }
}

/// What a lookup in the packs found, as an object: its kind, its length, and
/// its bytes in a buffer.
pub fn open_packed_object(found: Option<(Kind, Vec<u8>)>) -> (r: Option<(Kind, u64, ObjectView)>)
    ensures
        match found {
            None => r is None,
            Some((kind, data)) => r matches Some((k, size, view)) && k == kind && size
                == data@.len() && view == ObjectView::Buffer(data),
        },
{
    match found {
        None => None,
        Some((kind, data)) => {
            let size = data.len() as u64;
            Some((kind, size, ObjectView::Buffer(data)))
        },
    }
}

/// Reads `reader` to its end.
pub fn read_to_end<R: ByteRead>(reader: &mut R) -> (out: Vec<u8>)
    ensures
        out@ == old(reader).remaining(),
        final(reader).remaining().len() == 0,
{
    let ghost all = reader.remaining();
    let mut out: Vec<u8> = Vec::new();
    let mut buffer = [0u8;CHUNK];
    let mut open = true;
    assert(all.skip(0) =~= all);
    assert(all.take(0) =~= out@);
    while open
        invariant
            out@.len() <= all.len(),
            out@ == all.take(out@.len() as int),
            reader.remaining() == all.skip(out@.len() as int),
            !open ==> out@.len() == all.len(),
        decreases all.len() - out@.len() + (if open {
            1int
        } else {
            0int
        }),
    {
        let ghost before = out@;
        let n = reader.read(&mut buffer);
        if n == 0 {
            open = false;
        } else {
            let chunk = slice_subrange(buffer.as_slice(), 0, n);
            out.extend_from_slice(chunk);
            assert(out@ =~= all.take(out@.len() as int)) by {
                assert(chunk@ =~= all.skip(before.len() as int).take(n as int));
            }
            assert(reader.remaining() =~= all.skip(out@.len() as int));
        }
    }
    assert(out@ =~= all);
    out
}

/// Whether the first `len` of the pending bytes of `x`, which are those from
/// `i` to `x_end`, equal the first `len` of the pending bytes of `y`.
fn pending_equal(x: &[u8], i: usize, x_end: usize, y: &[u8], j: usize, y_end: usize, len: usize) -> (r:
    bool)
    requires
        i + len <= x_end <= x@.len(),
        j + len <= y_end <= y@.len(),
    ensures
        r == (x@.subrange(i as int, x_end as int).take(len as int) == y@.subrange(
            j as int,
            y_end as int,
        ).take(len as int)),
        x@.subrange(i + len, x_end as int) == x@.subrange(i as int, x_end as int).skip(len as int),
        y@.subrange(j + len, y_end as int) == y@.subrange(j as int, y_end as int).skip(len as int),
{
    let ghost p = x@.subrange(i as int, x_end as int);
    let ghost q = y@.subrange(j as int, y_end as int);
    assert(x@.subrange(i + len, x_end as int) =~= p.skip(len as int));
    assert(y@.subrange(j + len, y_end as int) =~= q.skip(len as int));
    let mut k: usize = 0;
    assert(p.take(0) =~= q.take(0));
    while k < len
        invariant
            k <= len,
            x_end <= x@.len(),
            y_end <= y@.len(),
            i + len <= x_end,
            j + len <= y_end,
            p == x@.subrange(i as int, x_end as int),
            q == y@.subrange(j as int, y_end as int),
            p.take(k as int) == q.take(k as int),
        decreases len - k,
    {
        if x[i + k] != y[j + k] {
            assert(p.take(len as int)[k as int] != q.take(len as int)[k as int]);
            return false;
        }
        proof {
            assert(p.take(k + 1) =~= p.take(k as int).push(x@[i + k]));
            assert(q.take(k + 1) =~= q.take(k as int).push(y@[j + k]));
        }
        k += 1;
    }
    true
}

/// Reads into `buffer` from its front. The bytes read and the bytes that
/// remain are together what remained before.
fn refill<R: ByteRead>(reader: &mut R, buffer: &mut [u8]) -> (n: usize)
    ensures
        final(buffer)@.len() == old(buffer)@.len(),
        n <= old(buffer)@.len(),
        final(buffer)@.subrange(0, n as int) + final(reader).remaining() == old(
            reader,
        ).remaining(),
        n == 0 ==> old(buffer)@.len() == 0 || final(reader).remaining().len() == 0,
{
    let n = reader.read(buffer);
    assert(buffer@.subrange(0, n as int) + reader.remaining() =~= old(reader).remaining());
    n
}

/// Two streams that agree so far, and whose pending bytes are compared over
/// `span` bytes: they agree further where the bytes are the same, and differ
/// where they are not.
proof fn lemma_compared(
    a: Seq<u8>,
    b: Seq<u8>,
    done: int,
    held1: Seq<u8>,
    r1: Seq<u8>,
    held2: Seq<u8>,
    r2: Seq<u8>,
    span: int,
)
    requires
        0 <= done <= a.len(),
        done <= b.len(),
        a.take(done) == b.take(done),
        held1 + r1 == a.skip(done),
        held2 + r2 == b.skip(done),
        0 < span <= held1.len(),
        span <= held2.len(),
    ensures
        held1.take(span) == held2.take(span) ==> a.take(done + span) == b.take(done + span),
        held1.take(span) != held2.take(span) ==> a != b,
        held1.skip(span) + r1 == a.skip(done + span),
        held2.skip(span) + r2 == b.skip(done + span),
        done + span <= a.len(),
        done + span <= b.len(),
{
    assert(a.skip(done).len() == held1.len() + r1.len());
    assert(b.skip(done).len() == held2.len() + r2.len());
    assert(held1.take(span) =~= a.subrange(done, done + span)) by {
        assert forall|k: int| 0 <= k < span implies held1.take(span)[k] == a.subrange(
            done,
            done + span,
        )[k] by {
            assert((held1 + r1)[k] == a.skip(done)[k]);
        }
    }
    assert(held2.take(span) =~= b.subrange(done, done + span)) by {
        assert forall|k: int| 0 <= k < span implies held2.take(span)[k] == b.subrange(
            done,
            done + span,
        )[k] by {
            assert((held2 + r2)[k] == b.skip(done)[k]);
        }
    }
    assert(a.take(done + span) =~= a.take(done) + a.subrange(done, done + span));
    assert(b.take(done + span) =~= b.take(done) + b.subrange(done, done + span));
    assert(held1.skip(span) + r1 =~= (held1 + r1).skip(span));
    assert(held2.skip(span) + r2 =~= (held2 + r2).skip(span));
    assert(a.skip(done).skip(span) =~= a.skip(done + span));
    assert(b.skip(done).skip(span) =~= b.skip(done + span));
    if a == b && held1.take(span) != held2.take(span) {
        assert(a.subrange(done, done + span) == b.subrange(done, done + span));
    }
}

/// Two streams that agree so far, one of which has come to its end: they
/// are equal where the other has ended too.
proof fn lemma_finished(a: Seq<u8>, b: Seq<u8>, done: int, rest1: int, rest2: int)
    requires
        0 <= done,
        a.take(done) == b.take(done),
        a.skip(done).len() == rest1,
        b.skip(done).len() == rest2,
        done <= a.len(),
        done <= b.len(),
        rest1 == 0 || rest2 == 0,
    ensures
        (a == b) == (rest1 == 0 && rest2 == 0),
{
    if rest1 == 0 && rest2 == 0 {
        assert(a =~= a.take(done));
        assert(b =~= b.take(done));
    } else {
        assert(a.len() != b.len());
    }
}

/// Whether two readers deliver the same bytes to their ends. Both are read
/// through buffers of `CHUNK` bytes, whatever the portions in which each
/// hands its bytes out.
pub fn streams_equal<A: ByteRead, B: ByteRead>(reader1: &mut A, reader2: &mut B) -> (equal: bool)
    ensures
        equal == (old(reader1).remaining() == old(reader2).remaining()),
{
    let ghost a = reader1.remaining();
    let ghost b = reader2.remaining();
    let mut buffer1 = [0u8;CHUNK];
    let mut buffer2 = [0u8;CHUNK];
    let mut begin1: usize = 0;
    let mut end1: usize = 0;
    let mut begin2: usize = 0;
    let mut end2: usize = 0;
    let ghost mut done: int = 0;
    assert(buffer1@.subrange(0, 0) + a =~= a.skip(0));
    assert(buffer2@.subrange(0, 0) + b =~= b.skip(0));
    assert(a.take(0) =~= b.take(0));
    loop
        invariant
            a == old(reader1).remaining(),
            b == old(reader2).remaining(),
            begin1 <= end1 <= CHUNK,
            begin2 <= end2 <= CHUNK,
            0 <= done <= a.len(),
            done <= b.len(),
            a.take(done) == b.take(done),
            buffer1@.subrange(begin1 as int, end1 as int) + reader1.remaining() == a.skip(done),
            buffer2@.subrange(begin2 as int, end2 as int) + reader2.remaining() == b.skip(done),
        decreases a.len() - done,
    {
        if begin1 == end1 {
            assert(buffer1@.subrange(begin1 as int, end1 as int) + reader1.remaining()
                =~= reader1.remaining());
            begin1 = 0;
            end1 = refill(reader1, &mut buffer1);
        }
        if begin2 == end2 {
            assert(buffer2@.subrange(begin2 as int, end2 as int) + reader2.remaining()
                =~= reader2.remaining());
            begin2 = 0;
            end2 = refill(reader2, &mut buffer2);
        }
        let ghost held1 = buffer1@.subrange(begin1 as int, end1 as int);
        let ghost held2 = buffer2@.subrange(begin2 as int, end2 as int);
        let left = end1 - begin1;
        let right = end2 - begin2;
        let span = if left < right {
            left
        } else {
            right
        };
        if span == 0 {
            proof {
                lemma_finished(
                    a,
                    b,
                    done,
                    (held1.len() + reader1.remaining().len()) as int,
                    (held2.len() + reader2.remaining().len()) as int,
                );
            }
            return begin1 == end1 && begin2 == end2;
        }
        let same = pending_equal(
            buffer1.as_slice(),
            begin1,
            end1,
            buffer2.as_slice(),
            begin2,
            end2,
            span,
        );
        proof {
            lemma_compared(
                a,
                b,
                done,
                held1,
                reader1.remaining(),
                held2,
                reader2.remaining(),
                span as int,
            );
        }
        if !same {
            return false;
        }
        proof {
            done = done + span;
        }
        begin1 = begin1 + span;
        begin2 = begin2 + span;
    }
}

/// An object that is being written: the kind and the length that its
/// header declares, and the payload so far.
pub struct WriteHandle {
    kind: Kind,
    len: u64,
    payload: Vec<u8>,
    compression: bool,
}

/// An object that is ready to be published: its id, and the bytes of its file.
#[derive(Debug)]
pub struct Staged {
    pub id: ID,
    pub file: Vec<u8>,
}

/// Why an object could not be published.
#[derive(Clone, Copy, Debug, PartialEq, Eq, Structural)]
pub enum WriteError {
    /// The file that holds the id's place is no complete zlib stream.
    ExistingUnreadable,
    /// The staged file is no complete zlib stream.
    StagedUnreadable,
    /// The file that holds the id's place decompresses to other bytes than
    /// the object: two different objects with one id.
    Collision,
}

/// How the attempt to put a staged file in its place ended.
pub enum Publish {
    /// The file is in its place: the object is new.
    Created,
    /// The place is taken by a file with these bytes.
    Clashed { existing: Vec<u8> },
}

/// Whether `staged` is the staged form of the raw bytes `raw`, header and
/// payload: named by their digest, and holding a zlib stream of them.
pub open spec fn staged_for(staged: Staged, raw: Seq<u8>) -> bool {
    staged.id.bytes() == sha1_of(raw) && encodes(staged.file@, raw)
}

/// What opening the file of an object gives that was written with the
/// header for `kind` and the length of `payload`, and with `payload` after
/// it: the object, by seeking where the file consists of stored blocks only,
/// and as a stream otherwise.
pub open spec fn opens_as(file: Seq<u8>, kind: Kind, payload: Seq<u8>) -> bool {
    &&& loose_outcome(file) == Ok::<Opened, FindError>(
        Opened { kind, size: payload.len() as u64, payload, seekable: stored_only(file) },
    )
    &&& stream_outcome(file) == Ok::<Opened, FindError>(
        Opened { kind, size: payload.len() as u64, payload, seekable: false },
    )
}

/// Starts an object of kind `object_type` whose payload will have `len`
/// bytes. The header stands at the front of what is written.
pub fn write(object_type: Kind, hash_type: HashType, len: u64, compression: bool) -> (handle:
    WriteHandle)
    ensures
        handle.kind() == object_type,
        handle.declared_len() == len,
        handle.payload() == Seq::<u8>::empty(),
        handle.written() == header_bytes(object_type, len),
        handle.compression() == compression,
{
    let handle = match hash_type {
        HashType::Sha1 => WriteHandle { kind: object_type, len, payload: Vec::new(), compression },
    };
    assert(handle.written() =~= header_bytes(object_type, len));
    handle
}

impl WriteHandle {
    /// The kind that the header declares.
    pub closed spec fn kind(&self) -> Kind {
        self.kind
    }

    /// The length that the header declares.
    pub closed spec fn declared_len(&self) -> u64 {
        self.len
    }

    /// The payload so far.
    pub closed spec fn payload(&self) -> Seq<u8> {
        self.payload@
    }

    /// The bytes written so far: the header, and the payload after it.
    pub open spec fn written(&self) -> Seq<u8> {
        header_bytes(self.kind(), self.declared_len()) + self.payload()
    }

    /// Whether the object will be compressed, or only stored.
    pub closed spec fn compression(&self) -> bool {
        self.compression
    }

    /// Adds `buf` to the payload. All of it is taken.
    pub fn write(&mut self, buf: &[u8]) -> (n: usize)
        ensures
            n == buf@.len(),
            final(self).kind() == old(self).kind(),
            final(self).declared_len() == old(self).declared_len(),
            final(self).payload() == old(self).payload() + buf@,
            final(self).written() == old(self).written() + buf@,
            final(self).compression() == old(self).compression(),
    {
        self.payload.extend_from_slice(buf);
        assert(self.written() =~= old(self).written() + buf@);
        buf.len()
    }

    /// Nothing is held back, so there is nothing to flush.
    pub fn flush(&mut self)
        ensures
            *final(self) == *old(self),
    {
    }

    /// Ends the object: names it by the SHA-1 digest of all that was written,
    /// header and payload, and compresses all that was written into the bytes
    /// of its file.
    ///
    /// Where the payload has the length that the header declares, and the
    /// header fits in the bytes that are searched for it, the file opens as
    /// the object that was written.
    pub fn end(self) -> (staged: Staged)
        ensures
            staged_for(staged, self.written()),
            staged.id.bytes() == sha1_of(self.written()),
            zlib_decoded(staged.file@) == Some(self.written()),
            self.payload().len() == self.declared_len() && header_fits(
                self.kind(),
                self.declared_len(),
            ) ==> opens_as(staged.file@, self.kind(), self.payload()),
    {
        let mut raw = object_header(self.kind, self.len);
        let mut payload = self.payload;
        raw.append(&mut payload);
        let id = ID::SHA1(sha1(raw.as_slice()));
        let level = if self.compression {
            LEVEL_BEST
        } else {
            LEVEL_STORE
        };
        match encode_zlib(raw.as_slice(), level) {
            Some(file) => {
                proof {
                    lemma_header_fits(self.kind(), self.declared_len());
                    if self.payload().len() == self.declared_len() && header_fits(
                        self.kind(),
                        self.declared_len(),
                    ) {
                        lemma_round_trip(self.kind(), self.payload(), file@);
                    }
                }
                Staged { id, file }
            },
            None => {
                proof {
                    assert(false);
                }
                vstd::pervasive::unreached()
            },
        }
    }
}

/// What the bytes of the file in an object's place and those of the staged
/// file come to: the object is there already where both decompress to the
/// same bytes, and the store is damaged where they do not.
pub open spec fn clash_outcome(existing: Seq<u8>, staged: Seq<u8>) -> Result<(), WriteError> {
    match zlib_decoded(existing) {
        None => Err(WriteError::ExistingUnreadable),
        Some(old) => match zlib_decoded(staged) {
            None => Err(WriteError::StagedUnreadable),
            Some(new) => if old == new {
                Ok(())
            } else {
                Err(WriteError::Collision)
            },
        },
    }
}

/// Compares the file in an object's place with the staged file, by the
/// bytes to which they decompress.
pub fn resolve_clash(existing: &[u8], staged: &[u8]) -> (r: Result<(), WriteError>)
    ensures
        r == clash_outcome(existing@, staged@),
{
    let old = match decode_zlib(existing) {
        Some(old) => old,
        None => {
            return Err(WriteError::ExistingUnreadable);
        },
    };
    let new = match decode_zlib(staged) {
        Some(new) => new,
        None => {
            return Err(WriteError::StagedUnreadable);
        },
    };
    let mut reader1 = ByteCursor::new(old);
    let mut reader2 = ByteCursor::new(new);
    assert(reader1.remaining() =~= reader1.data());
    assert(reader2.remaining() =~= reader2.data());
    if streams_equal(&mut reader1, &mut reader2) {
        Ok(())
    } else {
        Err(WriteError::Collision)
    }
}

/// What publishing comes to.
pub open spec fn publish_outcome(staged: Staged, publish: Publish) -> Result<ID, WriteError> {
    match publish {
        Publish::Created => Ok(staged.id),
        Publish::Clashed { existing } => match clash_outcome(existing@, staged.file@) {
            Ok(()) => Ok(staged.id),
            Err(e) => Err(e),
        },
    }
}

/// Concludes the writing of an object once the attempt to put its file in
/// place has ended: the id of a new object, the id of an object that was
/// there already, or the error.
pub fn conclude(staged: Staged, publish: Publish) -> (r: Result<ID, WriteError>)
    ensures
        r == publish_outcome(staged, publish),
{
    match publish {
        Publish::Created => Ok(staged.id),
        Publish::Clashed { existing } => match resolve_clash(
            existing.as_slice(),
            staged.file.as_slice(),
        ) {
            Ok(()) => Ok(staged.id),
            Err(e) => Err(e),
        },
    }
}

/// An object that was written is read back: a file that holds the header
/// for `kind` and the length of `payload`, and then `payload`, opens as an
/// object of that kind and length whose bytes are `payload`, by seeking where
/// the file consists of stored blocks only, and as a stream otherwise.
///
/// The header must fit in the bytes that are searched for it.
pub proof fn lemma_round_trip(kind: Kind, payload: Seq<u8>, file: Seq<u8>)
    requires
        payload.len() <= u64::MAX,
        header_bytes(kind, payload.len() as u64).len() <= MAX_HEADER_LEN,
        encodes(file, header_bytes(kind, payload.len() as u64) + payload),
    ensures
        stream_outcome(file) == Ok::<Opened, FindError>(
            Opened { kind, size: payload.len() as u64, payload, seekable: false },
        ),
        loose_outcome(file) == Ok::<Opened, FindError>(
            Opened { kind, size: payload.len() as u64, payload, seekable: stored_only(file) },
        ),
{
    lemma_header_round_trip(kind, payload.len() as u64, payload);
}

/// A file in which the scan meets a block that is not stored is never
/// opened for seeking: it is opened as a stream, or not at all.
pub proof fn lemma_stream_fallback(file: Seq<u8>)
    requires
        scan(file, 2, 0) matches Ok(found) && found.more,
    ensures
        loose_outcome(file) matches Ok(opened) ==> !opened.seekable && stream_outcome(file) == Ok::<
            Opened,
            FindError,
        >(opened),
{
}

/// Writing the same bytes twice names the object alike both times, and the
/// second writing finds the first in place without a collision.
pub proof fn lemma_idempotent_write(raw: Seq<u8>, first: Staged, second: Staged)
    requires
        staged_for(first, raw),
        staged_for(second, raw),
    ensures
        first.id == second.id,
        publish_outcome(second, Publish::Created) == Ok::<ID, WriteError>(first.id),
        publish_outcome(second, Publish::Clashed { existing: first.file }) == Ok::<
            ID,
            WriteError,
        >(first.id),
{
    match (first.id, second.id) {
        (ID::SHA1(a), ID::SHA1(b)) => {
            lemma_same_bytes(a, b);
        },
    }
}

/// An object whose place is taken by a file that decompresses to other bytes
/// is refused as a collision.
pub proof fn lemma_collision_detected(raw: Seq<u8>, staged: Staged, existing: Vec<u8>, other: Seq<u8>)
    requires
        staged_for(staged, raw),
        zlib_decoded(existing@) == Some(other),
        other != raw,
    ensures
        publish_outcome(staged, Publish::Clashed { existing }) == Err::<ID, WriteError>(
            WriteError::Collision,
        ),
{
}

} // verus!
