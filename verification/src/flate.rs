//! Stored blocks of a DEFLATE stream (RFC 1951): the index over their
//! boundaries, the scan that builds it, and the reader that seeks by it.

use crate::source::{
    bytes_from, copy_at, resolve_seek, seek_outcome, ByteCursor, ByteRead, SeekError, SeekFrom,
};
use vstd::prelude::*;

verus! {

/// Why the scan of a DEFLATE stream failed.
#[derive(Clone, Copy, Debug, PartialEq, Eq, Structural)]
pub enum DeflateError {
    /// The source ended inside a block header.
    UnexpectedEof,
    /// The block that starts at `offset` is stored, and its length `len` and
    /// check value `nlen` are not each other's complement.
    InvalidStoredLength { offset: u64, len: u16, nlen: u16 },
    /// The block that starts at `offset` has the reserved type 11.
    ReservedBlockType { offset: u64 },
    /// The payload of a stored block ends beyond the last position of a source.
    Seek(SeekError),
}

/// The decompressed offset at which block `i` of the entries `e` starts.
pub open spec fn out_start(e: Seq<(u64, u64)>, i: int) -> int {
    if i <= 0 {
        0
    } else {
        e[i - 1].1 as int
    }
}

/// The source offset at which the header of block `i` starts, in a stream
/// that starts at `base`.
pub open spec fn block_start(base: int, e: Seq<(u64, u64)>, i: int) -> int {
    if i <= 0 {
        base
    } else {
        e[i - 1].0 as int
    }
}

/// The source offset at which the payload of block `i` starts.
pub open spec fn payload_start(e: Seq<(u64, u64)>, i: int) -> int {
    e[i].0 - (e[i].1 - out_start(e, i))
}

/// Whether entry `i` of `e` ends a stored block that follows the block before
/// it: five header bytes and the payload, by whose length the decompressed
/// offset grows.
pub open spec fn block_ok(base: int, e: Seq<(u64, u64)>, i: int) -> bool {
    &&& out_start(e, i) <= e[i].1
    &&& e[i].0 == block_start(base, e, i) + 5 + (e[i].1 - out_start(e, i))
}

/// Whether `e` lists the ends of consecutive stored blocks of a stream that
/// starts at `base`.
pub open spec fn linked(base: int, e: Seq<(u64, u64)>) -> bool {
    forall|i: int| 0 <= i < e.len() ==> #[trigger] block_ok(base, e, i)
}

/// What a scan finds: the ends of the stored blocks as pairs of source
/// offset and decompressed offset, whether it stopped before a block that is
/// not stored, and the source offset at which it stopped.
pub ghost struct Scanned {
    pub entries: Seq<(u64, u64)>,
    pub more: bool,
    pub stop: nat,
}

/// The length field of the stored block whose header starts at `pos`.
pub open spec fn stored_len(data: Seq<u8>, pos: int) -> int {
    data[pos + 1] as int + 256 * (data[pos + 2] as int)
}

/// The check field of the stored block whose header starts at `pos`.
pub open spec fn stored_nlen(data: Seq<u8>, pos: int) -> int {
    data[pos + 3] as int + 256 * (data[pos + 4] as int)
}

/// The scan of `data` from the block header at `pos`, where `out` bytes of
/// decompressed data precede that block.
///
/// A block is final where bit 0 of its first byte is set; bits 1 and 2 give
/// its type. A stored block (type 0) is followed by its length and check
/// value, two bytes each with the low byte first, and by its payload. The scan
/// ends after a final stored block, before a block of type 1 or 2, or with an
/// error.
pub open spec fn scan(data: Seq<u8>, pos: nat, out: nat) -> Result<Scanned, DeflateError>
    decreases
            (if pos < data.len() {
                data.len() - pos
            } else {
                0
            }),
{
    if pos >= data.len() {
        Err(DeflateError::UnexpectedEof)
    } else {
        let block_type = (data[pos as int] as int / 2) % 4;
        let is_final = data[pos as int] as int % 2 == 1;
        if block_type == 0 {
            if pos + 5 > data.len() {
                Err(DeflateError::UnexpectedEof)
            } else {
                let len = stored_len(data, pos as int);
                let nlen = stored_nlen(data, pos as int);
                let end = pos + 5 + len;
                if len + nlen != 0xffff {
                    Err(
                        DeflateError::InvalidStoredLength {
                            offset: pos as u64,
                            len: len as u16,
                            nlen: nlen as u16,
                        },
                    )
                } else if end > u64::MAX {
                    Err(
                        DeflateError::Seek(
                            SeekError::Beyond { bound: u64::MAX, excess: (end - u64::MAX) as u64 },
                        ),
                    )
                } else {
                    let entry = (end as u64, (out + len) as u64);
                    if is_final {
                        Ok(Scanned { entries: seq![entry], more: false, stop: end as nat })
                    } else {
                        prepend(seq![entry], scan(data, end as nat, (out + len) as nat))
                    }
                }
            }
        } else if block_type == 3 {
            Err(DeflateError::ReservedBlockType { offset: pos as u64 })
        } else {
            Ok(Scanned { entries: Seq::empty(), more: true, stop: pos })
        }
    }
}

/// The result `r` of a scan, with the entries `head` before its own.
pub open spec fn prepend(head: Seq<(u64, u64)>, r: Result<Scanned, DeflateError>) -> Result<
    Scanned,
    DeflateError,
> {
    match r {
        Ok(s) => Ok(Scanned { entries: head + s.entries, more: s.more, stop: s.stop }),
        Err(e) => Err(e),
    }
}

/// The block index: for each stored block seen, the source offset and the
/// decompressed offset of its end.
pub struct Index {
    base: u64,
    blocks: Vec<(u64, u64)>,
}

impl View for Index {
    type V = Seq<(u64, u64)>;

    closed spec fn view(&self) -> Seq<(u64, u64)> {
        self.blocks@
    }
}

impl Index {
    /// The source offset at which the indexed stream starts.
    pub closed spec fn base(&self) -> nat {
        self.base as nat
    }

    /// The entries describe consecutive stored blocks.
    #[verifier::type_invariant]
    pub closed spec fn wf(&self) -> bool {
        linked(self.base as int, self.blocks@)
    }

    /// The decompressed length that the index covers.
    pub open spec fn total(&self) -> int {
        out_start(self@, self@.len() as int)
    }

    /// The number of entries.
    pub fn len(&self) -> (n: usize)
        ensures
            n == self@.len(),
    {
        self.blocks.len()
    }

    /// Entry `i`, if there is one: the source offset and the decompressed
    /// offset of the end of block `i`.
    pub fn get(&self, i: usize) -> (entry: Option<(u64, u64)>)
        ensures
            entry == if i < self@.len() {
                Some(self@[i as int])
            } else {
                None
            },
    {
        if i < self.blocks.len() {
            Some(self.blocks[i])
        } else {
            None
        }
    }

    fn at(&self, i: usize) -> (entry: (u64, u64))
        requires
            i < self@.len(),
        ensures
            entry == self@[i as int],
    {
        self.blocks[i]
    }

    /// The decompressed offset of the last entry, 0 for an empty index.
    pub fn total_len(&self) -> (n: u64)
        ensures
            n == self.total(),
    {
        if self.blocks.len() == 0 {
            0
        } else {
            self.blocks[self.blocks.len() - 1].1
        }
    }

    /// The first entry whose decompressed offset is greater than `pos`, or
    /// the number of entries if there is none.
    pub fn locate(&self, pos: u64) -> (i: usize)
        ensures
            i <= self@.len(),
            forall|k: int| 0 <= k < i ==> (#[trigger] self@[k]).1 <= pos,
            forall|k: int| i <= k < self@.len() ==> (#[trigger] self@[k]).1 > pos,
    {
        proof {
            use_type_invariant(self);
            lemma_offsets_sorted(self.base as int, self.blocks@);
        }
        let mut lo: usize = 0;
        let mut hi: usize = self.blocks.len();
        while lo < hi
            invariant
                lo <= hi <= self.blocks@.len(),
                forall|a: int, b: int|
                    0 <= a <= b < self.blocks@.len() ==> (#[trigger] self.blocks@[a]).1 <= (
                    #[trigger] self.blocks@[b]).1,
                forall|k: int| 0 <= k < lo ==> (#[trigger] self.blocks@[k]).1 <= pos,
                forall|k: int| hi <= k < self.blocks@.len() ==> (#[trigger] self.blocks@[k]).1 > pos,
            decreases hi - lo,
        {
            let mid = lo + (hi - lo) / 2;
            if self.blocks[mid].1 <= pos {
                lo = mid + 1;
            } else {
                hi = mid;
            }
        }
        lo
    }
}

/// In linked entries the payload of every block starts at least five bytes
/// after the start of the stream, and no later than the block ends.
pub proof fn lemma_payload_bounds(base: int, e: Seq<(u64, u64)>, i: int)
    requires
        linked(base, e),
        0 <= i < e.len(),
    ensures
        base <= block_start(base, e, i),
        block_start(base, e, i) + 5 == payload_start(e, i),
        payload_start(e, i) <= e[i].0,
        0 <= out_start(e, i) <= e[i].1,
    decreases i,
{
    assert(block_ok(base, e, i));
    if i > 0 {
        lemma_payload_bounds(base, e, i - 1);
    }
}

/// In linked entries neither offset ever decreases, and the payload of a
/// block starts five bytes after the end of the block before it.
pub proof fn lemma_offsets_ordered(base: int, e: Seq<(u64, u64)>, a: int, b: int)
    requires
        linked(base, e),
        0 <= a <= b < e.len(),
    ensures
        e[a].1 <= e[b].1,
        e[a].0 <= e[b].0,
        out_start(e, a) <= out_start(e, b),
        a < b ==> e[a].0 + 5 <= payload_start(e, b),
        payload_start(e, a) <= payload_start(e, b),
    decreases b - a,
{
    lemma_payload_bounds(base, e, a);
    lemma_payload_bounds(base, e, b);
    if a < b {
        lemma_offsets_ordered(base, e, a, b - 1);
        lemma_payload_bounds(base, e, b - 1);
    }
}

/// In linked entries the decompressed offsets are sorted.
proof fn lemma_offsets_sorted(base: int, e: Seq<(u64, u64)>)
    requires
        linked(base, e),
    ensures
        forall|a: int, b: int|
            0 <= a <= b < e.len() ==> (#[trigger] e[a]).1 <= (#[trigger] e[b]).1,
{
    assert forall|a: int, b: int| 0 <= a <= b < e.len() implies (#[trigger] e[a]).1 <= (
    #[trigger] e[b]).1 by {
        lemma_offsets_ordered(base, e, a, b);
    }
}

/// The flag and the type in the first byte of a block.
proof fn lemma_block_fields(head: u8)
    ensures
        (head & 1) as int == head as int % 2,
        ((head >> 1) & 3) as int == (head as int / 2) % 4,
{
    assert((head & 1) == head % 2) by (bit_vector);
    assert(((head >> 1) & 3) == (head / 2) % 4) by (bit_vector);
}

/// The length and the check value of a stored block, low byte first, and
/// what it is for one to be the complement of the other.
proof fn lemma_stored_fields(b0: u8, b1: u8, b2: u8, b3: u8)
    ensures
        (b0 as u16 | ((b1 as u16) << 8)) as int == b0 as int + 256 * (b1 as int),
        (b2 as u16 | ((b3 as u16) << 8)) as int == b2 as int + 256 * (b3 as int),
        (b0 as u16 | ((b1 as u16) << 8)) != !(b2 as u16 | ((b3 as u16) << 8)) <==> (b0 as int + 256
            * (b1 as int)) + (b2 as int + 256 * (b3 as int)) != 0xffff,
{
    assert((b0 as u16 | ((b1 as u16) << 8)) == b0 as u16 + 256 * (b1 as u16)) by (bit_vector);
    assert((b2 as u16 | ((b3 as u16) << 8)) == b2 as u16 + 256 * (b3 as u16)) by (bit_vector);
    let len = b0 as u16 | ((b1 as u16) << 8);
    let nlen = b2 as u16 | ((b3 as u16) << 8);
    assert(len != !nlen <==> len + nlen != 0xffff) by (bit_vector);
}

/// Linked entries stay linked when the end of the next stored block is added.
proof fn lemma_push_linked(base: int, before: Seq<(u64, u64)>, entry: (u64, u64))
    requires
        linked(base, before),
        out_start(before, before.len() as int) <= entry.1,
        entry.0 == block_start(base, before, before.len() as int) + 5 + (entry.1 - out_start(
            before,
            before.len() as int,
        )),
    ensures
        linked(base, before.push(entry)),
        block_start(base, before.push(entry), before.len() as int + 1) == entry.0,
        out_start(before.push(entry), before.len() as int + 1) == entry.1,
{
    let after = before.push(entry);
    assert forall|i: int| 0 <= i < after.len() implies #[trigger] block_ok(base, after, i) by {
        if i < before.len() {
            assert(block_ok(base, before, i));
            assert(after[i] == before[i]);
            if i > 0 {
                assert(after[i - 1] == before[i - 1]);
            }
        } else if i > 0 {
            assert(after[i - 1] == before[i - 1]);
        }
    }
}

/// Putting no entries before a scan's result leaves it as it is.
proof fn lemma_prepend_nothing(r: Result<Scanned, DeflateError>)
    ensures
        prepend(Seq::empty(), r) == r,
{
    match r {
        Ok(s) => {
            assert(Seq::<(u64, u64)>::empty() + s.entries =~= s.entries);
        },
        Err(_) => {},
    }
}

/// Entries may be put before a scan's result one at a time.
proof fn lemma_prepend_push(head: Seq<(u64, u64)>, entry: (u64, u64), r: Result<Scanned, DeflateError>)
    ensures
        prepend(head, prepend(seq![entry], r)) == prepend(head.push(entry), r),
{
    match r {
        Ok(s) => {
            assert(head + (seq![entry] + s.entries) =~= head.push(entry) + s.entries);
        },
        Err(_) => {},
    }
}

/// Entries before the result of a scan that ends at once: after one last
/// block, or before a block that is not stored.
proof fn lemma_prepend_end(head: Seq<(u64, u64)>, entry: (u64, u64), stop: nat)
    ensures
        prepend(head, Ok(Scanned { entries: seq![entry], more: false, stop })) == Ok::<
            Scanned,
            DeflateError,
        >(Scanned { entries: head.push(entry), more: false, stop }),
        prepend(head, Ok(Scanned { entries: Seq::empty(), more: true, stop })) == Ok::<
            Scanned,
            DeflateError,
        >(Scanned { entries: head, more: true, stop }),
{
    assert(head + seq![entry] =~= head.push(entry));
    assert(head + Seq::<(u64, u64)>::empty() =~= head);
}

/// The scan at a stored block whose length and check value agree.
proof fn lemma_scan_stored(data: Seq<u8>, pos: nat, out: nat)
    requires
        pos + 5 <= data.len(),
        (data[pos as int] as int / 2) % 4 == 0,
        stored_len(data, pos as int) + stored_nlen(data, pos as int) == 0xffff,
        pos + 5 + stored_len(data, pos as int) <= u64::MAX,
        out + stored_len(data, pos as int) <= u64::MAX,
    ensures
        ({
            let len = stored_len(data, pos as int);
            let entry = ((pos + 5 + len) as u64, (out + len) as u64);
            scan(data, pos, out) == if data[pos as int] as int % 2 == 1 {
                Ok::<Scanned, DeflateError>(
                    Scanned { entries: seq![entry], more: false, stop: entry.0 as nat },
                )
            } else {
                prepend(seq![entry], scan(data, entry.0 as nat, entry.1 as nat))
            }
        }),
{
}

/// A DEFLATE stream whose leading stored blocks have been indexed.
pub struct ParsedDeflate {
    src: ByteCursor,
    index: Index,
    more: bool,
}

impl ParsedDeflate {
    /// A complete index has at least one entry, that of the final block.
    #[verifier::type_invariant]
    pub closed spec fn wf(&self) -> bool {
        &&& self.index.wf()
        &&& !self.more ==> self.index@.len() > 0
    }

    /// The source, where the scan left it.
    pub closed spec fn source(&self) -> ByteCursor {
        self.src
    }

    /// The entries of the index.
    pub closed spec fn entries(&self) -> Seq<(u64, u64)> {
        self.index@
    }

    /// The source offset at which the scan started.
    pub closed spec fn base(&self) -> nat {
        self.index.base()
    }

    /// Whether the scan stopped before a block that is not stored.
    pub closed spec fn more(&self) -> bool {
        self.more
    }

    /// The block index, as far as the scan built it.
    pub fn index(&self) -> (index: &Index)
        ensures
            index@ == self.entries(),
            index.base() == self.base(),
            linked(self.base() as int, self.entries()),
    {
        proof {
            use_type_invariant(&self.index);
        }
        &self.index
    }

    /// Whether the scan stopped before a block that is not stored, so that
    /// the stream cannot be read by seeking.
    pub fn stopped_early(&self) -> (more: bool)
        ensures
            more == self.more(),
    {
        self.more
    }

    /// Scans the block headers of the DEFLATE stream that starts at the
    /// position of `src`, without reading any payload.
    ///
    /// After a final stored block the index is complete and the source is at
    /// the end of that block. Before a block with Huffman codes the scan stops
    /// and leaves the source at the first byte of that block.
    pub fn parse(src: ByteCursor) -> (r: Result<ParsedDeflate, DeflateError>)
        ensures
            match scan(src.data(), src.position(), 0) {
                Ok(s) => r matches Ok(p) && p.entries() == s.entries && p.more() == s.more
                    && p.base() == src.position() && p.source().data() == src.data()
                    && p.source().position() == s.stop,
                Err(e) => r == Err::<ParsedDeflate, DeflateError>(e),
            },
    {
        let ghost data = src.data();
        let start = src.stream_position();
        let mut cursor = src;
        let mut blocks: Vec<(u64, u64)> = Vec::new();
        let mut more = true;
        let mut src_pos = start;
        let mut out_pos = 0u64;
        proof {
            lemma_prepend_nothing(scan(data, start as nat, 0));
        }
        while more
            invariant
                data == src.data(),
                start == src.position(),
                cursor.data() == data,
                cursor.position() == src_pos,
                linked(start as int, blocks@),
                block_start(start as int, blocks@, blocks@.len() as int) == src_pos,
                out_start(blocks@, blocks@.len() as int) == out_pos,
                start + out_pos <= src_pos,
                more ==> prepend(blocks@, scan(data, src_pos as nat, out_pos as nat)) == scan(
                    data,
                    start as nat,
                    0,
                ),
                !more ==> blocks@.len() > 0 && scan(data, start as nat, 0) == Ok::<
                    Scanned,
                    DeflateError,
                >(Scanned { entries: blocks@, more: false, stop: src_pos as nat }),
            decreases
                    (if more {
                        1 + (if src_pos < data.len() {
                            data.len() - src_pos
                        } else {
                            0
                        })
                    } else {
                        0
                    }),
        {
            let ghost old_pos = src_pos;
            let ghost old_out = out_pos;
            let mut header = [0u8;1];
            if cursor.read_exact(&mut header).is_err() {
                return Err(DeflateError::UnexpectedEof);
            }
            assert(header@[0] == data[src_pos as int]) by {
                assert(header@[0] == data.skip(src_pos as int).take(1)[0]);
            }
            let bfinal = header[0] & 1;
            let btype = (header[0] >> 1) & 3;
            proof {
                lemma_block_fields(header[0]);
            }
            if btype == 0 {
                let mut len_buf = [0u8;4];
                if cursor.read_exact(&mut len_buf).is_err() {
                    return Err(DeflateError::UnexpectedEof);
                }
                assert(len_buf@[0] == data[src_pos + 1] && len_buf@[1] == data[src_pos + 2]
                    && len_buf@[2] == data[src_pos + 3] && len_buf@[3] == data[src_pos + 4]) by {
                    let rest = data.skip(src_pos + 1).take(4);
                    assert(len_buf@[0] == rest[0] && len_buf@[1] == rest[1] && len_buf@[2]
                        == rest[2] && len_buf@[3] == rest[3]);
                }
                let len = len_buf[0] as u16 | ((len_buf[1] as u16) << 8);
                let nlen = len_buf[2] as u16 | ((len_buf[3] as u16) << 8);
                proof {
                    lemma_stored_fields(len_buf[0], len_buf[1], len_buf[2], len_buf[3]);
                }
                if len != !nlen {
                    return Err(DeflateError::InvalidStoredLength { offset: src_pos, len, nlen });
                }
                let end = match cursor.seek(SeekFrom::Current(len as i64)) {
                    Ok(p) => p,
                    Err(e) => {
                        return Err(DeflateError::Seek(e));
                    },
                };
                let ghost before = blocks@;
                out_pos = out_pos + len as u64;
                src_pos = end;
                blocks.push((src_pos, out_pos));
                more = bfinal == 0;
                proof {
                    let entry = (src_pos, out_pos);
                    lemma_push_linked(start as int, before, entry);
                    lemma_scan_stored(data, old_pos as nat, old_out as nat);
                    lemma_prepend_push(before, entry, scan(data, src_pos as nat, out_pos as nat));
                    lemma_prepend_end(before, entry, src_pos as nat);
                }
            } else if btype == 3 {
                return Err(DeflateError::ReservedBlockType { offset: src_pos });
            } else {
                cursor.set_position(src_pos);
                proof {
                    lemma_prepend_end(blocks@, (src_pos, out_pos), src_pos as nat);
                }
                return Ok(ParsedDeflate { src: cursor, index: Index { base: start, blocks }, more: true });
            }
        }
        Ok(ParsedDeflate { src: cursor, index: Index { base: start, blocks }, more: false })
    }

    /// Turns a complete index into a reader of the decompressed bytes, at
    /// position 0. Where the scan stopped before a block that is not stored,
    /// the source is handed back as the scan left it.
    pub fn into_reader(self) -> (r: Result<SeekReadDeflate, ByteCursor>)
        ensures
            self.more() ==> r == Err::<SeekReadDeflate, ByteCursor>(self.source()),
            !self.more() ==> (r matches Ok(reader) && reader.data() == self.source().data()
                && reader.entries() == self.entries() && reader.base() == self.base()
                && reader.position() == 0 && reader.dirty()),
    {
        proof {
            use_type_invariant(&self);
            use_type_invariant(&self.index);
        }
        if self.more {
            Err(self.src)
        } else {
            Ok(
                SeekReadDeflate {
                    data: self.src.into_inner(),
                    index: self.index,
                    src_pos: 0,
                    place: Place { block_idx: 0, out_pos: 0 },
                    seeked: true,
                },
            )
        }
    }
}

/// `x`, brought into the range from 0 to `len`.
pub open spec fn clip(x: int, len: int) -> int {
    if x < 0 {
        0
    } else if x > len {
        len
    } else {
        x
    }
}

/// The payload of block `i`, as far as `data` holds it.
pub open spec fn payload(data: Seq<u8>, e: Seq<(u64, u64)>, i: int) -> Seq<u8> {
    data.subrange(
        clip(payload_start(e, i), data.len() as int),
        clip(e[i].0 as int, data.len() as int),
    )
}

/// The payloads of the first `k` blocks, one after the other.
pub open spec fn stored_upto(data: Seq<u8>, e: Seq<(u64, u64)>, k: nat) -> Seq<u8>
    decreases k,
{
    if k == 0 {
        Seq::empty()
    } else {
        stored_upto(data, e, (k - 1) as nat) + payload(data, e, k - 1)
    }
}

/// The decompressed bytes of a stream of stored blocks: the payloads of all
/// the blocks that `e` lists, one after the other.
pub open spec fn stored_content(data: Seq<u8>, e: Seq<(u64, u64)>) -> Seq<u8> {
    stored_upto(data, e, e.len())
}

/// The payloads of the first `k` blocks are no longer than the index says,
/// and exactly as long where the source holds them whole.
pub proof fn lemma_upto_len(base: int, data: Seq<u8>, e: Seq<(u64, u64)>, k: nat)
    requires
        linked(base, e),
        0 <= base,
        k <= e.len(),
    ensures
        stored_upto(data, e, k).len() <= out_start(e, k as int),
        (k == 0 || e[k - 1].0 <= data.len()) ==> stored_upto(data, e, k).len() == out_start(
            e,
            k as int,
        ),
    decreases k,
{
    if k > 0 {
        lemma_upto_len(base, data, e, (k - 1) as nat);
        lemma_payload_bounds(base, e, k - 1);
        if k > 1 {
            lemma_offsets_ordered(base, e, k - 2, k - 1);
        }
    }
}

/// The payloads of the first `k` blocks stand at the front of those of the first `m`.
proof fn lemma_upto_prefix(data: Seq<u8>, e: Seq<(u64, u64)>, k: nat, m: nat)
    requires
        k <= m,
    ensures
        stored_upto(data, e, k).len() <= stored_upto(data, e, m).len(),
        stored_upto(data, e, m).take(stored_upto(data, e, k).len() as int) == stored_upto(
            data,
            e,
            k,
        ),
    decreases m - k,
{
    if k < m {
        lemma_upto_prefix(data, e, k, (m - 1) as nat);
        let front = stored_upto(data, e, (m - 1) as nat);
        let whole = stored_upto(data, e, m);
        let short = stored_upto(data, e, k);
        assert(whole.take(short.len() as int) =~= front.take(short.len() as int));
    } else {
        let whole = stored_upto(data, e, m);
        assert(whole.take(whole.len() as int) =~= whole);
    }
}

/// Byte `j` of the payload of block `i` stands in the content at the
/// decompressed offset of the block plus `j`, where the source holds it.
proof fn lemma_content_at(base: int, data: Seq<u8>, e: Seq<(u64, u64)>, i: int, j: int)
    requires
        linked(base, e),
        0 <= base,
        0 <= i < e.len(),
        0 <= j,
        payload_start(e, i) + j < e[i].0,
        payload_start(e, i) + j < data.len(),
    ensures
        out_start(e, i) + j < stored_content(data, e).len(),
        stored_content(data, e)[out_start(e, i) + j] == data[payload_start(e, i) + j],
{
    lemma_payload_bounds(base, e, i);
    if i > 0 {
        lemma_offsets_ordered(base, e, i - 1, i);
    }
    lemma_upto_len(base, data, e, i as nat);
    let front = stored_upto(data, e, i as nat);
    let with_block = stored_upto(data, e, (i + 1) as nat);
    assert(with_block == front + payload(data, e, i));
    assert(with_block[out_start(e, i) + j] == payload(data, e, i)[j]);
    lemma_upto_prefix(data, e, (i + 1) as nat, e.len());
    let whole = stored_content(data, e);
    assert(whole.take(with_block.len() as int)[out_start(e, i) + j] == whole[out_start(e, i) + j]);
}

/// Where byte `j` of the payload of block `i` lies beyond the end of the
/// source, the content ends at or before the decompressed offset of that byte.
proof fn lemma_content_exhausted(
    base: int,
    data: Seq<u8>,
    e: Seq<(u64, u64)>,
    i: int,
    j: int,
    m: nat,
)
    requires
        linked(base, e),
        0 <= base,
        0 <= i < e.len(),
        0 <= j <= e[i].1 - out_start(e, i),
        payload_start(e, i) + j >= data.len(),
        m <= e.len(),
    ensures
        stored_upto(data, e, m).len() <= out_start(e, i) + j,
    decreases m,
{
    lemma_payload_bounds(base, e, i);
    if m == 0 {
    } else if m <= i {
        lemma_upto_len(base, data, e, m);
        lemma_offsets_ordered(base, e, m as int, i);
    } else if m == i + 1 {
        lemma_upto_len(base, data, e, i as nat);
    } else {
        lemma_content_exhausted(base, data, e, i, j, (m - 1) as nat);
        lemma_offsets_ordered(base, e, i, m - 1);
        lemma_payload_bounds(base, e, m - 1);
    }
}

/// The decompressed offset at which the block that holds position `p` ends:
/// that of the first entry, from entry `i` on, that lies beyond `p`, and `p`
/// itself where there is none.
#[verifier::opaque]
pub open spec fn block_end_from(e: Seq<(u64, u64)>, p: int, i: int) -> int
    decreases e.len() - i,
{
    if i < 0 || i >= e.len() {
        p
    } else if e[i].1 > p {
        e[i].1 as int
    } else {
        block_end_from(e, p, i + 1)
    }
}

/// The number of bytes that one read delivers at position `p` when `room`
/// bytes are asked for and `left` bytes remain: no more than the block that
/// holds `p` still has.
pub open spec fn read_len(e: Seq<(u64, u64)>, p: int, room: int, left: int) -> int {
    let in_block = block_end_from(e, p, 0) - p;
    let wanted = if room < in_block {
        room
    } else {
        in_block
    };
    if wanted < left {
        wanted
    } else {
        left
    }
}

proof fn lemma_block_end(base: int, e: Seq<(u64, u64)>, p: int, i: int, idx: int)
    requires
        linked(base, e),
        0 <= i <= idx <= e.len(),
        idx > 0 ==> e[idx - 1].1 <= p,
        idx < e.len() ==> e[idx].1 > p,
    ensures
        block_end_from(e, p, i) == if idx < e.len() {
            e[idx].1 as int
        } else {
            p
        },
    decreases idx - i,
{
    reveal_with_fuel(block_end_from, 2);
    if i < idx {
        lemma_offsets_ordered(base, e, i, idx - 1);
        lemma_block_end(base, e, p, i + 1, idx);
    }
}

/// The content from position `p` on; nothing where `p` lies beyond its end.
pub open spec fn content_from(data: Seq<u8>, e: Seq<(u64, u64)>, p: int) -> Seq<u8> {
    let content = stored_content(data, e);
    if 0 <= p <= content.len() {
        content.skip(p)
    } else {
        Seq::empty()
    }
}

/// One step of reading in block `idx`, at the decompressed position `p`:
/// the `n` bytes that the source gives when `want` are asked for, none of
/// them beyond the block, are the next `n` bytes of the content, and they are
/// fewer than `want` only where the content ends.
proof fn lemma_read_step(
    base: int,
    data: Seq<u8>,
    e: Seq<(u64, u64)>,
    idx: int,
    p: int,
    want: int,
    n: int,
)
    requires
        linked(base, e),
        0 <= base,
        0 <= idx < e.len(),
        out_start(e, idx) <= p < e[idx].1,
        0 <= want <= e[idx].1 - p,
        n == if want <= bytes_from(data, e[idx].0 - (e[idx].1 - p)).len() {
            want
        } else {
            bytes_from(data, e[idx].0 - (e[idx].1 - p)).len() as int
        },
    ensures
        n <= content_from(data, e, p).len(),
        content_from(data, e, p).take(n) == bytes_from(data, e[idx].0 - (e[idx].1 - p)).take(n),
        n < want ==> content_from(data, e, p).len() == n,
        content_from(data, e, p + n) == content_from(data, e, p).skip(n),
{
    let content = stored_content(data, e);
    let from = e[idx].0 - (e[idx].1 - p);
    let before = bytes_from(data, from);
    let j = p - out_start(e, idx);
    lemma_payload_bounds(base, e, idx);
    assert(from == payload_start(e, idx) + j);
    if n > 0 {
        assert forall|k: int| 0 <= k < n implies p + k < content.len() && content[p + k]
            == #[trigger] before[k] by {
            lemma_content_at(base, data, e, idx, j + k);
        }
        lemma_content_at(base, data, e, idx, j + n - 1);
    }
    if n < want {
        lemma_content_exhausted(base, data, e, idx, j + n, e.len());
    }
    assert(content_from(data, e, p).take(n) =~= before.take(n));
    assert(content_from(data, e, p + n) =~= content_from(data, e, p).skip(n));
}

/// Where in the decompressed bytes a reader stands: the block, and the offset.
struct Place {
    block_idx: usize,
    out_pos: u64,
}

/// A reader of the decompressed bytes of a stream of stored blocks, which
/// seeks by the block index.
pub struct SeekReadDeflate {
    data: Vec<u8>,
    index: Index,
    src_pos: u64,
    place: Place,
    seeked: bool,
}

impl SeekReadDeflate {
    /// The index is complete, the place lies in its block, and the source
    /// stands at the byte to read next unless the reader is marked dirty.
    #[verifier::type_invariant]
    pub closed spec fn wf(&self) -> bool {
        let e = self.index@;
        let idx = self.place.block_idx as int;
        &&& self.index.wf()
        &&& e.len() > 0
        &&& idx <= e.len()
        &&& idx < e.len() ==> out_start(e, idx) <= self.place.out_pos <= e[idx].1
        &&& idx == e.len() ==> self.place.out_pos == out_start(e, e.len() as int)
        &&& !self.seeked ==> idx < e.len() && self.src_pos == e[idx].0 - (e[idx].1
            - self.place.out_pos)
    }

    /// All the bytes of the source.
    pub closed spec fn data(&self) -> Seq<u8> {
        self.data@
    }

    /// The entries of the block index.
    pub closed spec fn entries(&self) -> Seq<(u64, u64)> {
        self.index@
    }

    /// The source offset at which the stream starts.
    pub closed spec fn base(&self) -> nat {
        self.index.base()
    }

    /// The current position in the decompressed bytes.
    pub closed spec fn position(&self) -> nat {
        self.place.out_pos as nat
    }

    /// Whether the reader is marked dirty: the source does not stand at the
    /// byte to read next, and the next read has to move it there first.
    pub closed spec fn dirty(&self) -> bool {
        self.seeked
    }

    /// The decompressed bytes that the reader can deliver.
    pub open spec fn content(&self) -> Seq<u8> {
        stored_content(self.data(), self.entries())
    }

    /// The decompressed length that the index declares.
    pub open spec fn total(&self) -> int {
        out_start(self.entries(), self.entries().len() as int)
    }

    /// The total decompressed length: the decompressed offset of the last entry.
    pub fn len(&self) -> (n: u64)
        ensures
            n == self.total(),
            self.position() <= n,
    {
        proof {
            use_type_invariant(self);
            use_type_invariant(&self.index);
            let e = self.index@;
            if self.place.block_idx < e.len() {
                lemma_offsets_ordered(
                    self.index.base as int,
                    e,
                    self.place.block_idx as int,
                    e.len() - 1,
                );
            }
        }
        self.index.total_len()
    }

    /// Whether the reader is marked dirty.
    pub fn is_dirty(&self) -> (dirty: bool)
        ensures
            dirty == self.dirty(),
    {
        self.seeked
    }

    /// The current position in the decompressed bytes.
    pub fn stream_position(&self) -> (p: u64)
        ensures
            p == self.position(),
    {
        self.place.out_pos
    }

    /// Moves to the position that `req` asks for, if it lies between 0 and
    /// the total length. A refused request changes nothing. The source itself
    /// is moved by the next read: a seek that changes the position marks the
    /// reader dirty, and a seek to the current position leaves the mark as it
    /// is.
    pub fn seek(&mut self, req: SeekFrom) -> (r: Result<u64, SeekError>)
        ensures
            r == seek_outcome(
                req,
                old(self).position() as int,
                old(self).total(),
                old(self).total(),
            ),
            final(self).data() == old(self).data(),
            final(self).entries() == old(self).entries(),
            final(self).base() == old(self).base(),
            final(self).position() == match r {
                Ok(p) => p as nat,
                Err(_) => old(self).position(),
            },
            final(self).dirty() == match r {
                Ok(p) => p != old(self).position() || old(self).dirty(),
                Err(_) => old(self).dirty(),
            },
    {
        proof {
            use_type_invariant(&*self);
            use_type_invariant(&self.index);
        }
        let len = self.len();
        let target = match resolve_seek(req, self.place.out_pos, len, len) {
            Ok(target) => target,
            Err(e) => {
                return Err(e);
            },
        };
        if target == self.place.out_pos {
            return Ok(target);
        }
        let idx = self.index.locate(target);
        self.seeked = true;
        self.place = Place { block_idx: idx, out_pos: target };
        Ok(target)
    }

    /// The reader delivers no more bytes than the index declares, and exactly
    /// as many where the source holds the last block whole.
    pub proof fn lemma_content_len(self)
        requires
            self.wf(),
        ensures
            self.content().len() <= self.total(),
            self.position() <= self.total(),
            self.entries().len() > 0,
            self.entries().last().0 <= self.data().len() ==> self.content().len() == self.total(),
    {
        let e = self.index@;
        lemma_upto_len(self.index.base as int, self.data@, e, e.len());
        if self.place.block_idx < e.len() {
            lemma_offsets_ordered(self.index.base as int, e, self.place.block_idx as int, e.len() - 1);
        }
    }

    /// Moves to position 0. A reader that is there already is left as it
    /// is; another is marked dirty.
    pub fn rewind(&mut self)
        ensures
            final(self).data() == old(self).data(),
            final(self).entries() == old(self).entries(),
            final(self).base() == old(self).base(),
            final(self).position() == 0,
            final(self).dirty() == (old(self).position() != 0 || old(self).dirty()),
    {
        proof {
            use_type_invariant(&*self);
            use_type_invariant(&self.index);
            lemma_payload_bounds(self.index.base as int, self.index@, 0);
        }
        if self.place.out_pos != 0 {
            self.seeked = true;
            self.place = Place { block_idx: 0, out_pos: 0 };
        }
    }
}

impl ByteRead for SeekReadDeflate {
    open spec fn remaining(&self) -> Seq<u8> {
        if self.position() <= self.content().len() {
            self.content().skip(self.position() as int)
        } else {
            Seq::empty()
        }
    }

    /// Copies bytes of the block at the current position: as many as `buf`
    /// takes, the block still has and the source holds. Blocks that are
    /// exhausted, or empty, are passed over first.
    ///
    /// A dirty reader moves its source first, and is clean afterwards. At
    /// the end of the last block nothing is read, and the reader is dirty.
    fn read(&mut self, buf: &mut [u8]) -> (n: usize)
        ensures
            final(self).data() == old(self).data(),
            final(self).entries() == old(self).entries(),
            final(self).base() == old(self).base(),
            final(self).position() == old(self).position() + n,
            final(self).dirty() == (old(self).position() == old(self).total()),
            n == read_len(
                old(self).entries(),
                old(self).position() as int,
                old(buf)@.len() as int,
                old(self).remaining().len() as int,
            ),
    {
        proof {
            use_type_invariant(&*self);
            use_type_invariant(&self.index);
        }
        let ghost base = self.index.base as int;
        let ghost e = self.index@;
        let ghost data = self.data@;
        let blocks = self.index.len();
        let out_pos = self.place.out_pos;
        let mut idx = self.place.block_idx;
        while idx < blocks && out_pos == self.index.at(idx).1
            invariant
                e == self.index@,
                linked(base, e),
                blocks == e.len(),
                idx <= blocks,
                idx < blocks ==> out_start(e, idx as int) <= out_pos <= e[idx as int].1,
                idx == blocks ==> out_pos == out_start(e, e.len() as int),
            decreases blocks - idx,
        {
            proof {
                if idx + 1 < blocks {
                    lemma_offsets_ordered(base, e, idx as int, idx + 1);
                }
            }
            idx += 1;
        }
        if idx != self.place.block_idx {
            self.seeked = true;
            self.place = Place { block_idx: idx, out_pos };
        }
        proof {
            lemma_block_end(base, e, out_pos as int, 0, idx as int);
            if idx < blocks {
                lemma_offsets_ordered(base, e, idx as int, e.len() - 1);
            }
        }
        if idx == blocks {
            proof {
                lemma_upto_len(base, data, e, e.len());
                assert(buf@ =~= self.remaining().take(0) + buf@.skip(0));
                assert(self.remaining() =~= self.remaining().skip(0));
            }
            return 0;
        }
        let entry = self.index.at(idx);
        let input_len = entry.1 - out_pos;
        proof {
            lemma_payload_bounds(base, e, idx as int);
        }
        let from = entry.0 - input_len;
        if self.seeked {
            self.src_pos = from;
            self.seeked = false;
        }
        let room = buf.len() as u64;
        let want: usize = if input_len < room {
            input_len as usize
        } else {
            buf.len()
        };
        let ghost before = bytes_from(data, from as int);
        let (head, rest) = buf.split_at_mut(want);
        let n = copy_at(&self.data, self.src_pos, head);
        // The flag is up while source position and place move one after the other.
        self.seeked = true;
        self.src_pos = from + n as u64;
        self.place = Place { block_idx: idx, out_pos: out_pos + n as u64 };
        self.seeked = false;
        proof {
            lemma_read_step(base, data, e, idx as int, out_pos as int, want as int, n as int);
            assert(old(self).remaining() == content_from(data, e, out_pos as int));
            assert(self.remaining() == content_from(data, e, out_pos + n));
            assert(buf@ =~= old(self).remaining().take(n as int) + old(buf)@.skip(n as int));
        }
        n
    }
}

/// What a reader delivers is decided by its position: a reader that was
/// moved to a position by seeking delivers the same bytes as one that came
/// there by reading, namely the content from that position on.
pub proof fn lemma_seek_matches_sequential(sought: SeekReadDeflate, read: SeekReadDeflate)
    requires
        sought.data() == read.data(),
        sought.entries() == read.entries(),
        sought.position() == read.position(),
    ensures
        sought.remaining() == read.remaining(),
        sought.position() <= sought.content().len() ==> sought.remaining()
            == sought.content().skip(sought.position() as int),
{
}

/// The type of the block whose header starts at `at`.
pub open spec fn block_type(data: Seq<u8>, at: int) -> int {
    (data[at] as int / 2) % 4
}

/// A scan that fails over the fields of a stored block, or over a block of
/// the reserved type, names the offset of that very block.
pub proof fn lemma_error_names_block(data: Seq<u8>, pos: nat, out: nat)
    requires
        data.len() <= u64::MAX,
    ensures
        match scan(data, pos, out) {
            Err(DeflateError::InvalidStoredLength { offset, len, nlen }) => {
                &&& pos <= offset
                &&& offset + 5 <= data.len()
                &&& block_type(data, offset as int) == 0
                &&& len == stored_len(data, offset as int)
                &&& nlen == stored_nlen(data, offset as int)
                &&& len + nlen != 0xffff
            },
            Err(DeflateError::ReservedBlockType { offset }) => {
                &&& pos <= offset < data.len()
                &&& block_type(data, offset as int) == 3
            },
            _ => true,
        },
    decreases
            (if pos < data.len() {
                data.len() - pos
            } else {
                0
            }),
{
    if pos < data.len() && block_type(data, pos as int) == 0 && pos + 5 <= data.len() {
        let len = stored_len(data, pos as int);
        let end = pos + 5 + len;
        if len + stored_nlen(data, pos as int) == 0xffff && end <= u64::MAX && data[pos as int]
            as int % 2 != 1 {
            lemma_error_names_block(data, end as nat, (out + len) as nat);
        }
    }
}

/// A scan that ends with a complete index has met stored blocks only: the
/// header of every block that it lists has the type 0.
pub proof fn lemma_complete_scan_is_stored(data: Seq<u8>, pos: nat, out: nat, i: int)
    requires
        scan(data, pos, out) matches Ok(found) && !found.more && 0 <= i < found.entries.len(),
    ensures
        ({
            let at = block_start(pos as int, scan(data, pos, out).unwrap().entries, i);
            pos <= at < data.len() && block_type(data, at) == 0
        }),
    decreases i,
{
    let found = scan(data, pos, out).unwrap();
    let len = stored_len(data, pos as int);
    let end = pos + 5 + len;
    if i > 0 {
        let next = scan(data, end as nat, (out + len) as nat);
        assert(found.entries =~= seq![(end as u64, (out + len) as u64)] + next.unwrap().entries);
        lemma_complete_scan_is_stored(data, end as nat, (out + len) as nat, i - 1);
        if i > 1 {
            assert(found.entries[i - 1] == next.unwrap().entries[i - 2]);
        }
    }
}

} // verus!
