//! Byte sources: an in-memory cursor, the reading interface that the object
//! readers share, and the arithmetic of seek requests.

use vstd::prelude::*;

verus! {

/// A seek request.
///
/// `Start(n)` asks for the absolute position `n`, `Current(d)` for the current
/// position plus `d`, and `End(n)` for the position `n` bytes *before* the end.
#[derive(Clone, Copy, Debug, PartialEq, Eq, Structural)]
pub enum SeekFrom {
    Start(u64),
    End(i64),
    Current(i64),
}

/// Why a seek request was refused.
#[derive(Clone, Copy, Debug, PartialEq, Eq, Structural)]
pub enum SeekError {
    /// The target lies `excess` bytes beyond `bound`, the last legal position.
    Beyond { bound: u64, excess: u64 },
    /// The target lies `deficit` bytes before position 0.
    Before { deficit: u64 },
}

impl SeekFrom {
    /// The absolute position that the request asks for, when the current
    /// position is `pos` and the end is at `len`.
    pub open spec fn target(self, pos: int, len: int) -> int {
        match self {
            SeekFrom::Start(n) => n as int,
            SeekFrom::End(n) => len - n,
            SeekFrom::Current(d) => pos + d,
        }
    }
}

/// What becomes of a seek to `target` when the legal positions are
/// `0..=bound`: the position, or how far the target lies outside. An excess
/// that no `u64` holds is given as `u64::MAX`.
pub open spec fn settle(target: int, bound: int) -> Result<u64, SeekError> {
    if target > bound {
        Err(
            SeekError::Beyond {
                bound: bound as u64,
                excess: if target - bound > u64::MAX {
                    u64::MAX
                } else {
                    (target - bound) as u64
                },
            },
        )
    } else if target < 0 {
        Err(SeekError::Before { deficit: (-target) as u64 })
    } else {
        Ok(target as u64)
    }
}

/// What a seek request comes to when the current position is `pos`, the end
/// is at `len` and the legal positions are `0..=bound`.
pub open spec fn seek_outcome(req: SeekFrom, pos: int, len: int, bound: int) -> Result<
    u64,
    SeekError,
> {
    settle(req.target(pos, len), bound)
}

/// Resolves a seek request against the current position `pos`, the end `len`
/// and the last legal position `bound`.
pub fn resolve_seek(req: SeekFrom, pos: u64, len: u64, bound: u64) -> (r: Result<u64, SeekError>)
    ensures
        r == seek_outcome(req, pos as int, len as int, bound as int),
{
    let target: i128 = match req {
        SeekFrom::Start(n) => n as i128,
        SeekFrom::End(n) => len as i128 - n as i128,
        SeekFrom::Current(d) => pos as i128 + d as i128,
    };
    if target > bound as i128 {
        let over: i128 = target - bound as i128;
        let excess: u64 = if over > u64::MAX as i128 {
            u64::MAX
        } else {
            over as u64
        };
        Err(SeekError::Beyond { bound, excess })
    } else if target < 0 {
        Err(SeekError::Before { deficit: (-target) as u64 })
    } else {
        Ok(target as u64)
    }
}

/// The bytes of `data` from position `pos` on; none where `pos` lies beyond the end.
pub open spec fn bytes_from(data: Seq<u8>, pos: int) -> Seq<u8> {
    if 0 <= pos <= data.len() {
        data.skip(pos)
    } else {
        Seq::empty()
    }
}

/// Copies the bytes of `data` from position `pos` on to the front of `buf`: as
/// many as `buf` takes and `data` holds. Returns how many were copied.
pub fn copy_at(data: &Vec<u8>, pos: u64, buf: &mut [u8]) -> (n: usize)
    ensures
        final(buf)@.len() == old(buf)@.len(),
        n == if old(buf)@.len() <= bytes_from(data@, pos as int).len() {
            old(buf)@.len()
        } else {
            bytes_from(data@, pos as int).len()
        },
        final(buf)@ == bytes_from(data@, pos as int).take(n as int) + old(buf)@.skip(n as int),
        pos + n <= u64::MAX,
{
    let mut i: usize = 0;
    let total = data.len();
    let ghost avail = bytes_from(data@, pos as int);
    while i < buf.len() && pos < total as u64 && i < total - pos as usize
        invariant
            buf@.len() == old(buf)@.len(),
            total == data@.len(),
            avail == bytes_from(data@, pos as int),
            i <= buf@.len(),
            i <= avail.len(),
            forall|k: int| 0 <= k < i ==> buf@[k] == data@[pos + k],
            forall|k: int| i <= k < buf@.len() ==> buf@[k] == old(buf)@[k],
        decreases buf@.len() - i,
    {
        buf[i] = data[pos as usize + i];
        i += 1;
    }
    assert(buf@ =~= avail.take(i as int) + old(buf)@.skip(i as int));
    assert(pos + i <= u64::MAX) by {
        if i > 0 {
            assert(pos + i <= total);
        }
    }
    i
}

/// A forward reader of bytes.
pub trait ByteRead {
    /// The bytes that are still to come, in the order in which reads deliver them.
    spec fn remaining(&self) -> Seq<u8>;

    /// Copies the next bytes to the front of `buf` and returns how many were
    /// copied. The count is 0 only when `buf` is empty or nothing remains.
    fn read(&mut self, buf: &mut [u8]) -> (n: usize)
        ensures
            final(buf)@.len() == old(buf)@.len(),
            n <= old(buf)@.len(),
            n <= old(self).remaining().len(),
            n == 0 <==> (old(buf)@.len() == 0 || old(self).remaining().len() == 0),
            final(buf)@ == old(self).remaining().take(n as int) + old(buf)@.skip(n as int),
            final(self).remaining() == old(self).remaining().skip(n as int),
    ;
}

/// Bytes held in memory, with a position. The position may lie beyond the end.
pub struct ByteCursor {
    data: Vec<u8>,
    pos: u64,
}

/// The end of the bytes was reached before a read was complete.
#[derive(Clone, Copy, Debug, PartialEq, Eq, Structural)]
pub struct UnexpectedEof;

impl ByteCursor {
    /// All the bytes of the source.
    pub closed spec fn data(&self) -> Seq<u8> {
        self.data@
    }

    /// The current position.
    pub closed spec fn position(&self) -> nat {
        self.pos as nat
    }

    pub fn new(data: Vec<u8>) -> (c: Self)
        ensures
            c.data() == data@,
            c.position() == 0,
    {
        ByteCursor { data, pos: 0 }
    }

    pub fn into_inner(self) -> (data: Vec<u8>)
        ensures
            data@ == self.data(),
    {
        self.data
    }

    pub fn get_ref(&self) -> (data: &Vec<u8>)
        ensures
            data@ == self.data(),
    {
        &self.data
    }

    pub fn stream_position(&self) -> (p: u64)
        ensures
            p == self.position(),
    {
        self.pos
    }

    /// Moves to an absolute position.
    pub fn set_position(&mut self, pos: u64)
        ensures
            final(self).data() == old(self).data(),
            final(self).position() == pos,
    {
        self.pos = pos;
    }

    /// Moves the position. Every position up to `u64::MAX` is legal; a refused
    /// request leaves the cursor where it was.
    pub fn seek(&mut self, req: SeekFrom) -> (r: Result<u64, SeekError>)
        ensures
            r == seek_outcome(
                req,
                old(self).position() as int,
                old(self).data().len() as int,
                u64::MAX as int,
            ),
            final(self).data() == old(self).data(),
            final(self).position() == match r {
                Ok(p) => p as nat,
                Err(_) => old(self).position(),
            },
    {
        let r = resolve_seek(req, self.pos, self.data.len() as u64, u64::MAX);
        if let Ok(p) = r {
            self.pos = p;
        }
        r
    }

    /// Moves back to position 0.
    pub fn rewind(&mut self)
        ensures
            final(self).data() == old(self).data(),
            final(self).position() == 0,
    {
        self.pos = 0;
    }

    /// Fills the whole of `buf`, or fails and leaves nothing to read.
    pub fn read_exact(&mut self, buf: &mut [u8]) -> (r: Result<(), UnexpectedEof>)
        ensures
            final(buf)@.len() == old(buf)@.len(),
            final(self).data() == old(self).data(),
            r is Ok <==> old(buf)@.len() <= old(self).remaining().len(),
            r is Ok ==> final(buf)@ == old(self).remaining().take(old(buf)@.len() as int)
                && final(self).position() == old(self).position() + old(buf)@.len(),
            r is Err ==> final(self).remaining().len() == 0 && final(self).position() == old(
                self,
            ).position() + old(self).remaining().len(),
    {
        let n = self.read(buf);
        if n < buf.len() {
            Err(UnexpectedEof)
        } else {
            Ok(())
        }
    }
}

impl ByteRead for ByteCursor {
    open spec fn remaining(&self) -> Seq<u8> {
        bytes_from(self.data(), self.position() as int)
    }

    /// Copies as many bytes as fit in `buf` and are left in the source.
    fn read(&mut self, buf: &mut [u8]) -> (n: usize)
        ensures
            final(self).data() == old(self).data(),
            final(self).position() == old(self).position() + n,
            n == if old(buf)@.len() <= old(self).remaining().len() {
                old(buf)@.len()
            } else {
                old(self).remaining().len()
            },
    {
        let n = copy_at(&self.data, self.pos, buf);
        self.pos = self.pos + n as u64;
        assert(self.remaining() =~= old(self).remaining().skip(n as int));
        n
    }
}

} // verus!
