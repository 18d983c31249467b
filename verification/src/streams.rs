//! Streams that can be read at any place.
use crate::error::PatchError;
use crate::parser::{read_exact_onto, ByteSource, ByteStream};
use crate::varint::{as_signed, to_signed};
use vstd::prelude::*;
use vstd::slice::slice_subrange;

verus! {

/// Bytes that can be read from any position on.
pub trait SeekableRead: Sized {
    /// All bytes of the stream.
    spec fn contents(&self) -> Seq<u8>;

    /// The last position that the stream can be moved to.
    spec fn last_position(&self) -> int;

    /// What a move behind the last position is refused with.
    spec fn refusal(&self) -> PatchError;

    /// Whether the parts of the stream fit together.
    spec fn well_formed(&self) -> bool;

    /// A position counts all bytes of the stream.
    proof fn lemma_contents_len(&self)
        requires
            self.well_formed(),
        ensures
            self.contents().len() <= u64::MAX,
    ;

    /// Reads the `len` bytes from `pos` on onto the end of `out`.
    fn read_range_onto(&mut self, pos: u64, len: u64, out: &mut Vec<u8>) -> (r: Result<
        (),
        PatchError,
    >)
        requires
            old(self).well_formed(),
        ensures
            final(self).well_formed(),
            final(self).contents() == old(self).contents(),
            final(self).last_position() == old(self).last_position(),
            final(self).refusal() == old(self).refusal(),
            match r {
                Ok(_) => range_of(
                    old(self).contents(),
                    old(self).last_position(),
                    old(self).refusal(),
                    pos as int,
                    len as int,
                ) matches Ok(bytes) && final(out)@ == old(out)@ + bytes,
                Err(e) => range_of(
                    old(self).contents(),
                    old(self).last_position(),
                    old(self).refusal(),
                    pos as int,
                    len as int,
                ) == Err::<Seq<u8>, PatchError>(e),
            },
    ;
}

/// The `len` bytes from `pos` on of a stream with these contents, which can be
/// moved to `last_position` and no further.
pub open spec fn range_of(
    contents: Seq<u8>,
    last_position: int,
    refusal: PatchError,
    pos: int,
    len: int,
) -> Result<Seq<u8>, PatchError> {
    if pos > last_position {
        Err(refusal)
    } else if len == 0 {
        Ok(Seq::empty())
    } else if pos + len > contents.len() {
        Err(PatchError::UnexpectedEof)
    } else {
        Ok(contents.subrange(pos, pos + len))
    }
}

impl<'a> SeekableRead for ByteStream<'a> {
    open spec fn contents(&self) -> Seq<u8> {
        self.data@
    }

    open spec fn last_position(&self) -> int {
        i64::MAX as int
    }

    open spec fn refusal(&self) -> PatchError {
        PatchError::InvalidSeek
    }

    open spec fn well_formed(&self) -> bool {
        true
    }

    proof fn lemma_contents_len(&self) {
        assert(self.data@.len() == self.data.len());
    }

    fn read_range_onto(&mut self, pos: u64, len: u64, out: &mut Vec<u8>) -> (r: Result<
        (),
        PatchError,
    >) {
        self.seek_start(pos)?;
        let ghost rest = self.rest();
        read_exact_onto(self, len, out)?;
        proof {
            if len == 0 {
                assert(rest.take(0) =~= Seq::empty());
            } else {
                assert(rest.take(len as int) =~= self.data@.subrange(pos as int, pos + len));
            }
        }
        Ok(())
    }
}

/// Where a stream is to be moved to.
#[derive(Debug, Clone, Copy, PartialEq, Eq, Structural)]
pub enum SeekFrom {
    /// To this position.
    Start(u64),
    /// By this much from where it stands.
    Current(i64),
    /// By this much from its end.
    End(i64),
}

/// The position `offset` away from `base`. Positions are counted as `i64`, and
/// there is no answer where the sum leaves its range.
pub open spec fn moved_by(base: int, offset: int) -> Result<u64, PatchError> {
    let pos = as_signed(base) + offset;
    if !(i64::MIN <= pos <= i64::MAX) {
        Err(PatchError::Malformed)
    } else if pos < 0 {
        Err(PatchError::SeekBeforeStart)
    } else {
        Ok(pos as u64)
    }
}

/// The position that a move leads to in a stream of `size` bytes at `position`.
pub open spec fn seek_target(from: SeekFrom, position: int, size: int) -> Result<u64, PatchError> {
    let target = match from {
        SeekFrom::Start(offset) => Ok(offset),
        SeekFrom::Current(offset) => moved_by(position, offset as int),
        SeekFrom::End(offset) => moved_by(size, offset as int),
    };
    match target {
        Ok(pos) => if pos > size {
            Err(PatchError::SeekBeyondEnd)
        } else {
            Ok(pos)
        },
        Err(e) => Err(e),
    }
}

/// The position `offset` away from `base`.
fn move_by(base: u64, offset: i64) -> (r: Result<u64, PatchError>)
    ensures
        r == moved_by(base as int, offset as int),
{
    match to_signed(base).checked_add(offset) {
        None => Err(PatchError::Malformed),
        Some(pos) => if pos < 0 {
            Err(PatchError::SeekBeforeStart)
        } else {
            Ok(pos as u64)
        },
    }
}

/// The position that a move leads to in a stream of `size` bytes at `position`.
pub fn find_target(from: SeekFrom, position: u64, size: u64) -> (r: Result<u64, PatchError>)
    ensures
        r == seek_target(from, position as int, size as int),
{
    let pos: u64 = match from {
        SeekFrom::Start(offset) => offset,
        SeekFrom::Current(offset) => move_by(position, offset)?,
        SeekFrom::End(offset) => move_by(size, offset)?,
    };
    if pos > size {
        return Err(PatchError::SeekBeyondEnd);
    }
    Ok(pos)
}

/// The bytes of a stream from `start` up to `end`, as a stream of their own.
pub struct ChunkStream<'a> {
    pub inner: ByteStream<'a>,
    pub start: u64,
    pub end: u64,
    pub cur_pos: u64,
}

/// The bytes of `data` from `pos` up to `end`, as far as there are any.
pub open spec fn bytes_between(data: Seq<u8>, pos: int, end: int) -> Seq<u8> {
    if pos >= data.len() || pos >= end {
        Seq::empty()
    } else if end > data.len() {
        data.subrange(pos, data.len() as int)
    } else {
        data.subrange(pos, end)
    }
}

/// The bytes of `data` from `start` up to `end`, as far as there are any.
pub fn slice_between<'a>(data: &'a [u8], start: u64, end: u64) -> (r: &'a [u8])
    ensures
        r@ == bytes_between(data@, start as int, end as int),
{
    let len = data.len() as u64;
    if start >= len || start >= end {
        slice_subrange(data, 0, 0)
    } else if end > len {
        slice_subrange(data, start as usize, data.len())
    } else {
        slice_subrange(data, start as usize, end as usize)
    }
}

impl<'a> ChunkStream<'a> {
    /// The bytes of `stream` from `start` up to `end`.
    pub fn new(stream: ByteStream<'a>, start: u64, end: u64) -> (r: Result<Self, PatchError>)
        ensures
            match r {
                Ok(chunk) => {
                    &&& start <= end && start <= i64::MAX
                    &&& chunk.inner.data@ == stream.data@
                    &&& chunk.inner.pos == start
                    &&& chunk.start == start
                    &&& chunk.end == end
                    &&& chunk.cur_pos == 0
                },
                Err(e) => if end < start {
                    e == PatchError::EndBeforeStart
                } else {
                    e == PatchError::InvalidSeek && start > i64::MAX
                },
            },
    {
        if end < start {
            return Err(PatchError::EndBeforeStart);
        }
        let mut inner = stream;
        inner.seek_start(start)?;
        Ok(ChunkStream { inner, start, end, cur_pos: 0 })
    }

    /// How many bytes the chunk spans.
    pub open spec fn spec_size(&self) -> int {
        if self.start <= self.end {
            self.end - self.start
        } else {
            0
        }
    }

    fn size(&self) -> (r: u64)
        ensures
            r == self.spec_size(),
    {
        if self.start <= self.end {
            self.end - self.start
        } else {
            0
        }
    }

    /// How many bytes of the chunk are left.
    pub open spec fn spec_remain(&self) -> int {
        if self.cur_pos <= self.spec_size() {
            self.spec_size() - self.cur_pos
        } else {
            0
        }
    }

    fn remain(&self) -> (r: u64)
        ensures
            r == self.spec_remain(),
    {
        self.size().saturating_sub(self.cur_pos)
    }

    /// Moves within the chunk, and the stream below with it. A place that the stream
    /// below cannot be moved to is refused by it: the chunk has then moved, and the
    /// stream below has not.
    pub fn seek(&mut self, pos: SeekFrom) -> (r: Result<u64, PatchError>)
        ensures
            final(self).inner.data@ == old(self).inner.data@,
            final(self).start == old(self).start,
            final(self).end == old(self).end,
            match seek_target(pos, old(self).cur_pos as int, old(self).spec_size()) {
                Err(e) => {
                    &&& r == Err::<u64, PatchError>(e)
                    &&& final(self).cur_pos == old(self).cur_pos
                    &&& final(self).inner.pos == old(self).inner.pos
                },
                Ok(target) => if old(self).start + target > i64::MAX {
                    &&& r == Err::<u64, PatchError>(PatchError::InvalidSeek)
                    &&& final(self).cur_pos == target
                    &&& final(self).inner.pos == old(self).inner.pos
                } else {
                    &&& r == Ok::<u64, PatchError>(target)
                    &&& final(self).cur_pos == target
                    &&& final(self).inner.pos == old(self).start + target
                },
            },
    {
        let new_pos = find_target(pos, self.cur_pos, self.size())?;
        self.cur_pos = new_pos;
        match self.start.checked_add(new_pos) {
            None => return Err(PatchError::InvalidSeek),
            Some(place) => self.inner.seek_start(place)?,
        }
        Ok(new_pos)
    }
}

impl<'a> ByteSource for ChunkStream<'a> {
    open spec fn rest(&self) -> Seq<u8> {
        bytes_between(self.inner.data@, self.start + self.cur_pos, self.end as int)
    }

    open spec fn fallible(&self) -> bool {
        false
    }

    open spec fn base(&self) -> Seq<u8> {
        self.inner.data@
    }

    open spec fn position(&self) -> int {
        self.cur_pos as int
    }

    fn next_byte(&mut self) -> (r: Result<Option<u8>, PatchError>) {
        let mut one: Vec<u8> = Vec::new();
        let n = self.read(1, &mut one)?;
        if n == 0 {
            assert(old(self).rest().skip(0) =~= old(self).rest());
            Ok(None)
        } else {
            Ok(Some(one[0]))
        }
    }

    fn read(&mut self, max: usize, out: &mut Vec<u8>) -> (r: Result<usize, PatchError>) {
        let ghost rest = self.rest();
        let len = self.inner.data.len() as u64;
        if self.remain() == 0 || self.start + self.cur_pos >= len {
            assert(rest =~= Seq::empty());
            assert(rest.skip(0) =~= rest);
            assert(out@ =~= old(out)@ + rest.take(0));
            return Ok(0);
        }
        let to_read: usize = if self.remain() < max as u64 {
            self.remain() as usize
        } else {
            max
        };
        let place: u64 = self.start + self.cur_pos;
        self.inner.pos = place;
        let ghost below = self.inner.rest();
        let n = self.inner.read(to_read, out)?;
        self.cur_pos = self.cur_pos + n as u64;
        assert(below.take(n as int) =~= rest.take(n as int));
        assert(self.rest() =~= rest.skip(n as int));
        Ok(n)
    }
}

} // verus!
