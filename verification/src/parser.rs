//! Byte streams and the values that the patch formats write into them.
use crate::error::PatchError;
use crate::structs::PairIndexReference;
use crate::text::{text_from_utf8_lossy, utf8_lossy};
use crate::varint::{
    as_signed, lemma_varint_tagged_bounds, payload_span, to_signed, varint_tagged, varint_tail,
    INT_LIMIT, LONG_LIMIT,
};
use vstd::prelude::*;
use vstd::slice::slice_subrange;

verus! {

/// A stream of bytes that is read from front to back.
pub trait ByteSource: Sized {
    /// The bytes that are still to be read.
    spec fn rest(&self) -> Seq<u8>;

    /// Whether a read can fail for another reason than the end of the stream.
    spec fn fallible(&self) -> bool;

    /// What the stream reads from, which no read changes.
    spec fn base(&self) -> Seq<u8>;

    /// How far the stream has been read.
    spec fn position(&self) -> int;

    /// Reads one byte, or `None` at the end.
    fn next_byte(&mut self) -> (r: Result<Option<u8>, PatchError>)
        ensures
            final(self).base() == old(self).base(),
            final(self).fallible() == old(self).fallible(),
            match r {
                Ok(Some(b)) => {
                    &&& old(self).rest().len() > 0
                    &&& b == old(self).rest()[0]
                    &&& final(self).rest() == old(self).rest().skip(1)
                    &&& final(self).position() == old(self).position() + 1
                },
                Ok(None) => {
                    &&& old(self).rest().len() == 0
                    &&& final(self).rest() == old(self).rest()
                    &&& final(self).position() == old(self).position()
                },
                Err(e) => old(self).fallible() && e == PatchError::Decoder,
            },
    ;

    /// Reads at most `max` bytes onto the end of `out`, and at least one where
    /// there is one to read.
    fn read(&mut self, max: usize, out: &mut Vec<u8>) -> (r: Result<usize, PatchError>)
        requires
            max > 0,
        ensures
            final(self).base() == old(self).base(),
            final(self).fallible() == old(self).fallible(),
            match r {
                Ok(n) => {
                    &&& n <= max
                    &&& n <= old(self).rest().len()
                    &&& old(self).rest().len() > 0 ==> n > 0
                    &&& final(out)@ == old(out)@ + old(self).rest().take(n as int)
                    &&& final(self).rest() == old(self).rest().skip(n as int)
                    &&& final(self).position() == old(self).position() + n
                },
                Err(e) => old(self).fallible() && e == PatchError::Decoder,
            },
    ;
}

/// The bytes of `data` from `pos` on: none where `pos` lies behind the end.
pub open spec fn bytes_from(data: Seq<u8>, pos: int) -> Seq<u8> {
    if 0 <= pos <= data.len() {
        data.skip(pos)
    } else {
        Seq::empty()
    }
}

/// A file's bytes with a position in them, which may lie behind the end.
pub struct ByteStream<'a> {
    pub data: &'a [u8],
    pub pos: u64,
}

impl<'a> ByteStream<'a> {
    /// The stream over `data` at its first byte.
    pub fn new(data: &'a [u8]) -> (r: Self)
        ensures
            r.data@ == data@,
            r.pos == 0,
    {
        ByteStream { data, pos: 0 }
    }

    /// Moves to `pos`. Like a file, the stream has no position that an `i64`
    /// cannot hold.
    pub fn seek_start(&mut self, pos: u64) -> (r: Result<(), PatchError>)
        ensures
            final(self).data@ == old(self).data@,
            match r {
                Ok(_) => pos <= i64::MAX && final(self).pos == pos,
                Err(e) => pos > i64::MAX && e == PatchError::InvalidSeek && final(self).pos == old(
                    self,
                ).pos,
            },
    {
        if pos > i64::MAX as u64 {
            return Err(PatchError::InvalidSeek);
        }
        self.pos = pos;
        Ok(())
    }

    /// Moves by `offset` from where the stream stands.
    pub fn seek_current(&mut self, offset: i64) -> (r: Result<(), PatchError>)
        ensures
            final(self).data@ == old(self).data@,
            match r {
                Ok(_) => final(self).pos == old(self).pos + offset && final(self).pos <= i64::MAX,
                Err(e) => {
                    &&& !(0 <= old(self).pos + offset <= i64::MAX)
                    &&& e == PatchError::InvalidSeek
                    &&& final(self).pos == old(self).pos
                },
            },
    {
        let pos: i128 = self.pos as i128 + offset as i128;
        if pos < 0 || pos > i64::MAX as i128 {
            return Err(PatchError::InvalidSeek);
        }
        self.pos = pos as u64;
        Ok(())
    }
}

impl<'a> ByteSource for ByteStream<'a> {
    open spec fn rest(&self) -> Seq<u8> {
        bytes_from(self.data@, self.pos as int)
    }

    open spec fn fallible(&self) -> bool {
        false
    }

    open spec fn base(&self) -> Seq<u8> {
        self.data@
    }

    open spec fn position(&self) -> int {
        self.pos as int
    }

    fn next_byte(&mut self) -> (r: Result<Option<u8>, PatchError>) {
        if self.pos < self.data.len() as u64 {
            let b = self.data[self.pos as usize];
            self.pos = self.pos + 1;
            assert(self.data@.skip(self.pos as int) =~= self.data@.skip(self.pos - 1).skip(1));
            Ok(Some(b))
        } else {
            Ok(None)
        }
    }

    fn read(&mut self, max: usize, out: &mut Vec<u8>) -> (r: Result<usize, PatchError>) {
        let ghost rest = self.rest();
        let ghost before = out@;
        let len = self.data.len();
        if self.pos >= len as u64 {
            proof {
                assert(rest =~= Seq::empty());
                assert(rest.skip(0) =~= rest);
                assert(before =~= before + rest.take(0));
            }
            return Ok(0);
        }
        let start: usize = self.pos as usize;
        let left: usize = len - start;
        let n: usize = if left < max {
            left
        } else {
            max
        };
        let chunk = slice_subrange(self.data, start, start + n);
        out.extend_from_slice(chunk);
        self.pos = self.pos + n as u64;
        proof {
            assert(chunk@ =~= rest.take(n as int));
            assert(out@ =~= before + chunk@);
            assert(self.rest() =~= rest.skip(n as int));
            assert(self.base() == old(self).base());
            assert(self.fallible() == old(self).fallible());
            assert(self.position() == old(self).position() + n);
        }
        Ok(n)
    }
}

/// What reading a value `r` from `before`, which left `after`, amounts to,
/// where the bytes of `before` stand for `want`: the value and the bytes left,
/// or the reason why there is none.
pub open spec fn reads<S: ByteSource, T: DeepView>(
    before: S,
    after: S,
    r: Result<T, PatchError>,
    want: Result<(T::V, Seq<u8>), PatchError>,
) -> bool {
    &&& after.base() == before.base()
    &&& after.fallible() == before.fallible()
    &&& match r {
        Ok(v) => {
            &&& want == Ok::<(T::V, Seq<u8>), PatchError>((v.deep_view(), after.rest()))
            &&& after.position() == before.position() + before.rest().len() - after.rest().len()
        },
        Err(e) => {
            ||| want == Err::<(T::V, Seq<u8>), PatchError>(e)
            ||| before.fallible() && e == PatchError::Decoder
        },
    }
}

/// The next byte of `rest`.
pub open spec fn byte_of(rest: Seq<u8>) -> Result<(u8, Seq<u8>), PatchError> {
    if rest.len() == 0 {
        Err(PatchError::UnexpectedEof)
    } else {
        Ok((rest[0], rest.skip(1)))
    }
}

/// Reads one byte, which must be there.
pub fn read_byte<S: ByteSource>(src: &mut S) -> (r: Result<u8, PatchError>)
    ensures
        reads(*old(src), *final(src), r, byte_of(old(src).rest())),
{
    match src.next_byte() {
        Ok(Some(b)) => Ok(b),
        Ok(None) => Err(PatchError::UnexpectedEof),
        Err(e) => Err(e),
    }
}

/// The next `n` bytes of `rest`.
pub open spec fn bytes_of(rest: Seq<u8>, n: int) -> Result<(Seq<u8>, Seq<u8>), PatchError> {
    if n > rest.len() {
        Err(PatchError::UnexpectedEof)
    } else {
        Ok((rest.take(n), rest.skip(n)))
    }
}

/// The most bytes that are read from a stream at once.
pub const CHUNK_LEN: u64 = 0x1_0000;

/// Reads `n` bytes onto the end of `out`.
pub fn read_exact_onto<S: ByteSource>(src: &mut S, n: u64, out: &mut Vec<u8>) -> (r: Result<
    (),
    PatchError,
>)
    ensures
        final(src).base() == old(src).base(),
        final(src).fallible() == old(src).fallible(),
        match r {
            Ok(_) => {
                &&& n <= old(src).rest().len()
                &&& final(out)@ == old(out)@ + old(src).rest().take(n as int)
                &&& final(src).rest() == old(src).rest().skip(n as int)
                &&& final(src).position() == old(src).position() + n
            },
            Err(e) => {
                ||| n > old(src).rest().len() && e == PatchError::UnexpectedEof
                ||| old(src).fallible() && e == PatchError::Decoder
            },
        },
{
    let mut left: u64 = n;
    proof {
        assert(old(src).rest().skip(0) =~= old(src).rest());
        assert(old(out)@ + old(src).rest().take(0) =~= old(out)@);
    }
    while left > 0
        invariant
            left <= n,
            src.base() == old(src).base(),
            src.fallible() == old(src).fallible(),
            n - left <= old(src).rest().len(),
            out@ == old(out)@ + old(src).rest().take(n - left),
            src.rest() == old(src).rest().skip(n - left),
            src.position() == old(src).position() + (n - left),
        decreases left,
    {
        let max: u64 = if left < CHUNK_LEN {
            left
        } else {
            CHUNK_LEN
        };
        let got = src.read(max as usize, out)?;
        if got == 0 {
            return Err(PatchError::UnexpectedEof);
        }
        left = left - got as u64;
        proof {
            let done = n - left;
            let all = old(src).rest();
            assert(all.skip(done - got).skip(got as int) =~= all.skip(done));
            assert(all.take(done - got) + all.skip(done - got).take(got as int) =~= all.take(done));
            assert(out@ =~= old(out)@ + all.take(done));
        }
    }
    Ok(())
}

/// Reads `n` bytes.
pub fn read_exact<S: ByteSource>(src: &mut S, n: u64) -> (r: Result<Vec<u8>, PatchError>)
    ensures
        reads(*old(src), *final(src), r, bytes_of(old(src).rest(), n as int)),
{
    let mut out: Vec<u8> = Vec::new();
    read_exact_onto(src, n, &mut out)?;
    assert(out@ =~= old(src).rest().take(n as int));
    assert(out.deep_view() =~= out@);
    Ok(out)
}

/// The truth value at the front of `rest`: any byte but zero is true.
pub open spec fn boolean_of(rest: Seq<u8>) -> Result<(bool, Seq<u8>), PatchError> {
    match byte_of(rest) {
        Ok((b, left)) => Ok((b != 0, left)),
        Err(e) => Err(e),
    }
}

/// Reads a truth value.
pub fn read_boolean<S: ByteSource>(src: &mut S) -> (r: Result<bool, PatchError>)
    ensures
        reads(*old(src), *final(src), r, boolean_of(old(src).rest())),
{
    let b = read_byte(src)?;
    Ok(b != 0)
}

/// How many bytes of `rest` stand before the first `delim`: all of them where
/// there is none.
pub open spec fn length_until(rest: Seq<u8>, delim: u8) -> int
    decreases rest.len(),
{
    if rest.len() == 0 || rest[0] == delim {
        0
    } else {
        1 + length_until(rest.skip(1), delim)
    }
}

/// Where the first `delim` stands is the only place with none before it.
pub proof fn lemma_length_until(rest: Seq<u8>, delim: u8, n: int)
    requires
        0 <= n <= rest.len(),
        forall|j: int| 0 <= j < n ==> rest[j] != delim,
        n == rest.len() || rest[n] == delim,
    ensures
        length_until(rest, delim) == n,
    decreases n,
{
    if n > 0 {
        lemma_length_until(rest.skip(1), delim, n - 1);
    }
}

/// What `length_until` counts holds no `delim`, and one follows unless the
/// bytes end.
pub proof fn lemma_length_until_meaning(rest: Seq<u8>, delim: u8)
    ensures
        0 <= length_until(rest, delim) <= rest.len(),
        forall|j: int| 0 <= j < length_until(rest, delim) ==> rest[j] != delim,
        length_until(rest, delim) < rest.len() ==> rest[length_until(rest, delim)] == delim,
    decreases rest.len(),
{
    if rest.len() != 0 && rest[0] != delim {
        let tail = rest.skip(1);
        lemma_length_until_meaning(tail, delim);
        assert forall|j: int| 0 <= j < length_until(rest, delim) implies rest[j] != delim by {
            if j > 0 {
                assert(rest[j] == tail[j - 1]);
            }
        }
        if length_until(rest, delim) < rest.len() {
            assert(rest[length_until(rest, delim)] == tail[length_until(tail, delim)]);
        }
    }
}

/// The text at the front of `rest` up to a zero byte, which is read too, or up
/// to the end.
pub open spec fn string_to_null_of(rest: Seq<u8>) -> Result<(Seq<char>, Seq<u8>), PatchError> {
    let n = length_until(rest, 0);
    Ok(
        (
            utf8_lossy(rest.take(n)),
            if n < rest.len() {
                rest.skip(n + 1)
            } else {
                Seq::empty()
            },
        ),
    )
}

/// Reads a text that a zero byte, or the end of the stream, closes.
pub fn read_string_to_null<S: ByteSource>(src: &mut S) -> (r: Result<String, PatchError>)
    ensures
        reads(*old(src), *final(src), r, string_to_null_of(old(src).rest())),
{
    let mut buf: Vec<u8> = Vec::new();
    proof {
        assert(old(src).rest().skip(0) =~= old(src).rest());
        assert(old(src).rest().take(0) =~= buf@);
    }
    loop
        invariant
            src.base() == old(src).base(),
            src.fallible() == old(src).fallible(),
            buf@.len() <= old(src).rest().len(),
            buf@ == old(src).rest().take(buf@.len() as int),
            src.rest() == old(src).rest().skip(buf@.len() as int),
            src.position() == old(src).position() + buf@.len(),
            forall|j: int| 0 <= j < buf@.len() ==> old(src).rest()[j] != 0,
        decreases src.rest().len(),
    {
        let ghost all = old(src).rest();
        let ghost n = buf@.len() as int;
        match src.next_byte() {
            Ok(Some(b)) => {
                assert(b == all[n]);
                assert(all.skip(n).skip(1) =~= all.skip(n + 1));
                if b == 0 {
                    proof {
                        lemma_length_until(all, 0, n);
                    }
                    return Ok(text_from_utf8_lossy(buf.as_slice()));
                }
                buf.push(b);
                assert(buf@ =~= all.take(n + 1));
            },
            Ok(None) => {
                proof {
                    assert(all.skip(n).len() == 0);
                    lemma_length_until(all, 0, n);
                    assert(all.skip(n) =~= Seq::<u8>::empty());
                }
                return Ok(text_from_utf8_lossy(buf.as_slice()));
            },
            Err(e) => {
                return Err(e);
            },
        }
    }
}

/// The 64-bit integer whose first byte is `code`, with the digits in `rest`.
pub open spec fn long_7bit_tagged_of(tag_bit: u8, code: u8, rest: Seq<u8>) -> Result<
    (i64, Seq<u8>),
    PatchError,
> {
    match varint_tagged(LONG_LIMIT as int, tag_bit, code, rest) {
        Some((v, left)) => Ok((as_signed(v), left)),
        None => Err(PatchError::UnexpectedEof),
    }
}

/// The 64-bit integer at the front of `rest`.
pub open spec fn long_7bit_of(rest: Seq<u8>) -> Result<(i64, Seq<u8>), PatchError> {
    match byte_of(rest) {
        Ok((code, left)) => long_7bit_tagged_of(0, code, left),
        Err(e) => Err(e),
    }
}

/// The 32-bit integer whose first byte is `code`, with the digits in `rest`.
pub open spec fn int_7bit_tagged_of(tag_bit: u8, code: u8, rest: Seq<u8>) -> Result<
    (i32, Seq<u8>),
    PatchError,
> {
    match varint_tagged(INT_LIMIT as int, tag_bit, code, rest) {
        Some((v, left)) => Ok((v as i32, left)),
        None => Err(PatchError::UnexpectedEof),
    }
}

/// The 32-bit integer at the front of `rest`.
pub open spec fn int_7bit_of(rest: Seq<u8>) -> Result<(i32, Seq<u8>), PatchError> {
    match byte_of(rest) {
        Ok((code, left)) => int_7bit_tagged_of(0, code, left),
        Err(e) => Err(e),
    }
}

/// An integer leaves fewer bytes than there were.
pub proof fn lemma_long_7bit_shrinks(rest: Seq<u8>)
    ensures
        long_7bit_of(rest) matches Ok((_, left)) ==> left.len() < rest.len(),
{
    if rest.len() > 0 {
        lemma_varint_tagged_bounds(LONG_LIMIT as int, 0, rest[0], rest.skip(1));
    }
}

/// The digits of a tagged integer leave no more bytes than there were.
pub proof fn lemma_long_7bit_tagged_shrinks(tag_bit: u8, code: u8, rest: Seq<u8>)
    ensures
        long_7bit_tagged_of(tag_bit, code, rest) matches Ok((_, left)) ==> left.len()
            <= rest.len(),
{
    lemma_varint_tagged_bounds(LONG_LIMIT as int, tag_bit, code, rest);
}

/// The number of values of a payload beside `tag_bit` tag bits.
fn span_of_payload(tag_bit: u8) -> (r: u8)
    requires
        tag_bit <= 7,
    ensures
        r == payload_span(tag_bit),
{
    match tag_bit {
        0 => 128,
        1 => 64,
        2 => 32,
        3 => 16,
        4 => 8,
        5 => 4,
        6 => 2,
        _ => 1,
    }
}

/// Reads the digits that follow the first byte `code`.
fn read_varint_tagged<S: ByteSource>(src: &mut S, limit: u64, tag_bit: u8, code: u8) -> (r: Result<
    u64,
    PatchError,
>)
    requires
        limit <= LONG_LIMIT,
        tag_bit <= 7,
    ensures
        reads(
            *old(src),
            *final(src),
            r,
            match varint_tagged(limit as int, tag_bit, code, old(src).rest()) {
                Some((v, left)) => Ok((v as u64, left)),
                None => Err(PatchError::UnexpectedEof),
            },
        ),
{
    let span = span_of_payload(tag_bit);
    let mut value: u64 = (code % span) as u64;
    proof {
        lemma_varint_tagged_bounds(limit as int, tag_bit, code, old(src).rest());
    }
    if code / span % 2 == 0 {
        return Ok(value);
    }
    loop
        invariant
            limit <= LONG_LIMIT,
            src.base() == old(src).base(),
            src.fallible() == old(src).fallible(),
            src.position() == old(src).position() + old(src).rest().len() - src.rest().len(),
            varint_tagged(limit as int, tag_bit, code, old(src).rest()) == varint_tail(
                limit as int,
                value as int,
                src.rest(),
            ),
        decreases src.rest().len(),
    {
        if value >= limit {
            return Ok(0);
        }
        let digit = read_byte(src)?;
        value = value * 128 + (digit % 128) as u64;
        if digit < 128 {
            return Ok(value);
        }
    }
}

/// Reads a 64-bit integer. With tag bits its first byte is `prev_byte`, which
/// has been read already; without any it is read here.
pub fn read_long_7bit_tagged<S: ByteSource>(src: &mut S, tag_bit: u8, prev_byte: u8) -> (r: Result<
    i64,
    PatchError,
>)
    requires
        tag_bit <= 7,
    ensures
        reads(
            *old(src),
            *final(src),
            r,
            if tag_bit != 0 {
                long_7bit_tagged_of(tag_bit, prev_byte, old(src).rest())
            } else {
                long_7bit_of(old(src).rest())
            },
        ),
{
    let code = if tag_bit != 0 {
        prev_byte
    } else {
        read_byte(src)?
    };
    proof {
        lemma_varint_tagged_bounds(LONG_LIMIT as int, tag_bit, code, src.rest());
    }
    let v = read_varint_tagged(src, LONG_LIMIT, tag_bit, code)?;
    Ok(to_signed(v))
}

/// Reads a 64-bit integer.
pub fn read_long_7bit<S: ByteSource>(src: &mut S) -> (r: Result<i64, PatchError>)
    ensures
        reads(*old(src), *final(src), r, long_7bit_of(old(src).rest())),
{
    read_long_7bit_tagged(src, 0, 0)
}

/// The value of a 32-bit integer stays below 65536.
proof fn lemma_int_tail_bounds(acc: int, rest: Seq<u8>)
    requires
        0 <= acc,
    ensures
        varint_tail(INT_LIMIT as int, acc, rest) matches Some((v, _)) ==> 0 <= v < 65536,
    decreases rest.len(),
{
    if acc < INT_LIMIT && rest.len() > 0 {
        lemma_int_tail_bounds(acc * 128 + rest[0] as int % 128, rest.skip(1));
    }
}

/// Reads a 32-bit integer. With tag bits its first byte is `prev_byte`, which
/// has been read already; without any it is read here.
pub fn read_int_7bit_tagged<S: ByteSource>(src: &mut S, tag_bit: u8, prev_byte: u8) -> (r: Result<
    i32,
    PatchError,
>)
    requires
        tag_bit <= 7,
    ensures
        reads(
            *old(src),
            *final(src),
            r,
            if tag_bit != 0 {
                int_7bit_tagged_of(tag_bit, prev_byte, old(src).rest())
            } else {
                int_7bit_of(old(src).rest())
            },
        ),
{
    let code = if tag_bit != 0 {
        prev_byte
    } else {
        read_byte(src)?
    };
    proof {
        lemma_int_tail_bounds(code as int % payload_span(tag_bit), src.rest());
    }
    let v = read_varint_tagged(src, INT_LIMIT, tag_bit, code)?;
    Ok(v as i32)
}

/// Reads a 32-bit integer.
pub fn read_int_7bit<S: ByteSource>(src: &mut S) -> (r: Result<i32, PatchError>)
    ensures
        reads(*old(src), *final(src), r, int_7bit_of(old(src).rest())),
{
    read_int_7bit_tagged(src, 0, 0)
}

/// Reads a 64-bit integer out of `buf` at `offset`, which moves behind it.
pub fn read_long_7bit_from_slice(buf: &[u8], offset: &mut usize, tag_bit: u8, prev_byte: u8) -> (r:
    i64)
    requires
        tag_bit <= 7,
        *old(offset) <= buf@.len(),
        tag_bit != 0 ==> long_7bit_tagged_of(
            tag_bit,
            prev_byte,
            buf@.skip(*old(offset) as int),
        ) is Ok,
        tag_bit == 0 ==> long_7bit_of(buf@.skip(*old(offset) as int)) is Ok,
    ensures
        *old(offset) <= *final(offset) <= buf@.len(),
        tag_bit != 0 ==> long_7bit_tagged_of(tag_bit, prev_byte, buf@.skip(*old(offset) as int))
            == Ok::<(i64, Seq<u8>), PatchError>((r, buf@.skip(*final(offset) as int))),
        tag_bit == 0 ==> long_7bit_of(buf@.skip(*old(offset) as int)) == Ok::<
            (i64, Seq<u8>),
            PatchError,
        >((r, buf@.skip(*final(offset) as int))),
{
    let mut src = ByteStream { data: buf, pos: *offset as u64 };
    let ghost start = src;
    assert(buf@.len() == buf.len());
    let r = read_long_7bit_tagged(&mut src, tag_bit, prev_byte);
    proof {
        if tag_bit != 0 {
            lemma_long_7bit_tagged_shrinks(tag_bit, prev_byte, start.rest());
        } else {
            lemma_long_7bit_shrinks(start.rest());
        }
    }
    match r {
        Ok(v) => {
            *offset = src.pos as usize;
            v
        },
        Err(_) => {
            assert(false);
            0
        },
    }
}

/// The `n` integers at the front of `rest`.
pub open spec fn longs_of(rest: Seq<u8>, n: int) -> Result<(Seq<i64>, Seq<u8>), PatchError>
    decreases n,
{
    if n <= 0 {
        Ok((Seq::empty(), rest))
    } else {
        match longs_of(rest, n - 1) {
            Ok((longs, left)) => match long_7bit_of(left) {
                Ok((v, left)) => Ok((longs.push(v), left)),
                Err(e) => Err(e),
            },
            Err(e) => Err(e),
        }
    }
}

/// As many integers are read as are asked for, out of as many bytes at least.
pub proof fn lemma_longs_len(rest: Seq<u8>, n: int)
    ensures
        longs_of(rest, n) matches Ok((longs, left)) ==> {
            &&& longs.len() == if n <= 0 {
                0
            } else {
                n
            }
            &&& left.len() + longs.len() <= rest.len()
        },
    decreases n,
{
    if n > 0 {
        lemma_longs_len(rest, n - 1);
        if let Ok((_, left)) = longs_of(rest, n - 1) {
            lemma_long_7bit_shrinks(left);
        }
    }
}

/// Integers that cannot be read cannot be read with more of them behind.
proof fn lemma_longs_err(rest: Seq<u8>, i: int, n: int)
    requires
        i <= n,
        longs_of(rest, i) is Err,
    ensures
        longs_of(rest, n) == longs_of(rest, i),
    decreases n,
{
    if i < n {
        lemma_longs_err(rest, i, n - 1);
    }
}

/// Reads `count` integers, each as it stands.
pub fn get_longs_from_stream_absolute<S: ByteSource>(src: &mut S, count: u64) -> (r: Result<
    Vec<i64>,
    PatchError,
>)
    ensures
        reads(*old(src), *final(src), r, longs_of(old(src).rest(), count as int)),
{
    let mut out: Vec<i64> = Vec::new();
    let mut i: u64 = 0;
    while i < count
        invariant
            i <= count,
            src.base() == old(src).base(),
            src.fallible() == old(src).fallible(),
            src.position() == old(src).position() + old(src).rest().len() - src.rest().len(),
            longs_of(old(src).rest(), i as int) == Ok::<(Seq<i64>, Seq<u8>), PatchError>(
                (out@, src.rest()),
            ),
        decreases count - i,
    {
        match read_long_7bit(src) {
            Ok(v) => {
                out.push(v);
            },
            Err(e) => {
                proof {
                    if longs_of(old(src).rest(), i + 1) is Err {
                        lemma_longs_err(old(src).rest(), i + 1, count as int);
                    }
                }
                return Err(e);
            },
        }
        i = i + 1;
    }
    assert(out.deep_view() =~= out@);
    Ok(out)
}

/// The `n` indices at the front of `rest`: each integer there is the distance
/// from the one after the index before. An index above `check_count` is
/// refused, and so is one that no `i64` holds.
pub open spec fn indices_of(rest: Seq<u8>, n: int, check_count: Option<i64>) -> Result<
    (Seq<i64>, Seq<u8>),
    PatchError,
>
    decreases n,
{
    if n <= 0 {
        Ok((Seq::empty(), rest))
    } else {
        match indices_of(rest, n - 1, check_count) {
            Ok((indices, left)) => match long_7bit_of(left) {
                Ok((distance, left)) => {
                    let back = if indices.len() == 0 {
                        -1
                    } else {
                        indices.last() as int
                    };
                    let index = back + 1 + distance;
                    if index < i64::MIN || index > i64::MAX {
                        Err(PatchError::Malformed)
                    } else if check_count matches Some(max) && index > max {
                        Err(PatchError::InvalidIndex { at: (n - 1) as u64, max: check_count->0 })
                    } else {
                        Ok((indices.push(index as i64), left))
                    }
                },
                Err(e) => Err(e),
            },
            Err(e) => Err(e),
        }
    }
}

proof fn lemma_indices_err(rest: Seq<u8>, i: int, n: int, check_count: Option<i64>)
    requires
        i <= n,
        indices_of(rest, i, check_count) is Err,
    ensures
        indices_of(rest, n, check_count) == indices_of(rest, i, check_count),
    decreases n,
{
    if i < n {
        lemma_indices_err(rest, i, n - 1, check_count);
    }
}

/// Reads `count` indices, each given by its distance from the one before.
pub fn get_longs_from_stream<S: ByteSource>(
    src: &mut S,
    count: u64,
    check_count: Option<i64>,
) -> (r: Result<Vec<i64>, PatchError>)
    ensures
        reads(
            *old(src),
            *final(src),
            r,
            indices_of(old(src).rest(), count as int, check_count),
        ),
{
    let mut out: Vec<i64> = Vec::new();
    let mut back_value: i64 = -1;
    let mut i: u64 = 0;
    while i < count
        invariant
            i <= count,
            src.base() == old(src).base(),
            src.fallible() == old(src).fallible(),
            src.position() == old(src).position() + old(src).rest().len() - src.rest().len(),
            indices_of(old(src).rest(), i as int, check_count) == Ok::<
                (Seq<i64>, Seq<u8>),
                PatchError,
            >((out@, src.rest())),
            back_value == if out@.len() == 0 {
                -1
            } else {
                out@.last() as int
            },
        decreases count - i,
    {
        proof {
            if indices_of(old(src).rest(), i + 1, check_count) is Err {
                lemma_indices_err(old(src).rest(), i + 1, count as int, check_count);
            }
        }
        let num = read_long_7bit(src)?;
        let next: i128 = back_value as i128 + 1 + num as i128;
        if next < i64::MIN as i128 || next > i64::MAX as i128 {
            return Err(PatchError::Malformed);
        }
        back_value = next as i64;
        if let Some(max_val) = check_count {
            if back_value > max_val {
                return Err(PatchError::InvalidIndex { at: i, max: max_val });
            }
        }
        out.push(back_value);
        i = i + 1;
    }
    assert(out.deep_view() =~= out@);
    Ok(out)
}

/// No index of a list that is read lies above the bound.
pub proof fn law_indices_bounded(rest: Seq<u8>, n: int, max: i64)
    ensures
        indices_of(rest, n, Some(max)) matches Ok((indices, _)) ==> {
            &&& indices.len() == if n <= 0 {
                0
            } else {
                n
            }
            &&& forall|i: int| 0 <= i < indices.len() ==> #[trigger] indices[i] <= max
        },
    decreases n,
{
    if n > 0 {
        law_indices_bounded(rest, n - 1, max);
    }
}

/// A list of indices whose distances are not negative ascends.
pub proof fn law_indices_ascend(rest: Seq<u8>, n: int, check_count: Option<i64>)
    requires
        longs_of(rest, n) matches Ok((distances, _)) && forall|i: int|
            0 <= i < distances.len() ==> #[trigger] distances[i] >= 0,
    ensures
        indices_of(rest, n, check_count) matches Ok((indices, left)) ==> {
            &&& longs_of(rest, n)->Ok_0.1 == left
            &&& indices.len() == longs_of(rest, n)->Ok_0.0.len()
            &&& forall|i: int, j: int| 0 <= i < j < indices.len() ==> indices[i] < indices[j]
            &&& forall|i: int| 0 <= i < indices.len() ==> #[trigger] indices[i] >= 0
        },
    decreases n,
{
    if n > 0 {
        let all = longs_of(rest, n)->Ok_0.0;
        let (before, _) = longs_of(rest, n - 1)->Ok_0;
        assert(all.drop_last() =~= before);
        assert forall|i: int| 0 <= i < before.len() implies #[trigger] before[i] >= 0 by {
            assert(before[i] == all[i]);
        }
        law_indices_ascend(rest, n - 1, check_count);
        assert(all[before.len() as int] >= 0);
    }
}

/// The `n` pairs of indices at the front of `rest`. The new index is given by
/// its distance from the one after the new index before, and so is the old one,
/// but with a sign in the top bit of its first byte.
pub open spec fn pairs_of(rest: Seq<u8>, n: int, check_end_new: i64, check_end_old: i64) -> Result<
    (Seq<PairIndexReference>, Seq<u8>),
    PatchError,
>
    decreases n,
{
    if n <= 0 {
        Ok((Seq::empty(), rest))
    } else {
        match pairs_of(rest, n - 1, check_end_new, check_end_old) {
            Ok((pairs, left)) => {
                let back_new = if pairs.len() == 0 {
                    -1
                } else {
                    pairs.last().new_index as int
                };
                let back_old = if pairs.len() == 0 {
                    -1
                } else {
                    pairs.last().old_index as int
                };
                match pair_of(left, n - 1, back_new, back_old, check_end_new, check_end_old) {
                    Ok((pair, left)) => Ok((pairs.push(pair), left)),
                    Err(e) => Err(e),
                }
            },
            Err(e) => Err(e),
        }
    }
}

/// The pair of indices at the front of `rest`, the one with number `at`, behind
/// the indices `back_new` and `back_old`.
pub open spec fn pair_of(
    rest: Seq<u8>,
    at: int,
    back_new: int,
    back_old: int,
    check_end_new: i64,
    check_end_old: i64,
) -> Result<(PairIndexReference, Seq<u8>), PatchError> {
    match long_7bit_of(rest) {
        Ok((inc_new, left)) => {
            let new_index = back_new + 1 + inc_new;
            if new_index < i64::MIN || new_index > i64::MAX {
                Err(PatchError::Malformed)
            } else if new_index > check_end_new {
                Err(PatchError::InvalidNewIndex { at: at as u64, value: new_index as i64 })
            } else {
                match byte_of(left) {
                    Ok((sign, left)) => match long_7bit_tagged_of(1, sign, left) {
                        Ok((inc_old, left)) => {
                            let old_index = if sign < 128 {
                                back_old + 1 + inc_old
                            } else {
                                back_old + 1 - inc_old
                            };
                            if old_index < i64::MIN || old_index > i64::MAX {
                                Err(PatchError::Malformed)
                            } else if old_index > check_end_old {
                                Err(
                                    PatchError::InvalidOldIndex {
                                        at: at as u64,
                                        value: old_index as i64,
                                    },
                                )
                            } else {
                                Ok(
                                    (
                                        PairIndexReference {
                                            new_index: new_index as i64,
                                            old_index: old_index as i64,
                                        },
                                        left,
                                    ),
                                )
                            }
                        },
                        Err(e) => Err(e),
                    },
                    Err(e) => Err(e),
                }
            }
        },
        Err(e) => Err(e),
    }
}

proof fn lemma_pairs_err(
    rest: Seq<u8>,
    i: int,
    n: int,
    check_end_new: i64,
    check_end_old: i64,
)
    requires
        i <= n,
        pairs_of(rest, i, check_end_new, check_end_old) is Err,
    ensures
        pairs_of(rest, n, check_end_new, check_end_old) == pairs_of(
            rest,
            i,
            check_end_new,
            check_end_old,
        ),
    decreases n,
{
    if i < n {
        lemma_pairs_err(rest, i, n - 1, check_end_new, check_end_old);
    }
}

/// No pair that is read lies above its bounds.
pub proof fn law_pairs_bounded(rest: Seq<u8>, n: int, check_end_new: i64, check_end_old: i64)
    ensures
        pairs_of(rest, n, check_end_new, check_end_old) matches Ok((pairs, _)) ==> {
            &&& pairs.len() == if n <= 0 {
                0
            } else {
                n
            }
            &&& forall|i: int|
                0 <= i < pairs.len() ==> {
                    &&& (#[trigger] pairs[i]).new_index <= check_end_new
                    &&& pairs[i].old_index <= check_end_old
                }
        },
    decreases n,
{
    if n > 0 {
        law_pairs_bounded(rest, n - 1, check_end_new, check_end_old);
    }
}

/// Reads the pair with number `at`.
fn read_pair<S: ByteSource>(
    src: &mut S,
    at: u64,
    back_new: i64,
    back_old: i64,
    check_end_new: i64,
    check_end_old: i64,
) -> (r: Result<PairIndexReference, PatchError>)
    ensures
        reads(
            *old(src),
            *final(src),
            r,
            pair_of(
                old(src).rest(),
                at as int,
                back_new as int,
                back_old as int,
                check_end_new,
                check_end_old,
            ),
        ),
{
    let inc_new = read_long_7bit(src)?;
    let new_index: i128 = back_new as i128 + 1 + inc_new as i128;
    if new_index < i64::MIN as i128 || new_index > i64::MAX as i128 {
        return Err(PatchError::Malformed);
    }
    if new_index > check_end_new as i128 {
        return Err(PatchError::InvalidNewIndex { at, value: new_index as i64 });
    }
    let sign = read_byte(src)?;
    let inc_old = read_long_7bit_tagged(src, 1, sign)?;
    let old_index: i128 = if sign < 128 {
        back_old as i128 + 1 + inc_old as i128
    } else {
        back_old as i128 + 1 - inc_old as i128
    };
    if old_index < i64::MIN as i128 || old_index > i64::MAX as i128 {
        return Err(PatchError::Malformed);
    }
    if old_index > check_end_old as i128 {
        return Err(PatchError::InvalidOldIndex { at, value: old_index as i64 });
    }
    Ok(PairIndexReference { new_index: new_index as i64, old_index: old_index as i64 })
}

/// Reads `pair_count` pairs of indices.
pub fn get_pair_index_reference_from_stream<S: ByteSource>(
    src: &mut S,
    pair_count: u64,
    check_end_new: i64,
    check_end_old: i64,
) -> (r: Result<Vec<PairIndexReference>, PatchError>)
    ensures
        reads(
            *old(src),
            *final(src),
            r,
            pairs_of(old(src).rest(), pair_count as int, check_end_new, check_end_old),
        ),
{
    let mut result: Vec<PairIndexReference> = Vec::new();
    let mut back_new: i64 = -1;
    let mut back_old: i64 = -1;
    let mut i: u64 = 0;
    while i < pair_count
        invariant
            i <= pair_count,
            src.base() == old(src).base(),
            src.fallible() == old(src).fallible(),
            src.position() == old(src).position() + old(src).rest().len() - src.rest().len(),
            pairs_of(old(src).rest(), i as int, check_end_new, check_end_old) == Ok::<
                (Seq<PairIndexReference>, Seq<u8>),
                PatchError,
            >((result@, src.rest())),
            result@.len() == 0 ==> back_new == -1 && back_old == -1,
            result@.len() > 0 ==> back_new == result@.last().new_index && back_old
                == result@.last().old_index,
        decreases pair_count - i,
    {
        proof {
            if pairs_of(old(src).rest(), i + 1, check_end_new, check_end_old) is Err {
                lemma_pairs_err(
                    old(src).rest(),
                    i + 1,
                    pair_count as int,
                    check_end_new,
                    check_end_old,
                );
            }
        }
        let pair = read_pair(src, i, back_new, back_old, check_end_new, check_end_old)?;
        back_new = pair.new_index;
        back_old = pair.old_index;
        result.push(pair);
        i = i + 1;
    }
    assert(result.deep_view() =~= result@);
    Ok(result)
}

/// The texts in `buffer`, each closed by a zero byte. Bytes behind the last
/// zero are none.
pub open spec fn closed_texts(buffer: Seq<u8>) -> Seq<Seq<char>>
    decreases buffer.len(),
{
    let n = length_until(buffer, 0);
    if n < 0 || n >= buffer.len() {
        Seq::empty()
    } else {
        seq![utf8_lossy(buffer.take(n))] + closed_texts(buffer.skip(n + 1))
    }
}

/// The list of `count` paths that `buffer` stands for: the first `count` texts,
/// and empty ones in place of those that are missing. A count of zero sets no
/// bound.
pub open spec fn path_list(buffer: Seq<u8>, count: int) -> Seq<Seq<char>> {
    let texts = closed_texts(buffer);
    if count == 0 {
        texts
    } else if texts.len() >= count {
        texts.take(count)
    } else {
        texts + Seq::new((count - texts.len()) as nat, |i: int| Seq::<char>::empty())
    }
}

/// The paths at the front of `rest`, in `size` bytes.
pub open spec fn paths_of(rest: Seq<u8>, size: int, count: int) -> Result<
    (Seq<Seq<char>>, Seq<u8>),
    PatchError,
> {
    match bytes_of(rest, size) {
        Ok((buffer, left)) => Ok((path_list(buffer, count), left)),
        Err(e) => Err(e),
    }
}

/// The paths in `buffer`.
pub fn split_paths(buffer: &[u8], count: u64) -> (r: Vec<String>)
    ensures
        r.deep_view() == path_list(buffer@, count as int),
{
    let mut paths: Vec<String> = Vec::new();
    let mut start: usize = 0;
    let mut i: usize = 0;
    let ghost texts = closed_texts(buffer@);
    proof {
        assert(buffer@.skip(0) =~= buffer@);
        assert(paths.deep_view() + closed_texts(buffer@.skip(0)) =~= texts);
    }
    while i < buffer.len()
        invariant_except_break
            start <= i <= buffer@.len(),
            i == buffer@.len() ==> paths.deep_view() == texts,
            texts == closed_texts(buffer@),
            paths.deep_view() + closed_texts(buffer@.skip(start as int)) == texts,
            forall|j: int| start <= j < i ==> buffer@[j] != 0,
            count > 0 ==> paths@.len() < count,
        ensures
            count > 0 ==> paths@.len() <= count,
            if count > 0 && paths@.len() == count {
                texts.len() >= count && paths.deep_view() == texts.take(count as int)
            } else {
                paths.deep_view() == texts
            },
        decreases buffer@.len() - i,
    {
        if buffer[i] == 0 {
            let name = text_from_utf8_lossy(slice_subrange(buffer, start, i));
            let ghost before = paths.deep_view();
            paths.push(name);
            proof {
                let tail = buffer@.skip(start as int);
                lemma_length_until(tail, 0, i - start);
                assert(tail.take(i - start) =~= buffer@.subrange(start as int, i as int));
                assert(tail.skip(i - start + 1) =~= buffer@.skip(i + 1));
                assert(paths.deep_view() =~= before.push(name@));
                assert(paths.deep_view() + closed_texts(buffer@.skip(i + 1)) =~= texts);
            }
            start = i + 1;
            if count > 0 && paths.len() as u64 == count {
                assert(texts.take(count as int) =~= paths.deep_view());
                break;
            }
        }
        i = i + 1;
        proof {
            if i >= buffer@.len() {
                let tail = buffer@.skip(start as int);
                lemma_length_until(tail, 0, i - start);
                assert(paths.deep_view() =~= texts);
            }
        }
    }
    let ghost found = paths.deep_view();
    proof {
        if count > 0 && found.len() == count {
        } else {
            assert(found =~= texts);
        }
        assert(Seq::new(0nat, |i: int| Seq::<char>::empty()) =~= Seq::empty());
        assert(found + Seq::new(0nat, |i: int| Seq::<char>::empty()) =~= paths.deep_view());
    }
    while (paths.len() as u64) < count
        invariant
            found.len() <= paths@.len(),
            count > 0 ==> paths@.len() <= count,
            count == 0 ==> paths.deep_view() == found,
            paths.deep_view() == found + Seq::new(
                (paths@.len() - found.len()) as nat,
                |i: int| Seq::<char>::empty(),
            ),
        decreases count - paths@.len(),
    {
        let ghost before = paths.deep_view();
        paths.push(String::new());
        assert(paths.deep_view() =~= before.push(Seq::empty()));
        assert(paths.deep_view() =~= found + Seq::new(
            (paths@.len() - found.len()) as nat,
            |i: int| Seq::<char>::empty(),
        ));
    }
    assert(paths.deep_view() =~= path_list(buffer@, count as int));
    paths
}

/// Reads a list of `count` paths that takes `buf_size` bytes.
pub fn get_paths_from_stream<S: ByteSource>(src: &mut S, buf_size: u64, count: u64) -> (r: Result<
    Vec<String>,
    PatchError,
>)
    ensures
        reads(*old(src), *final(src), r, paths_of(old(src).rest(), buf_size as int, count as int)),
{
    let buffer = read_exact(src, buf_size)?;
    assert(buffer.deep_view() =~= buffer@);
    Ok(split_paths(buffer.as_slice(), count))
}

/// The text at the front of `rest` up to `delim`, which is read too, or of
/// `limit` bytes where `delim` has not come by then. One byte is read in any case.
pub open spec fn delimited_of(rest: Seq<u8>, delim: u8, limit: int) -> Result<
    (Seq<char>, Seq<u8>),
    PatchError,
> {
    let n = length_until(rest, delim);
    let most = if limit < 1 {
        1
    } else {
        limit
    };
    if n >= most {
        Ok((utf8_lossy(rest.take(most)), rest.skip(most)))
    } else if n < rest.len() {
        Ok((utf8_lossy(rest.take(n)), rest.skip(n + 1)))
    } else {
        Err(PatchError::UnexpectedEof)
    }
}

/// Reads a text up to `delim`, or of `limit` bytes.
pub fn read_delim<S: ByteSource>(src: &mut S, delim: u8, limit: usize) -> (r: Result<
    String,
    PatchError,
>)
    ensures
        reads(*old(src), *final(src), r, delimited_of(old(src).rest(), delim, limit as int)),
{
    let mut buf: Vec<u8> = Vec::new();
    let most: usize = if limit == 0 {
        1
    } else {
        limit
    };
    proof {
        assert(old(src).rest().skip(0) =~= old(src).rest());
        assert(old(src).rest().take(0) =~= buf@);
    }
    loop
        invariant
            src.base() == old(src).base(),
            src.fallible() == old(src).fallible(),
            most == if limit == 0 {
                1
            } else {
                limit
            },
            buf@.len() < most,
            buf@.len() <= old(src).rest().len(),
            buf@ == old(src).rest().take(buf@.len() as int),
            src.rest() == old(src).rest().skip(buf@.len() as int),
            src.position() == old(src).position() + buf@.len(),
            forall|j: int| 0 <= j < buf@.len() ==> old(src).rest()[j] != delim,
        decreases src.rest().len(),
    {
        let ghost all = old(src).rest();
        let ghost n = buf@.len() as int;
        proof {
            lemma_length_until_meaning(all, delim);
            if n == all.len() {
                lemma_length_until(all, delim, n);
            }
        }
        let b = read_byte(src)?;
        assert(b == all[n]);
        assert(all.skip(n).skip(1) =~= all.skip(n + 1));
        if b == delim {
            proof {
                lemma_length_until(all, delim, n);
            }
            return Ok(text_from_utf8_lossy(buf.as_slice()));
        }
        buf.push(b);
        assert(buf@ =~= all.take(n + 1));
        if buf.len() >= most {
            return Ok(text_from_utf8_lossy(buf.as_slice()));
        }
    }
}

/// The buffer that suits a file of `file_size` bytes.
pub open spec fn stream_buffer_size(file_size: int) -> int {
    if file_size <= 131072 {
        4096
    } else if file_size <= 1048576 {
        65536
    } else if file_size <= 33554432 {
        131072
    } else if file_size <= 104857600 {
        524288
    } else {
        1048576
    }
}

/// The size of the buffer to read or write a file of `file_size` bytes with.
pub fn get_file_stream_buffer_size(file_size: u64) -> (r: usize)
    ensures
        r == stream_buffer_size(file_size as int),
{
    if file_size <= 131_072 {
        4 * 1024
    } else if file_size <= 1_048_576 {
        64 * 1024
    } else if file_size <= 33_554_432 {
        128 * 1024
    } else if file_size <= 104_857_600 {
        512 * 1024
    } else {
        1024 * 1024
    }
}

} // verus!
