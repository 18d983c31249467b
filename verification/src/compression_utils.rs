//! The parts of a patch as streams of their own, decompressed where the patch
//! holds them compressed.
use crate::error::PatchError;
use crate::parser::{bytes_from, ByteSource, ByteStream, CHUNK_LEN};
use crate::streams::{bytes_between, slice_between, ChunkStream};
use crate::structs::CompressionMode;
use std::io::{BufReader, Read};
use vstd::prelude::*;
use vstd::slice::slice_subrange;
use zstd::stream::read::Decoder;

verus! {

/// The streaming decoder of the `zstd` crate.
#[verifier::external_type_specification]
#[verifier::external_body]
#[verifier::reject_recursive_types(R)]
pub struct ExDecoder<'a, R>(zstd::stream::read::Decoder<'a, R>);

/// The buffered reader that the decoder wraps its input in.
#[verifier::external_type_specification]
#[verifier::external_body]
#[verifier::reject_recursive_types(R)]
pub struct ExBufReader<R: ?Sized>(std::io::BufReader<R>);

/// The error that the decoder reports.
#[verifier::external_type_specification]
#[verifier::external_body]
pub struct ExIoError(std::io::Error);

/// The bytes that a decoder has still to hand out to reads of `CHUNK_LEN` bytes
/// each, up to the end or the first read that faulty data fails.
pub uninterp spec fn zstd_rest(decoder: Decoder<'static, BufReader<&[u8]>>) -> Seq<u8>;

/// The largest window that a decoder allows, as a power of two.
pub uninterp spec fn zstd_window_log_max(decoder: Decoder<'static, BufReader<&[u8]>>) -> u32;

/// The bytes that a decoder over compressed data hands out to reads of `CHUNK_LEN`
/// bytes each, up to the end or the first read that faulty data fails.
pub uninterp spec fn zstd_decoded(src: Seq<u8>) -> Seq<u8>;

/// Opens a decoder over `src` with `zstd::stream::read::Decoder::new`. It has
/// all the bytes of `src` still to hand out. Nothing is said of when opening
/// fails: that rests on the memory there is.
#[verifier::external_body]
fn zstd_open<'b>(src: &'b [u8]) -> (r: Result<
    Decoder<'static, BufReader<&'b [u8]>>,
    std::io::Error,
>)
    ensures
        r matches Ok(decoder) ==> zstd_rest(decoder) == zstd_decoded(src@),
{
    Decoder::new(src)
}

/// Sets the largest window that a decoder allows, with `Decoder::set_parameter`
/// and `DParameter::WindowLogMax`. What the decoder has still to hand out stays
/// the same. A size of zero stands for a default and is left out. Nothing is said
/// of when setting fails: the decoder refuses sizes that the machine does not
/// support.
#[verifier::external_body]
fn zstd_allow_window(
    decoder: &mut Decoder<'static, BufReader<&[u8]>>,
    window_log: u32,
) -> (r: Result<(), std::io::Error>)
    requires
        0 < window_log,
    ensures
        r is Ok ==> {
            &&& zstd_rest(*final(decoder)) == zstd_rest(*old(decoder))
            &&& zstd_window_log_max(*final(decoder)) == window_log
        },
{
    decoder.set_parameter(zstd::zstd_safe::DParameter::WindowLogMax(window_log))
}

/// Reads at most `max` bytes with `Decoder::read`. What comes out is the front
/// of what the decoder had still to hand out, which it then has no more; and
/// where it had any, at least one byte. All reads have the same `max`: on faulty
/// data the bytes depend on it. Nothing is said of when reading fails: it does on
/// faulty or cut off data, on a window larger than the decoder allows, and for
/// want of memory.
#[verifier::external_body]
fn zstd_read(decoder: &mut Decoder<'static, BufReader<&[u8]>>, max: usize) -> (r: Result<
    Vec<u8>,
    std::io::Error,
>)
    requires
        max == CHUNK_LEN,
    ensures
        r matches Ok(bytes) ==> {
            &&& bytes@.len() <= max
            &&& bytes@.len() <= zstd_rest(*old(decoder)).len()
            &&& zstd_rest(*old(decoder)).len() > 0 ==> bytes@.len() > 0
            &&& bytes@ == zstd_rest(*old(decoder)).take(bytes@.len() as int)
            &&& zstd_rest(*final(decoder)) == zstd_rest(*old(decoder)).skip(bytes@.len() as int)
            &&& zstd_window_log_max(*final(decoder)) == zstd_window_log_max(*old(decoder))
        },
{
    let mut bytes = vec![0u8; max];
    let n = decoder.read(&mut bytes)?;
    bytes.truncate(n);
    Ok(bytes)
}

/// The largest window that a decoder is to allow, as a power of two.
pub open spec fn spec_window_log() -> u32 {
    if usize::BITS == 64 {
        31
    } else {
        30
    }
}

/// The largest window that a decoder is to allow, as a power of two.
pub fn window_log() -> (r: u32)
    ensures
        r == spec_window_log(),
{
    if usize::BITS == 64 {
        31
    } else {
        30
    }
}

/// Compressed data as a stream of the bytes that it stands for. Those that were
/// read from the decoder and not yet handed on stand in `held` from `pos` on.
pub struct ZstdStream<'a> {
    pub decoder: Decoder<'static, BufReader<&'a [u8]>>,
    pub held: Vec<u8>,
    pub pos: usize,
}

impl<'a> ZstdStream<'a> {
    /// The stream of the bytes that `src` stands for.
    pub fn new(src: &'a [u8]) -> (r: Result<Self, PatchError>)
        ensures
            match r {
                Ok(stream) => {
                    &&& stream.rest() == zstd_decoded(src@)
                    &&& zstd_window_log_max(stream.decoder) == spec_window_log()
                },
                Err(e) => e == PatchError::Decoder,
            },
    {
        match zstd_open(src) {
            Ok(opened) => {
                let mut decoder = opened;
                match zstd_allow_window(&mut decoder, window_log()) {
                    Ok(_) => {
                        let stream = ZstdStream { decoder, held: Vec::new(), pos: 0 };
                        assert(stream.rest() =~= zstd_rest(decoder));
                        Ok(stream)
                    },
                    Err(_) => Err(PatchError::Decoder),
                }
            },
            Err(_) => Err(PatchError::Decoder),
        }
    }
}

impl<'a> ZstdStream<'a> {
    /// Reads more bytes from the decoder where none are held. There are none held
    /// then only where the stream has ended.
    fn refill(&mut self) -> (r: Result<(), PatchError>)
        ensures
            match r {
                Ok(_) => {
                    &&& final(self).rest() == old(self).rest()
                    &&& zstd_window_log_max(final(self).decoder) == zstd_window_log_max(
                        old(self).decoder,
                    )
                    &&& final(self).pos >= final(self).held@.len() ==> final(self).rest().len()
                        == 0
                },
                Err(e) => e == PatchError::Decoder,
            },
    {
        if self.pos < self.held.len() {
            return Ok(());
        }
        let ghost rest = zstd_rest(self.decoder);
        match zstd_read(&mut self.decoder, CHUNK_LEN as usize) {
            Ok(bytes) => {
                self.held = bytes;
                self.pos = 0;
                proof {
                    assert(old(self).rest() =~= rest);
                    assert(self.held@.skip(0) =~= self.held@);
                    assert(self.rest() =~= rest);
                }
                Ok(())
            },
            Err(_) => Err(PatchError::Decoder),
        }
    }
}

impl<'a> ByteSource for ZstdStream<'a> {
    open spec fn rest(&self) -> Seq<u8> {
        bytes_from(self.held@, self.pos as int) + zstd_rest(self.decoder)
    }

    open spec fn fallible(&self) -> bool {
        true
    }

    open spec fn base(&self) -> Seq<u8> {
        Seq::empty()
    }

    open spec fn position(&self) -> int {
        -(self.rest().len() as int)
    }

    fn next_byte(&mut self) -> (r: Result<Option<u8>, PatchError>) {
        let ghost rest = self.rest();
        self.refill()?;
        if self.pos >= self.held.len() {
            return Ok(None);
        }
        let b = self.held[self.pos];
        self.pos = self.pos + 1;
        proof {
            assert(rest[0] == b);
            assert(self.rest() =~= rest.skip(1));
        }
        Ok(Some(b))
    }

    fn read(&mut self, max: usize, out: &mut Vec<u8>) -> (r: Result<usize, PatchError>) {
        let ghost rest = self.rest();
        let ghost before = out@;
        self.refill()?;
        if self.pos >= self.held.len() {
            proof {
                assert(rest.skip(0) =~= rest);
                assert(before =~= before + rest.take(0));
            }
            return Ok(0);
        }
        let left: usize = self.held.len() - self.pos;
        let n: usize = if left < max {
            left
        } else {
            max
        };
        let chunk = slice_subrange(self.held.as_slice(), self.pos, self.pos + n);
        out.extend_from_slice(chunk);
        proof {
            assert(chunk@ =~= rest.take(n as int));
            assert(out@ =~= before + chunk@);
        }
        self.pos = self.pos + n;
        assert(self.rest() =~= rest.skip(n as int));
        Ok(n)
    }
}

/// A part of a patch as a stream of its own.
pub enum ClipStream<'a> {
    Plain(ChunkStream<'a>),
    Zstd(ZstdStream<'a>),
}

impl<'a> ByteSource for ClipStream<'a> {
    open spec fn rest(&self) -> Seq<u8> {
        match self {
            ClipStream::Plain(stream) => stream.rest(),
            ClipStream::Zstd(stream) => stream.rest(),
        }
    }

    open spec fn fallible(&self) -> bool {
        self is Zstd
    }

    open spec fn base(&self) -> Seq<u8> {
        match self {
            ClipStream::Plain(stream) => stream.base(),
            ClipStream::Zstd(stream) => stream.base(),
        }
    }

    open spec fn position(&self) -> int {
        match self {
            ClipStream::Plain(stream) => stream.position(),
            ClipStream::Zstd(stream) => stream.position(),
        }
    }

    fn next_byte(&mut self) -> (r: Result<Option<u8>, PatchError>) {
        match self {
            ClipStream::Plain(stream) => stream.next_byte(),
            ClipStream::Zstd(stream) => stream.next_byte(),
        }
    }

    fn read(&mut self, max: usize, out: &mut Vec<u8>) -> (r: Result<usize, PatchError>) {
        match self {
            ClipStream::Plain(stream) => stream.read(max, out),
            ClipStream::Zstd(stream) => stream.read(max, out),
        }
    }
}

/// Whether a part is held as it is.
pub open spec fn held_plain(comp_mode: CompressionMode, comp_size: int) -> bool {
    comp_size == 0 || comp_mode == CompressionMode::Nocomp
}

/// How many bytes of the patch a part takes up.
pub open spec fn clip_len(size: int, comp_size: int) -> int {
    if comp_size > 0 {
        comp_size
    } else {
        size
    }
}

/// The bytes of a part of a patch that stands at `offset`, with `size` bytes,
/// and `comp_size` bytes compressed, or none where it is not.
pub open spec fn clip_of(
    patch: Seq<u8>,
    comp_mode: CompressionMode,
    offset: int,
    size: int,
    comp_size: int,
) -> Result<Seq<u8>, PatchError> {
    let end = offset + clip_len(size, comp_size);
    if end > u64::MAX {
        Err(PatchError::Malformed)
    } else if offset > i64::MAX {
        Err(PatchError::InvalidSeek)
    } else if held_plain(comp_mode, comp_size) {
        Ok(bytes_between(patch, offset, end))
    } else if comp_mode == CompressionMode::Zstd {
        Ok(zstd_decoded(bytes_between(patch, offset, end)))
    } else {
        Err(PatchError::UnsupportedCompression)
    }
}

/// A part of a patch as a stream of its own, and how many bytes of the patch it
/// takes up. Only `zstd` is known here of the ways to compress it.
pub fn get_clip_stream<'a>(
    patch: &'a [u8],
    comp_mode: CompressionMode,
    offset: u64,
    size: u64,
    comp_size: u64,
) -> (r: Result<(ClipStream<'a>, u64), PatchError>)
    ensures
        ({
            let want = clip_of(patch@, comp_mode, offset as int, size as int, comp_size as int);
            let plain = held_plain(comp_mode, comp_size as int);
            match r {
                Ok((clip, len)) => {
                    &&& want == Ok::<Seq<u8>, PatchError>(clip.rest())
                    &&& clip.fallible() == !plain
                    &&& clip matches ClipStream::Zstd(stream) ==> zstd_window_log_max(
                        stream.decoder,
                    ) == spec_window_log()
                    &&& len == clip_len(size as int, comp_size as int)
                },
                Err(e) => {
                    ||| want == Err::<Seq<u8>, PatchError>(e)
                    ||| e == PatchError::Decoder && !plain && want is Ok
                },
            }
        }),
{
    let len = if comp_size > 0 {
        comp_size
    } else {
        size
    };
    let end: u64 = match offset.checked_add(len) {
        Some(end) => end,
        None => return Err(PatchError::Malformed),
    };
    let chunk = ChunkStream::new(ByteStream::new(patch), offset, end)?;
    if comp_size == 0 || comp_mode == CompressionMode::Nocomp {
        return Ok((ClipStream::Plain(chunk), len));
    }
    if comp_mode == CompressionMode::Zstd {
        let stream = ZstdStream::new(slice_between(patch, offset, end))?;
        return Ok((ClipStream::Zstd(stream), len));
    }
    Err(PatchError::UnsupportedCompression)
}

} // verus!
