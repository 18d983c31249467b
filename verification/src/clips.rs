//! Where the four streams of a patch stand in it.
use crate::compression_utils::{clip_len, clip_of, get_clip_stream, held_plain, ClipStream};
use crate::error::PatchError;
use crate::parser::ByteSource;
use crate::patch_core::{Clips, ClipsModel};
use crate::streams::bytes_between;
use crate::structs::{CompressionMode, DiffChunkInfo, HeaderInfo};
use crate::varint::{as_unsigned, to_unsigned};
use vstd::prelude::*;

verus! {

/// How many bytes stand before each compressed part, for a way to compress it.
pub open spec fn padding_of(comp_mode: CompressionMode) -> int {
    if comp_mode == CompressionMode::Zlib {
        1
    } else {
        0
    }
}

/// How many bytes stand before each compressed part, for a way to compress it.
pub fn padding_for(comp_mode: CompressionMode) -> (r: u64)
    ensures
        r == padding_of(comp_mode),
{
    match comp_mode {
        CompressionMode::Zlib => 1,
        _ => 0,
    }
}

/// Where a part starts that stands at `offset`: behind the padding, where it is
/// compressed.
pub open spec fn padded(offset: int, comp_size: i64, padding: int) -> int {
    if comp_size > 0 {
        offset + padding
    } else {
        offset
    }
}

/// A size less the padding, and nothing where it is less than that.
pub open spec fn less_padding(comp_size: i64, padding: int) -> int {
    if as_unsigned(comp_size) >= padding {
        as_unsigned(comp_size) - padding
    } else {
        0
    }
}

/// The bytes of a part that stands at `offset`.
pub open spec fn part_of(
    patch: Seq<u8>,
    comp_mode: CompressionMode,
    offset: int,
    size: i64,
    comp_size: i64,
    padding: int,
) -> Result<Seq<u8>, PatchError> {
    clip_of(
        patch,
        comp_mode,
        padded(offset, comp_size, padding),
        as_unsigned(size) as int,
        as_unsigned(comp_size) as int,
    )
}

/// Where the part ends that stands at `offset`, with no regard to padding.
pub open spec fn part_end(offset: int, size: i64, comp_size: i64) -> int {
    offset + clip_len(as_unsigned(size) as int, as_unsigned(comp_size) as int)
}

/// The size of one of the four parts of a patch: the covers, the control and the
/// code stream of the differences, or the new bytes.
pub open spec fn part_size(info: DiffChunkInfo, k: int) -> i64 {
    if k == 0 {
        info.cover_buf_size
    } else if k == 1 {
        info.rle_ctrl_buf_size
    } else if k == 2 {
        info.rle_code_buf_size
    } else {
        info.new_data_diff_size
    }
}

/// The compressed size of one of the four parts, as the header gives it.
pub open spec fn part_comp_size(info: DiffChunkInfo, k: int) -> i64 {
    if k == 0 {
        info.compress_cover_buf_size
    } else if k == 1 {
        info.compress_rle_ctrl_buf_size
    } else if k == 2 {
        info.compress_rle_code_buf_size
    } else {
        info.compress_new_data_diff_size
    }
}

/// Where one of the four parts stands. They stand one behind the other from the end
/// of the header on.
pub open spec fn part_start(info: DiffChunkInfo, k: int) -> int
    decreases k,
{
    if k <= 0 {
        as_unsigned(info.head_end_pos) as int
    } else {
        part_end(part_start(info, k - 1), part_size(info, k - 1), part_comp_size(info, k - 1))
    }
}

/// How many bytes one of the four parts takes up compressed. The padding counts for
/// the last of them.
pub open spec fn part_comp_len(info: DiffChunkInfo, padding: int, k: int) -> int {
    if k == 3 {
        less_padding(part_comp_size(info, k), padding)
    } else {
        as_unsigned(part_comp_size(info, k)) as int
    }
}

/// The bytes of one of the four parts.
pub open spec fn part_at(
    patch: Seq<u8>,
    comp_mode: CompressionMode,
    info: DiffChunkInfo,
    padding: int,
    k: int,
) -> Result<Seq<u8>, PatchError> {
    clip_of(
        patch,
        comp_mode,
        padded(part_start(info, k), part_comp_size(info, k), padding),
        as_unsigned(part_size(info, k)) as int,
        part_comp_len(info, padding, k),
    )
}

/// The bytes of the four streams of a patch.
pub open spec fn clips_of(
    patch: Seq<u8>,
    comp_mode: CompressionMode,
    info: DiffChunkInfo,
    padding: int,
) -> Result<ClipsModel, PatchError> {
    match part_at(patch, comp_mode, info, padding, 0) {
        Err(e) => Err(e),
        Ok(cover) => match part_at(patch, comp_mode, info, padding, 1) {
            Err(e) => Err(e),
            Ok(rle_ctrl) => match part_at(patch, comp_mode, info, padding, 2) {
                Err(e) => Err(e),
                Ok(rle_code) => match part_at(patch, comp_mode, info, padding, 3) {
                    Err(e) => Err(e),
                    Ok(new_data_diff) => Ok(
                        ClipsModel { cover, rle_ctrl, rle_code, new_data_diff },
                    ),
                },
            },
        },
    }
}

/// Whether one of the four parts is compressed, in a way that can be decompressed,
/// and stands where it can be read.
pub open spec fn part_decodes(
    patch: Seq<u8>,
    comp_mode: CompressionMode,
    info: DiffChunkInfo,
    padding: int,
    k: int,
) -> bool {
    &&& part_at(patch, comp_mode, info, padding, k) is Ok
    &&& !held_plain(comp_mode, part_comp_len(info, padding, k))
}

/// Whether a part of a patch is given to a decoder: it is compressed, and neither it
/// nor a part before it is refused.
pub open spec fn decoder_used(
    patch: Seq<u8>,
    comp_mode: CompressionMode,
    info: DiffChunkInfo,
    padding: int,
) -> bool {
    ||| part_decodes(patch, comp_mode, info, padding, 0)
    ||| part_at(patch, comp_mode, info, padding, 0) is Ok && {
        ||| part_decodes(patch, comp_mode, info, padding, 1)
        ||| part_at(patch, comp_mode, info, padding, 1) is Ok && {
            ||| part_decodes(patch, comp_mode, info, padding, 2)
            ||| part_at(patch, comp_mode, info, padding, 2) is Ok && part_decodes(
                patch,
                comp_mode,
                info,
                padding,
                3,
            )
        }
    }
}

/// Opens the part that stands at `offset`, and finds where the next one does.
fn open_part<'a>(
    patch: &'a [u8],
    comp_mode: CompressionMode,
    offset: u64,
    size: i64,
    comp_size: i64,
    padding: u64,
) -> (r: Result<(ClipStream<'a>, u64), PatchError>)
    ensures
        ({
            let want = part_of(
                patch@,
                comp_mode,
                offset as int,
                size,
                comp_size,
                padding as int,
            );
            let plain = held_plain(comp_mode, as_unsigned(comp_size) as int);
            match r {
                Ok((clip, next)) => {
                    &&& want == Ok::<Seq<u8>, PatchError>(clip.rest())
                    &&& clip.fallible() == !plain
                    &&& next == part_end(offset as int, size, comp_size)
                },
                Err(e) => {
                    ||| want == Err::<Seq<u8>, PatchError>(e)
                    ||| e == PatchError::Decoder && !plain && want is Ok
                },
            }
        }),
{
    let pad: u64 = if comp_size > 0 {
        padding
    } else {
        0
    };
    let start: u64 = match offset.checked_add(pad) {
        Some(start) => start,
        None => return Err(PatchError::Malformed),
    };
    let (clip, len) = get_clip_stream(
        patch,
        comp_mode,
        start,
        to_unsigned(size),
        to_unsigned(comp_size),
    )?;
    Ok((clip, offset + len))
}

/// Opens the four streams of a patch.
pub fn open_clips<'a>(patch: &'a [u8], header_info: &HeaderInfo, padding: u64) -> (r: Result<
    Clips<ClipStream<'a>>,
    PatchError,
>)
    ensures
        ({
            let want = clips_of(
                patch@,
                header_info.comp_mode,
                header_info.chunk_info,
                padding as int,
            );
            let decoding = decoder_used(
                patch@,
                header_info.comp_mode,
                header_info.chunk_info,
                padding as int,
            );
            match r {
                Ok(clips) => {
                    &&& want == Ok::<ClipsModel, PatchError>(clips.model())
                    &&& clips.fallible() == decoding
                },
                Err(e) => {
                    ||| want == Err::<ClipsModel, PatchError>(e)
                    ||| e == PatchError::Decoder && decoding
                },
            }
        }),
{
    let info = header_info.chunk_info;
    let comp_mode = header_info.comp_mode;
    proof {
        reveal_with_fuel(part_start, 4);
    }
    let offset: u64 = to_unsigned(info.head_end_pos);
    let (cover, offset) = open_part(
        patch,
        comp_mode,
        offset,
        info.cover_buf_size,
        info.compress_cover_buf_size,
        padding,
    )?;
    let (rle_ctrl, offset) = open_part(
        patch,
        comp_mode,
        offset,
        info.rle_ctrl_buf_size,
        info.compress_rle_ctrl_buf_size,
        padding,
    )?;
    let (rle_code, offset) = open_part(
        patch,
        comp_mode,
        offset,
        info.rle_code_buf_size,
        info.compress_rle_code_buf_size,
        padding,
    )?;
    let pad: u64 = if info.compress_new_data_diff_size > 0 {
        padding
    } else {
        0
    };
    let start: u64 = match offset.checked_add(pad) {
        Some(start) => start,
        None => return Err(PatchError::Malformed),
    };
    let (new_data_diff, _) = get_clip_stream(
        patch,
        comp_mode,
        start,
        to_unsigned(info.new_data_diff_size),
        to_unsigned(info.compress_new_data_diff_size).saturating_sub(padding),
    )?;
    Ok(Clips { cover, rle_ctrl, rle_code, new_data_diff })
}

/// Whether `at` is the padding before one of the four parts: the byte where a
/// compressed part stands.
pub open spec fn is_padding(info: DiffChunkInfo, at: int) -> bool {
    ||| part_comp_size(info, 0) > 0 && at == part_start(info, 0)
    ||| part_comp_size(info, 1) > 0 && at == part_start(info, 1)
    ||| part_comp_size(info, 2) > 0 && at == part_start(info, 2)
    ||| part_comp_size(info, 3) > 0 && at == part_start(info, 3)
}

/// A compressed part is taken from behind its padding: the byte where it stands is
/// not looked at. A part that is not compressed, and every part where there is no
/// padding, is taken from where it stands.
pub proof fn law_part_behind_padding(
    one: Seq<u8>,
    other: Seq<u8>,
    comp_mode: CompressionMode,
    offset: int,
    size: i64,
    comp_size: i64,
)
    requires
        one.len() == other.len(),
        forall|i: int| 0 <= i < one.len() && i != offset ==> one[i] == other[i],
        comp_size > 0,
    ensures
        part_of(one, comp_mode, offset, size, comp_size, 1) == part_of(
            other,
            comp_mode,
            offset,
            size,
            comp_size,
            1,
        ),
        part_of(one, comp_mode, offset, size, comp_size, 0) == clip_of(
            one,
            comp_mode,
            offset,
            as_unsigned(size) as int,
            as_unsigned(comp_size) as int,
        ),
        part_of(one, comp_mode, offset, size, 0, 1) == clip_of(
            one,
            comp_mode,
            offset,
            as_unsigned(size) as int,
            0,
        ),
{
    if offset >= 0 {
        let end = offset + 1 + comp_size;
        assert(bytes_between(one, offset + 1, end) =~= bytes_between(other, offset + 1, end));
    } else {
        assert(one =~= other);
    }
}

proof fn lemma_part_beside_padding(
    one: Seq<u8>,
    other: Seq<u8>,
    info: DiffChunkInfo,
    k: int,
)
    requires
        0 <= k <= 3,
        one.len() == other.len(),
        forall|i: int| 0 <= i < one.len() && !is_padding(info, i) ==> one[i] == other[i],
        forall|j: int|
            0 <= j < k ==> (#[trigger] part_at(one, CompressionMode::Zlib, info, 1, j)) is Ok,
    ensures
        part_at(one, CompressionMode::Zlib, info, 1, k) == part_at(
            other,
            CompressionMode::Zlib,
            info,
            1,
            k,
        ),
{
    reveal_with_fuel(part_start, 4);
    let mode = CompressionMode::Zlib;
    assert(k > 0 ==> part_at(one, mode, info, 1, 0) is Ok);
    assert(k > 1 ==> part_at(one, mode, info, 1, 1) is Ok);
    assert(k > 2 ==> part_at(one, mode, info, 1, 2) is Ok);
    if held_plain(mode, part_comp_len(info, 1, k)) {
        let start = padded(part_start(info, k), part_comp_size(info, k), 1);
        let end = start + clip_len(
            as_unsigned(part_size(info, k)) as int,
            part_comp_len(info, 1, k),
        );
        assert forall|i: int| start <= i < end implies !is_padding(info, i) by {}
        assert(bytes_between(one, start, end) =~= bytes_between(other, start, end));
    }
}

/// Two patches in zlib mode that differ only in the padding before their compressed
/// parts stand for the same streams, or are refused for the same reason.
pub proof fn law_zlib_padding(one: Seq<u8>, other: Seq<u8>, info: DiffChunkInfo)
    requires
        one.len() == other.len(),
        forall|i: int| 0 <= i < one.len() && !is_padding(info, i) ==> one[i] == other[i],
    ensures
        clips_of(one, CompressionMode::Zlib, info, padding_of(CompressionMode::Zlib)) == clips_of(
            other,
            CompressionMode::Zlib,
            info,
            padding_of(CompressionMode::Zlib),
        ),
{
    let mode = CompressionMode::Zlib;
    lemma_part_beside_padding(one, other, info, 0);
    if part_at(one, mode, info, 1, 0) is Ok {
        lemma_part_beside_padding(one, other, info, 1);
        if part_at(one, mode, info, 1, 1) is Ok {
            lemma_part_beside_padding(one, other, info, 2);
            if part_at(one, mode, info, 1, 2) is Ok {
                lemma_part_beside_padding(one, other, info, 3);
            }
        }
    }
}

} // verus!
