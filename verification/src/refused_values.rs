//! The laws on values at the ends of their ranges: which are refused, and which are not.
use crate::compression_utils::clip_of;
use crate::error::PatchError;
use crate::header::places_of;
use crate::kr_format::{skipped, KrCover};
use crate::parser::{indices_of, pair_of, stream_buffer_size};
use crate::patch_core::{cover_headers, covers_of};
use crate::patch_krdir::{cover_place, round_place};
use crate::patch_sf::piece_of;
use crate::rle::{added_at, next_run};
use crate::rle0::{adds, zero_differences, Rle0Decoder, Rle0Model};
use crate::structs::{CompressionMode, DataReferenceInfo, PairIndexReference};
use crate::written::{
    is_tag, law_signed_number_read_back, law_tagged_number_read_back, number, room, tagged_number,
    unsigned,
};
use crate::written_header::bytes_taken;
use crate::written_lists::{are_indices, indices_written, law_indices_read_back};
use crate::written_patch::in_range;
use crate::written_runs::{
    law_length_read_back, law_stretches_read_back, none_open, stretches_bytes, stretches_written,
    Stretch,
};
use vstd::prelude::*;

verus! {

/// A control number gives the length of its run less one. The length is none where it leaves
/// the range of an `i64` or is negative; the greatest number of all stands for an empty run. A
/// run of one value takes a byte of code, and is none where there is no such byte.
pub proof fn law_run_length(kind: int, v: int, value: u8, ctrl: Seq<u8>, code: Seq<u8>)
    requires
        0 <= kind <= 3,
        0 <= v <= u64::MAX,
    ensures
        ({
            let opened = next_run(none_open(value, tagged_number(2, kind, v) + ctrl, code));
            if i64::MAX <= v < u64::MAX || kind == 2 && code.len() == 0 {
                opened is None
            } else {
                opened matches Some(st) && {
                    let length = if v == u64::MAX {
                        0
                    } else {
                        v + 1
                    };
                    &&& st.ctrl == ctrl
                    &&& kind == 3 ==> st.copy_len == length && st.set_len == 0 && st.code == code
                    &&& kind < 3 ==> st.set_len == length && st.copy_len == 0
                    &&& kind == 0 ==> st.set_val == 0 && st.code == code
                    &&& kind == 1 ==> st.set_val == 255 && st.code == code
                    &&& kind == 2 ==> st.set_val == code[0] && st.code == code.skip(1)
                }
            }
        }),
{
    reveal_with_fuel(room, 4);
    assert(is_tag(2, kind));
    assert(room(2) == 32);
    law_tagged_number_read_back(2, kind, v, ctrl);
    let s = tagged_number(2, kind, v) + ctrl;
    assert(s[0] as int / (2 * room(2)) == kind);
    assert(s[0] as int / 64 == kind);
}

/// With no control bytes left no run can be opened.
pub proof fn law_no_run_left(value: u8, code: Seq<u8>)
    ensures
        next_run(none_open(value, Seq::empty(), code)) is None,
{
}

/// Zeros and bytes in turn give no more than they hold: where a run of bytes is longer than
/// the buffer there are no differences behind its end, and none where the buffer is empty.
pub proof fn law_bytes_missing(zeros: u64, length: u64, bytes: Seq<u8>)
    requires
        bytes.len() < length,
    ensures
        zero_differences(
            Rle0Model {
                len0: 0,
                lenv: 0,
                need_decode0: true,
                rest: number(zeros as int) + (number(length as int) + bytes),
            },
            zeros + length,
        ) is None,
        zero_differences(
            Rle0Model { len0: 0, lenv: 0, need_decode0: true, rest: Seq::empty() },
            1,
        ) is None,
{
    let behind = number(length as int) + bytes;
    law_length_read_back(zeros, behind);
    law_length_read_back(length, bytes);
    let n = zeros + length;
    let st1 = Rle0Model { len0: zeros as int, lenv: 0, need_decode0: false, rest: behind };
    let st2 = Rle0Model { len0: 0, ..st1 };
    let st3 = Rle0Model { len0: 0, lenv: length as int, need_decode0: true, rest: bytes };
    assert(zero_differences(st3, length as int) is None);
    assert(zero_differences(st2, length as int) is None);
    assert(zero_differences(st1, n) is None);
}

/// Bytes are added to those from a place on, each sum without its carry, and all others stay.
pub proof fn law_added(cache: Seq<u8>, pos: int, bytes: Seq<u8>, i: int)
    requires
        0 <= pos,
        pos + bytes.len() <= cache.len(),
        0 <= i < cache.len(),
    ensures
        added_at(cache, pos, bytes).len() == cache.len(),
        i < pos || pos + bytes.len() <= i ==> added_at(cache, pos, bytes)[i] == cache[i],
        pos <= i < pos + bytes.len() ==> {
            let sum = cache[i] + bytes[i - pos];
            added_at(cache, pos, bytes)[i] == if sum < 256 {
                sum
            } else {
                sum - 256
            }
        },
{
}

/// A reader at the start of its buffer adds the bytes that the buffer was written for to those
/// from a place on.
pub proof fn law_stretches_added(
    before: Rle0Decoder,
    after: Rle0Decoder,
    data: Seq<u8>,
    from: int,
    made: Seq<u8>,
    stretches: Seq<Stretch>,
    rest: Seq<u8>,
    i: int,
)
    requires
        before.model() == (Rle0Model {
            len0: 0,
            lenv: 0,
            need_decode0: true,
            rest: stretches_written(stretches) + rest,
        }),
        forall|j: int|
            0 <= j < stretches.len() ==> (#[trigger] stretches[j]).bytes.len() <= u64::MAX,
        0 <= from,
        from + stretches_bytes(stretches).len() == data.len(),
        adds(before, after, data, from, made),
        0 <= i < data.len(),
    ensures
        made.len() == data.len(),
        i < from ==> made[i] == data[i],
        from <= i ==> made[i] == (data[i] + stretches_bytes(stretches)[i - from]) % 256,
{
    law_stretches_read_back(stretches, rest);
}

/// An index that no `i64` holds is refused.
pub proof fn law_index_beyond(list: Seq<i64>, distance: i64, max: Option<i64>, rest: Seq<u8>)
    requires
        are_indices(list, max),
        list.len() > 0,
        list[list.len() - 1] + 1 + distance > i64::MAX,
    ensures
        indices_of(
            indices_written(list) + (number(distance as int) + rest),
            list.len() as int + 1,
            max,
        ) == Err::<(Seq<i64>, Seq<u8>), PatchError>(PatchError::Malformed),
{
    law_indices_read_back(list, max, number(distance as int) + rest);
    assert(0 <= list[list.len() - 1]);
    law_signed_number_read_back(0, distance, rest);
}

/// A pair with an index that no `i64` holds is refused.
pub proof fn law_pair_beyond(
    at: int,
    back_new: i64,
    back_old: i64,
    inc_new: i64,
    inc_old: i64,
    is_before: bool,
    max_new: i64,
    max_old: i64,
    rest: Seq<u8>,
)
    requires
        ({
            let new_index = back_new + 1 + inc_new;
            ||| !in_range(new_index)
            ||| new_index <= max_new && is_before && !in_range(back_old + 1 - inc_old)
            ||| new_index <= max_new && !is_before && !in_range(back_old + 1 + inc_old)
        }),
    ensures
        pair_of(
            number(unsigned(inc_new as int)) + (tagged_number(
                1,
                if is_before {
                    1
                } else {
                    0
                },
                unsigned(inc_old as int),
            ) + rest),
            at,
            back_new as int,
            back_old as int,
            max_new,
            max_old,
        ) == Err::<(PairIndexReference, Seq<u8>), PatchError>(PatchError::Malformed),
{
    let tag = if is_before {
        1int
    } else {
        0int
    };
    law_signed_number_read_back(tag, inc_new, tagged_number(1, tag, unsigned(inc_old as int)) + rest);
    law_signed_number_read_back(tag, inc_old, rest);
}

/// A cover stream is refused where its size or its count is negative, and where it is shorter
/// than a size of less than 7 MiB says.
pub proof fn law_cover_stream_refused(rest: Seq<u8>, cover_size: int, cover_count: int)
    requires
        cover_count < 0 || cover_size < 0 || rest.len() < cover_size < 7340032,
    ensures
        cover_headers(rest, cover_size, cover_count) is None,
{
}

/// The covers of a stream of less than 7 MiB are read from the bytes that its size gives it,
/// and from no others.
pub proof fn law_cover_stream_bounded(
    stream: Seq<u8>,
    rest: Seq<u8>,
    other: Seq<u8>,
    cover_count: int,
)
    requires
        stream.len() < 7340032,
    ensures
        cover_headers(stream + rest, stream.len() as int, cover_count) == cover_headers(
            stream + other,
            stream.len() as int,
            cover_count,
        ),
        cover_count >= 0 ==> (cover_headers(
            stream + rest,
            stream.len() as int,
            cover_count,
        ) is Some <==> covers_of(stream, cover_count, cover_count) is Some),
{
    assert((stream + rest).take(stream.len() as int) =~= stream);
    assert((stream + other).take(stream.len() as int) =~= stream);
}

/// A part of a patch is refused where it ends beyond all numbers, and where it starts beyond
/// all places of a file.
pub proof fn law_part_refused(
    patch: Seq<u8>,
    mode: CompressionMode,
    offset: int,
    size: int,
    comp_size: int,
)
    requires
        0 <= size,
        0 <= comp_size,
    ensures
        ({
            let taken = if comp_size > 0 {
                comp_size
            } else {
                size
            };
            let found = clip_of(patch, mode, offset, size, comp_size);
            &&& offset + taken > u64::MAX ==> found == Err::<Seq<u8>, PatchError>(
                PatchError::Malformed,
            )
            &&& offset + taken <= u64::MAX && offset > i64::MAX ==> found == Err::<
                Seq<u8>,
                PatchError,
            >(PatchError::InvalidSeek)
        }),
{
}

/// The parts of a directory patch are refused where one of their places, or what is left of the
/// patch behind them, leaves the range of an `i64`.
pub proof fn law_places_refused(info: DataReferenceInfo, pos: int, total: int)
    requires
        0 <= pos <= i64::MAX,
        0 <= total <= i64::MAX,
    ensures
        ({
            let one = pos + bytes_taken(info.head_data_size, info.head_data_compressed_size);
            let two = one + info.private_extern_data_size;
            let three = two + info.extern_data_size;
            let placed = places_of(info, pos, total);
            if in_range(one) && in_range(two) && in_range(three) && in_range(total - three) {
                placed matches Ok(found) && {
                    &&& found.head_data_offset == pos
                    &&& found.private_extern_data_offset == one
                    &&& found.extern_data_offset == two
                    &&& found.hdiff_data_offset == three
                    &&& found.hdiff_data_offset + found.hdiff_data_size == total
                }
            } else {
                placed == Err::<DataReferenceInfo, PatchError>(PatchError::Malformed)
            }
        }),
{
}

/// Passing over bytes leads to the place behind them, where a file can have one.
pub proof fn law_skipped(pos: int, n: u64)
    requires
        0 <= pos <= i64::MAX,
        n <= i64::MAX,
    ensures
        skipped(pos, n) == if pos + n <= i64::MAX {
            Ok::<int, PatchError>(pos + n)
        } else {
            Err(PatchError::InvalidSeek)
        },
{
}

/// The place of a KrDiff cover is as far from where the last one ended as the cover says. Places
/// go round at the ends of the range of an `i64`. Where the size of the old data is known, the
/// place is counted round that, and there is none where no `i64` holds the size.
pub proof fn law_kr_place(read_pos: i64, cover: KrCover, old_ref_size: u64)
    ensures
        ({
            let sum = read_pos + cover.old_pos_delta;
            let place = if in_range(sum) {
                sum
            } else if sum > 0 {
                sum - u64::MAX - 1
            } else {
                sum + u64::MAX + 1
            };
            if old_ref_size > i64::MAX {
                cover_place(read_pos, cover, old_ref_size) is None
            } else if old_ref_size == 0 || 0 <= place <= old_ref_size {
                cover_place(read_pos, cover, old_ref_size) == Some(place as i64)
            } else {
                cover_place(read_pos, cover, old_ref_size) == Some(
                    round_place(place as i64, old_ref_size as int),
                )
            }
        }),
{
}

/// As many bytes are copied at once as a header says, and some where it says none.
pub proof fn law_piece(step_mem_size: i64)
    ensures
        step_mem_size > 0 ==> piece_of(step_mem_size) == step_mem_size,
        step_mem_size <= 0 ==> piece_of(step_mem_size) == 65536,
{
}

/// A larger file has no smaller buffer. The buffer is of 4 KiB, 64 KiB, 128 KiB, 512 KiB or
/// 1 MiB, for files of up to 128 KiB, 1 MiB, 32 MiB and 100 MiB and for larger ones.
pub proof fn law_buffer_size(one: int, other: int)
    requires
        0 <= one <= other,
    ensures
        stream_buffer_size(one) <= stream_buffer_size(other),
        stream_buffer_size(one) == 4 * 1024 <==> one <= 128 * 1024,
        stream_buffer_size(one) == 64 * 1024 <==> 128 * 1024 < one <= 1024 * 1024,
        stream_buffer_size(one) == 128 * 1024 <==> 1024 * 1024 < one <= 32 * 1024 * 1024,
        stream_buffer_size(one) == 512 * 1024 <==> 32 * 1024 * 1024 < one <= 100 * 1024 * 1024,
        stream_buffer_size(one) == 1024 * 1024 <==> 100 * 1024 * 1024 < one,
{
}

} // verus!
