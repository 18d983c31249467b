//! Patches of one file that are compressed as a whole.
use crate::compression_utils::{clip_of, get_clip_stream, held_plain};
use crate::error::PatchError;
use crate::parser::{
    byte_of, bytes_of, lemma_long_7bit_shrinks, lemma_long_7bit_tagged_shrinks, lemma_longs_len,
    long_7bit_of, long_7bit_tagged_of, longs_of, read_byte, read_exact, read_long_7bit,
    read_long_7bit_tagged, ByteSource, ByteStream, CHUNK_LEN,
};
use crate::rle::{added_at, min};
use crate::rle0::{
    law_zero_differences_split, lemma_zero_differences_len, zero_differences, Rle0Decoder, Rle0Model,
};
use crate::streams::{range_of, SeekableRead};
use crate::structs::{CompressionMode, DiffSingleChunkInfo, HeaderInfo};
use crate::varint::{as_unsigned, to_unsigned};
use vstd::prelude::*;
use vstd::slice::slice_subrange;

verus! {

/// The `u64` that the sum or the difference of two of them wraps round to.
pub open spec fn wrapped(v: int) -> u64 {
    if v < 0 {
        (v + 0x1_0000_0000_0000_0000) as u64
    } else if v > u64::MAX {
        (v - 0x1_0000_0000_0000_0000) as u64
    } else {
        v as u64
    }
}

/// A stretch of old data that the new data takes over.
#[derive(Debug, Clone, Copy, PartialEq, Eq, Structural)]
pub struct SfCover {
    pub old_pos: u64,
    pub new_pos: u64,
    pub length: u64,
}

/// The cover at the front of `rest`, behind one that ends at `old_end` in the old
/// data and at `new_end` in the new. Places wrap round.
pub open spec fn sf_cover_of(rest: Seq<u8>, old_end: u64, new_end: u64) -> Result<
    (SfCover, Seq<u8>),
    PatchError,
> {
    match byte_of(rest) {
        Err(e) => Err(e),
        Ok((first, left)) => match long_7bit_tagged_of(1, first, left) {
            Err(e) => Err(e),
            Ok((delta, left)) => match long_7bit_of(left) {
                Err(e) => Err(e),
                Ok((gap, left)) => match long_7bit_of(left) {
                    Err(e) => Err(e),
                    Ok((length, left)) => Ok(
                        (
                            SfCover {
                                old_pos: if first < 128 {
                                    wrapped(old_end + as_unsigned(delta))
                                } else {
                                    wrapped(old_end - as_unsigned(delta))
                                },
                                new_pos: wrapped(new_end + as_unsigned(gap)),
                                length: as_unsigned(length),
                            },
                            left,
                        ),
                    ),
                },
            },
        },
    }
}

/// Where a single-compressed patch stands: where the last cover ends in the old
/// data and in the new, how many covers are still to come, what is left of the
/// patch, and the new data so far.
pub struct SfModel {
    pub old_end: u64,
    pub new_end: u64,
    pub count: int,
    pub diff: Seq<u8>,
    pub out: Seq<u8>,
}

/// The old data that a patch is applied to: its bytes, the last place that it
/// can be moved to, what a move behind it is refused with, and how many bytes are
/// copied at once.
pub struct OldModel {
    pub contents: Seq<u8>,
    pub last_position: int,
    pub refusal: PatchError,
    pub piece: int,
}

/// Where a patch cannot go on: the reason, and the new data so far.
pub struct SfStop {
    pub error: PatchError,
    pub out: Seq<u8>,
}

/// How many of `n` bytes stand in whole pieces.
pub open spec fn whole_pieces(n: int, piece: int) -> int {
    n / piece * piece
}

/// The new data with the bytes of the gap before a cover behind it. Where the patch
/// ends before, the whole pieces that it still holds stand there.
pub open spec fn gap_filled(st: SfModel, old: OldModel, cover: SfCover) -> Result<SfModel, SfStop> {
    if cover.new_pos > st.new_end {
        match bytes_of(st.diff, cover.new_pos - st.new_end) {
            Err(error) => Err(
                SfStop {
                    error,
                    out: st.out + st.diff.take(whole_pieces(st.diff.len() as int, old.piece)),
                },
            ),
            Ok((bytes, left)) => Ok(SfModel { diff: left, out: st.out + bytes, ..st }),
        }
    } else {
        Ok(st)
    }
}

/// The `n` bytes of the old data from `pos` on, piece by piece, with the differences
/// added, and where the differences stand then. Beside the pieces before one that
/// cannot be had stands the reason why.
pub open spec fn cover_pieces(old: OldModel, pos: int, n: int, rle: Rle0Model) -> (
    Seq<u8>,
    Result<Rle0Model, PatchError>,
)
    decreases n,
{
    if n <= 0 || old.piece <= 0 {
        (Seq::empty(), Ok(rle))
    } else {
        let k = min(n, old.piece);
        match range_of(old.contents, old.last_position, old.refusal, pos, k) {
            Err(e) => (Seq::empty(), Err(e)),
            Ok(bytes) => match zero_differences(rle, k) {
                None => (Seq::empty(), Err(PatchError::Malformed)),
                Some((diffs, rle)) => {
                    let (more, end) = cover_pieces(old, pos + k, n - k, rle);
                    (added_at(bytes, 0, diffs) + more, end)
                },
            },
        }
    }
}

/// It makes no difference of what size the pieces are: they are all there just where
/// the bytes and the differences are, and are then these bytes with the differences
/// added.
pub proof fn law_cover_pieces(old: OldModel, pos: int, n: int, rle: Rle0Model)
    requires
        old.piece > 0,
        old.contents.len() <= old.last_position,
        0 <= pos,
        0 < n,
        rle.valid(),
    ensures
        ({
            let (made, end) = cover_pieces(old, pos, n, rle);
            let range = range_of(old.contents, old.last_position, old.refusal, pos, n);
            let differing = zero_differences(rle, n);
            &&& end is Ok <==> range is Ok && differing is Some
            &&& end is Ok ==> {
                &&& made == added_at(range->Ok_0, 0, (differing->0).0)
                &&& end == Ok::<Rle0Model, PatchError>((differing->0).1)
            }
        }),
    decreases n,
{
    let k = min(n, old.piece);
    law_zero_differences_split(rle, k, n - k);
    lemma_zero_differences_len(rle, k);
    if let Ok(bytes) = range_of(old.contents, old.last_position, old.refusal, pos, k) {
        if let Some((diffs, rle1)) = zero_differences(rle, k) {
            let range = range_of(old.contents, old.last_position, old.refusal, pos, n);
            if n > k {
                law_cover_pieces(old, pos + k, n - k, rle1);
                lemma_zero_differences_len(rle1, n - k);
                if range is Ok && zero_differences(rle, n) is Some {
                    let rest = range_of(
                        old.contents,
                        old.last_position,
                        old.refusal,
                        pos + k,
                        n - k,
                    )->Ok_0;
                    let more = (zero_differences(rle1, n - k)->0).0;
                    assert(range->Ok_0 =~= bytes + rest);
                    assert(added_at(bytes + rest, 0, diffs + more) =~= added_at(bytes, 0, diffs)
                        + added_at(rest, 0, more));
                }
            } else {
                assert(cover_pieces(old, pos + k, 0, rle1) == (
                    Seq::<u8>::empty(),
                    Ok::<Rle0Model, PatchError>(rle1),
                ));
                assert(added_at(bytes, 0, diffs) + Seq::<u8>::empty() =~= added_at(
                    bytes,
                    0,
                    diffs,
                ));
            }
        }
    }
}

/// The new data with a cover behind it, and the bytes of the gap before.
pub open spec fn cover_applied(st: SfModel, old: OldModel, cover: SfCover, rle: Rle0Model) -> Result<
    (SfModel, Rle0Model),
    SfStop,
> {
    match gap_filled(st, old, cover) {
        Err(stop) => Err(stop),
        Ok(st1) => {
            let (bytes, end) = cover_pieces(old, cover.old_pos as int, cover.length as int, rle);
            match end {
                Err(error) => Err(SfStop { error, out: st1.out + bytes }),
                Ok(rle) => Ok(
                    (
                        SfModel {
                            old_end: wrapped(cover.old_pos + cover.length),
                            new_end: wrapped(cover.new_pos + cover.length),
                            count: st.count - 1,
                            out: st1.out + bytes,
                            ..st1
                        },
                        rle,
                    ),
                ),
            }
        },
    }
}

proof fn lemma_cover_pieces_len(old: OldModel, pos: int, n: int, rle: Rle0Model)
    requires
        old.piece > 0,
        pos >= 0,
        n >= 0,
    ensures
        cover_pieces(old, pos, n, rle).1 is Ok ==> cover_pieces(old, pos, n, rle).0.len() == n,
    decreases n,
{
    if n > 0 {
        let k = min(n, old.piece);
        if let Some((_, rle1)) = zero_differences(rle, k) {
            lemma_cover_pieces_len(old, pos + k, n - k, rle1);
        }
    }
}

/// A cover that starts where the last one ends in the new data, or later, and
/// ends in its range leaves the new data just as long as the cover's end says.
pub proof fn law_cover_ends_new_data(st: SfModel, old: OldModel, cover: SfCover, rle: Rle0Model)
    requires
        old.piece > 0,
        st.out.len() == st.new_end,
        st.new_end <= cover.new_pos,
        cover.new_pos + cover.length <= u64::MAX,
    ensures
        cover_applied(st, old, cover, rle) matches Ok((st1, _)) ==> st1.out.len() == st1.new_end,
{
    lemma_cover_pieces_len(old, cover.old_pos as int, cover.length as int, rle);
}

/// A cover takes at least one byte.
pub proof fn lemma_sf_cover_shrinks(rest: Seq<u8>, old_end: u64, new_end: u64)
    ensures
        sf_cover_of(rest, old_end, new_end) matches Ok((_, left)) ==> left.len() < rest.len(),
{
    if let Ok((first, left)) = byte_of(rest) {
        lemma_long_7bit_tagged_shrinks(1, first, left);
        if let Ok((_, left)) = long_7bit_tagged_of(1, first, left) {
            lemma_long_7bit_shrinks(left);
            if let Ok((_, left)) = long_7bit_of(left) {
                lemma_long_7bit_shrinks(left);
            }
        }
    }
}

/// The patch with the covers of a step applied, as far as covers are to come.
pub open spec fn covers_applied(st: SfModel, old: OldModel, covers: Seq<u8>, rle: Rle0Model) -> Result<
    SfModel,
    SfStop,
>
    decreases covers.len(),
{
    if covers.len() == 0 || st.count <= 0 {
        Ok(st)
    } else {
        match sf_cover_of(covers, st.old_end, st.new_end) {
            Err(error) => Err(SfStop { error, out: st.out }),
            Ok((cover, left)) => {
                proof {
                    lemma_sf_cover_shrinks(covers, st.old_end, st.new_end);
                }
                match cover_applied(st, old, cover, rle) {
                    Err(stop) => Err(stop),
                    Ok((st1, rle1)) => covers_applied(st1, old, left, rle1),
                }
            },
        }
    }
}

/// One step of a patch: the sizes of its covers and of its differences, both of
/// these, and then the bytes for the gaps.
pub open spec fn step_applied(st: SfModel, old: OldModel) -> Result<SfModel, SfStop> {
    match longs_of(st.diff, 2) {
        Err(error) => Err(SfStop { error, out: st.out }),
        Ok((n, left)) => {
            let cover_size = as_unsigned(n[0]);
            let step_end = cover_size + as_unsigned(n[1]);
            if step_end > u64::MAX {
                Err(SfStop { error: PatchError::Malformed, out: st.out })
            } else {
                match bytes_of(left, step_end) {
                    Err(error) => Err(SfStop { error, out: st.out }),
                    Ok((step, left)) => covers_applied(
                        SfModel { diff: left, ..st },
                        old,
                        step.take(cover_size as int),
                        Rle0Model::fresh(step.skip(cover_size as int)),
                    ),
                }
            }
        },
    }
}

proof fn lemma_covers_shrink(st: SfModel, old: OldModel, covers: Seq<u8>, rle: Rle0Model)
    ensures
        covers_applied(st, old, covers, rle) matches Ok(st1) ==> st1.diff.len() <= st.diff.len(),
    decreases covers.len(),
{
    if covers.len() > 0 && st.count > 0 {
        if let Ok((cover, left)) = sf_cover_of(covers, st.old_end, st.new_end) {
            lemma_sf_cover_shrinks(covers, st.old_end, st.new_end);
            if let Ok((st1, rle1)) = cover_applied(st, old, cover, rle) {
                lemma_covers_shrink(st1, old, left, rle1);
            }
        }
    }
}

/// A step leaves less of the patch.
pub proof fn lemma_step_shrinks(st: SfModel, old: OldModel)
    ensures
        step_applied(st, old) matches Ok(st1) ==> st1.diff.len() < st.diff.len(),
{
    lemma_longs_len(st.diff, 2);
    if let Ok((n, left)) = longs_of(st.diff, 2) {
        let cover_size = as_unsigned(n[0]);
        let step_end = cover_size + as_unsigned(n[1]);
        if step_end <= u64::MAX {
            if let Ok((step, left)) = bytes_of(left, step_end) {
                lemma_covers_shrink(
                    SfModel { diff: left, ..st },
                    old,
                    step.take(cover_size as int),
                    Rle0Model::fresh(step.skip(cover_size as int)),
                );
            }
        }
    }
}

/// The patch with steps applied until no cover is to come.
pub open spec fn steps_applied(st: SfModel, old: OldModel) -> Result<SfModel, SfStop>
    decreases st.diff.len(),
{
    if st.count <= 0 {
        Ok(st)
    } else {
        match step_applied(st, old) {
            Err(stop) => Err(stop),
            Ok(st1) => {
                proof {
                    lemma_step_shrinks(st, old);
                }
                steps_applied(st1, old)
            },
        }
    }
}

/// A patch with nothing made yet.
pub open spec fn sf_start(diff: Seq<u8>, cover_count: int) -> SfModel {
    SfModel { old_end: 0, new_end: 0, count: cover_count, diff, out: Seq::empty() }
}

/// The new data that a single-compressed patch makes out of old data, and what
/// is left of the patch.
pub open spec fn sf_patched(diff: Seq<u8>, cover_count: int, old: OldModel) -> Result<
    (Seq<u8>, Seq<u8>),
    SfStop,
> {
    match steps_applied(sf_start(diff, cover_count), old) {
        Err(stop) => Err(stop),
        Ok(st) => Ok((st.out, st.diff)),
    }
}

/// The new data that comes of a patch, whether it is applied whole or not.
pub open spec fn out_of(applied: Result<SfModel, SfStop>) -> Seq<u8> {
    match applied {
        Ok(st) => st.out,
        Err(stop) => stop.out,
    }
}

/// A patch as it stands, with its new data behind `before`.
pub open spec fn put_behind(before: Seq<u8>, applied: Result<SfModel, SfStop>) -> Result<
    SfModel,
    SfStop,
> {
    match applied {
        Ok(st) => Ok(SfModel { out: before + st.out, ..st }),
        Err(stop) => Err(SfStop { out: before + stop.out, ..stop }),
    }
}

proof fn lemma_covers_put_behind(
    before: Seq<u8>,
    st: SfModel,
    old: OldModel,
    covers: Seq<u8>,
    rle: Rle0Model,
)
    ensures
        covers_applied(SfModel { out: before + st.out, ..st }, old, covers, rle) == put_behind(
            before,
            covers_applied(st, old, covers, rle),
        ),
    decreases covers.len(),
{
    let moved = SfModel { out: before + st.out, ..st };
    if covers.len() > 0 && st.count > 0 {
        if let Ok((cover, left)) = sf_cover_of(covers, st.old_end, st.new_end) {
            lemma_sf_cover_shrinks(covers, st.old_end, st.new_end);
            let (bytes, _) = cover_pieces(old, cover.old_pos as int, cover.length as int, rle);
            match gap_filled(st, old, cover) {
                Err(stop) => {
                    assert((gap_filled(moved, old, cover)->Err_0).out =~= before + stop.out);
                },
                Ok(st1) => {
                    let moved1 = gap_filled(moved, old, cover)->Ok_0;
                    assert(moved1.out =~= before + st1.out);
                    assert(moved1.out + bytes =~= before + (st1.out + bytes));
                    if let Ok((st2, rle2)) = cover_applied(st, old, cover, rle) {
                        lemma_covers_put_behind(before, st2, old, left, rle2);
                    }
                },
            }
        }
    }
}

/// What a step makes does not depend on the new data before it.
proof fn lemma_step_put_behind(before: Seq<u8>, st: SfModel, old: OldModel)
    ensures
        step_applied(SfModel { out: before + st.out, ..st }, old) == put_behind(
            before,
            step_applied(st, old),
        ),
{
    if let Ok((n, left)) = longs_of(st.diff, 2) {
        let cover_size = as_unsigned(n[0]);
        if let Ok((step, left)) = bytes_of(left, cover_size + as_unsigned(n[1])) {
            lemma_covers_put_behind(
                before,
                SfModel { diff: left, ..st },
                old,
                step.take(cover_size as int),
                Rle0Model::fresh(step.skip(cover_size as int)),
            );
        }
    }
}

/// Covers leave the new data before them as it is.
proof fn lemma_covers_front(st: SfModel, old: OldModel, covers: Seq<u8>, rle: Rle0Model)
    ensures
        st.out.is_prefix_of(out_of(covers_applied(st, old, covers, rle))),
    decreases covers.len(),
{
    if covers.len() > 0 && st.count > 0 {
        if let Ok((cover, left)) = sf_cover_of(covers, st.old_end, st.new_end) {
            lemma_sf_cover_shrinks(covers, st.old_end, st.new_end);
            if let Ok((st1, rle1)) = cover_applied(st, old, cover, rle) {
                lemma_covers_front(st1, old, left, rle1);
                assert(st.out.is_prefix_of(st1.out));
            }
        }
    }
}

proof fn lemma_step_front(st: SfModel, old: OldModel)
    ensures
        st.out.is_prefix_of(out_of(step_applied(st, old))),
{
    if let Ok((n, left)) = longs_of(st.diff, 2) {
        let cover_size = as_unsigned(n[0]);
        if let Ok((step, left)) = bytes_of(left, cover_size + as_unsigned(n[1])) {
            lemma_covers_front(
                SfModel { diff: left, ..st },
                old,
                step.take(cover_size as int),
                Rle0Model::fresh(step.skip(cover_size as int)),
            );
        }
    }
}

proof fn lemma_steps_front(st: SfModel, old: OldModel)
    ensures
        st.out.is_prefix_of(out_of(steps_applied(st, old))),
        st.count > 0 ==> out_of(step_applied(st, old)).is_prefix_of(
            out_of(steps_applied(st, old)),
        ),
    decreases st.diff.len(),
{
    if st.count > 0 {
        lemma_step_front(st, old);
        if let Ok(st1) = step_applied(st, old) {
            lemma_step_shrinks(st, old);
            lemma_steps_front(st1, old);
        }
    }
}

/// Whether two settings differ in nothing but the size of the pieces, and old data can
/// be read up to its end.
pub open spec fn same_but_for_pieces(one: OldModel, other: OldModel) -> bool {
    &&& one.piece > 0
    &&& other.piece > 0
    &&& other == (OldModel { piece: other.piece, ..one })
    &&& one.contents.len() <= one.last_position
}

proof fn lemma_cover_any_piece(
    st: SfModel,
    one: OldModel,
    other: OldModel,
    cover: SfCover,
    rle: Rle0Model,
)
    requires
        same_but_for_pieces(one, other),
        rle.valid(),
    ensures
        cover_applied(st, one, cover, rle) matches Ok((st1, rle1)) ==> {
            &&& cover_applied(st, other, cover, rle) == Ok::<_, SfStop>((st1, rle1))
            &&& rle1.valid()
        },
{
    let (pos, n) = (cover.old_pos as int, cover.length as int);
    if n > 0 {
        law_cover_pieces(one, pos, n, rle);
        law_cover_pieces(other, pos, n, rle);
        lemma_zero_differences_len(rle, n);
    }
}

proof fn lemma_covers_any_piece(
    st: SfModel,
    one: OldModel,
    other: OldModel,
    covers: Seq<u8>,
    rle: Rle0Model,
)
    requires
        same_but_for_pieces(one, other),
        rle.valid(),
    ensures
        covers_applied(st, one, covers, rle) is Ok ==> covers_applied(st, other, covers, rle)
            == covers_applied(st, one, covers, rle),
    decreases covers.len(),
{
    if covers.len() > 0 && st.count > 0 {
        if let Ok((cover, left)) = sf_cover_of(covers, st.old_end, st.new_end) {
            lemma_sf_cover_shrinks(covers, st.old_end, st.new_end);
            lemma_cover_any_piece(st, one, other, cover, rle);
            if let Ok((st1, rle1)) = cover_applied(st, one, cover, rle) {
                lemma_covers_any_piece(st1, one, other, left, rle1);
            }
        }
    }
}

proof fn lemma_steps_any_piece(st: SfModel, one: OldModel, other: OldModel)
    requires
        same_but_for_pieces(one, other),
    ensures
        steps_applied(st, one) is Ok ==> steps_applied(st, other) == steps_applied(st, one),
    decreases st.diff.len(),
{
    if st.count > 0 {
        if let Ok((n, left)) = longs_of(st.diff, 2) {
            let cover_size = as_unsigned(n[0]);
            if let Ok((step, left)) = bytes_of(left, cover_size + as_unsigned(n[1])) {
                lemma_covers_any_piece(
                    SfModel { diff: left, ..st },
                    one,
                    other,
                    step.take(cover_size as int),
                    Rle0Model::fresh(step.skip(cover_size as int)),
                );
            }
        }
        if let Ok(st1) = step_applied(st, one) {
            lemma_step_shrinks(st, one);
            lemma_steps_any_piece(st1, one, other);
        }
    }
}

/// The size of the pieces does not show in what a patch makes: a patch that goes through
/// with pieces of one size goes through with those of any other, and makes the same new
/// data.
pub proof fn law_patched_in_any_pieces(
    diff: Seq<u8>,
    cover_count: int,
    one: OldModel,
    other: OldModel,
)
    requires
        same_but_for_pieces(one, other),
    ensures
        sf_patched(diff, cover_count, one) is Ok <==> sf_patched(diff, cover_count, other) is Ok,
        sf_patched(diff, cover_count, one) is Ok ==> sf_patched(diff, cover_count, other)
            == sf_patched(diff, cover_count, one),
{
    lemma_steps_any_piece(sf_start(diff, cover_count), one, other);
    lemma_steps_any_piece(sf_start(diff, cover_count), other, one);
}

/// Whether each cover of a step starts where the one before it ends in the new data,
/// or later, and ends in its range.
pub open spec fn covers_in_order(st: SfModel, old: OldModel, covers: Seq<u8>, rle: Rle0Model) -> bool
    decreases covers.len(),
{
    if covers.len() == 0 || st.count <= 0 {
        true
    } else {
        match sf_cover_of(covers, st.old_end, st.new_end) {
            Err(_) => true,
            Ok((cover, left)) => {
                proof {
                    lemma_sf_cover_shrinks(covers, st.old_end, st.new_end);
                }
                &&& st.new_end <= cover.new_pos
                &&& cover.new_pos + cover.length <= u64::MAX
                &&& match cover_applied(st, old, cover, rle) {
                    Err(_) => true,
                    Ok((st1, rle1)) => covers_in_order(st1, old, left, rle1),
                }
            },
        }
    }
}

/// Whether the covers of the next step come in order.
pub open spec fn step_in_order(st: SfModel, old: OldModel) -> bool {
    longs_of(st.diff, 2) matches Ok((n, left)) ==> {
        let cover_size = as_unsigned(n[0]);
        bytes_of(left, cover_size + as_unsigned(n[1])) matches Ok((step, left)) ==> covers_in_order(
            SfModel { diff: left, ..st },
            old,
            step.take(cover_size as int),
            Rle0Model::fresh(step.skip(cover_size as int)),
        )
    }
}

/// Whether the covers of all steps come in order.
pub open spec fn steps_in_order(st: SfModel, old: OldModel) -> bool
    decreases st.diff.len(),
{
    st.count <= 0 || {
        &&& step_in_order(st, old)
        &&& match step_applied(st, old) {
            Err(_) => true,
            Ok(st1) => {
                proof {
                    lemma_step_shrinks(st, old);
                }
                steps_in_order(st1, old)
            },
        }
    }
}

proof fn lemma_covers_end_new_data(st: SfModel, old: OldModel, covers: Seq<u8>, rle: Rle0Model)
    requires
        old.piece > 0,
        st.out.len() == st.new_end,
        covers_in_order(st, old, covers, rle),
    ensures
        covers_applied(st, old, covers, rle) matches Ok(st1) ==> st1.out.len() == st1.new_end,
    decreases covers.len(),
{
    if covers.len() > 0 && st.count > 0 {
        if let Ok((cover, left)) = sf_cover_of(covers, st.old_end, st.new_end) {
            lemma_sf_cover_shrinks(covers, st.old_end, st.new_end);
            law_cover_ends_new_data(st, old, cover, rle);
            if let Ok((st1, rle1)) = cover_applied(st, old, cover, rle) {
                lemma_covers_end_new_data(st1, old, left, rle1);
            }
        }
    }
}

/// Where all covers come in order, the new data that is made ends where the last
/// of them does.
pub proof fn law_steps_end_new_data(st: SfModel, old: OldModel)
    requires
        old.piece > 0,
        st.out.len() == st.new_end,
        steps_in_order(st, old),
    ensures
        steps_applied(st, old) matches Ok(st1) ==> st1.out.len() == st1.new_end,
    decreases st.diff.len(),
{
    if st.count > 0 {
        if let Ok(st1) = step_applied(st, old) {
            lemma_step_shrinks(st, old);
            let (n, left) = longs_of(st.diff, 2)->Ok_0;
            let cover_size = as_unsigned(n[0]);
            let (step, left) = bytes_of(left, cover_size + as_unsigned(n[1]))->Ok_0;
            lemma_covers_end_new_data(
                SfModel { diff: left, ..st },
                old,
                step.take(cover_size as int),
                Rle0Model::fresh(step.skip(cover_size as int)),
            );
            law_steps_end_new_data(st1, old);
        }
    }
}

/// The old data as contracts speak of it, with pieces of `piece` bytes.
pub open spec fn old_model<I: SeekableRead>(old_data: I, piece: u64) -> OldModel {
    OldModel {
        contents: old_data.contents(),
        last_position: old_data.last_position(),
        refusal: old_data.refusal(),
        piece: piece as int,
    }
}

/// Reads the next cover, and moves both ends behind it.
pub fn decode_cover(
    covers: &mut ByteStream,
    last_old_end: &mut u64,
    last_new_end: &mut u64,
) -> (r: Result<SfCover, PatchError>)
    ensures
        final(covers).data@ == old(covers).data@,
        match r {
            Ok(cover) => {
                &&& sf_cover_of(old(covers).rest(), *old(last_old_end), *old(last_new_end)) == Ok::<
                    _,
                    PatchError,
                >((cover, final(covers).rest()))
                &&& *final(last_old_end) == wrapped(cover.old_pos + cover.length)
                &&& *final(last_new_end) == wrapped(cover.new_pos + cover.length)
            },
            Err(e) => {
                &&& sf_cover_of(old(covers).rest(), *old(last_old_end), *old(last_new_end))
                    == Err::<(SfCover, Seq<u8>), PatchError>(e)
                &&& *final(last_old_end) == *old(last_old_end)
                &&& *final(last_new_end) == *old(last_new_end)
            },
        },
{
    let first = read_byte(covers)?;
    let delta = to_unsigned(read_long_7bit_tagged(covers, 1, first)?);
    let old_pos: u64 = if first < 128 {
        last_old_end.wrapping_add(delta)
    } else {
        last_old_end.wrapping_sub(delta)
    };
    let gap = to_unsigned(read_long_7bit(covers)?);
    let new_pos: u64 = last_new_end.wrapping_add(gap);
    let length = to_unsigned(read_long_7bit(covers)?);
    *last_old_end = old_pos.wrapping_add(length);
    *last_new_end = new_pos.wrapping_add(length);
    Ok(SfCover { old_pos, new_pos, length })
}

/// Copies `n` bytes from `src` onto the end of `dst`, in pieces of `piece` bytes. A
/// piece is read whole before it is written: where the source ends before, `dst` gets
/// the whole pieces that it holds.
pub fn copy_n<S: ByteSource>(src: &mut S, dst: &mut Vec<u8>, n: u64, piece: u64) -> (r: Result<
    (),
    PatchError,
>)
    requires
        piece > 0,
    ensures
        final(src).base() == old(src).base(),
        final(src).fallible() == old(src).fallible(),
        ({
            let rest = old(src).rest();
            match r {
                Ok(_) => bytes_of(rest, n as int) matches Ok((bytes, left)) && {
                    &&& final(src).rest() == left
                    &&& final(dst)@ == old(dst)@ + bytes
                },
                Err(e) => {
                    ||| {
                        &&& bytes_of(rest, n as int) matches Err(want_e) && e == want_e
                        &&& final(dst)@ == old(dst)@ + rest.take(
                            whole_pieces(rest.len() as int, piece as int),
                        )
                    }
                    ||| {
                        &&& e == PatchError::Decoder && old(src).fallible()
                        &&& old(dst)@.is_prefix_of(final(dst)@)
                        &&& final(dst)@.is_prefix_of(
                            old(dst)@ + if n <= rest.len() {
                                rest.take(n as int)
                            } else {
                                rest.take(whole_pieces(rest.len() as int, piece as int))
                            },
                        )
                    }
                },
            }
        }),
{
    let ghost rest = src.rest();
    let ghost before = dst@;
    let ghost mut q: int = 0;
    let mut left: u64 = n;
    proof {
        assert(rest.skip(0) =~= rest);
        assert(before + rest.take(0) =~= before);
    }
    while left > 0
        invariant
            piece > 0,
            left <= n,
            rest == old(src).rest(),
            before == old(dst)@,
            src.base() == old(src).base(),
            src.fallible() == old(src).fallible(),
            n - left <= rest.len(),
            src.rest() == rest.skip(n - left),
            dst@ == before + rest.take(n - left),
            left > 0 ==> n - left == q * piece,
            q >= 0,
        decreases left,
    {
        let k: u64 = if left < piece {
            left
        } else {
            piece
        };
        let ghost done = n - left;
        proof {
            lemma_whole_pieces(rest.len() as int, piece as int, q);
            let most = if n <= rest.len() {
                rest.take(n as int)
            } else {
                rest.take(whole_pieces(rest.len() as int, piece as int))
            };
            assert(before.is_prefix_of(dst@));
            assert(dst@.is_prefix_of(before + most));
        }
        let read = read_exact(src, k)?;
        assert(read.deep_view() =~= read@);
        let mut bytes = read;
        dst.append(&mut bytes);
        proof {
            assert(rest.skip(done).skip(k as int) =~= rest.skip(done + k));
            assert(rest.take(done) + rest.skip(done).take(k as int) =~= rest.take(done + k));
            assert(dst@ =~= before + rest.take(done + k));
            q = q + 1;
            assert(q * piece == (q - 1) * piece + piece) by (nonlinear_arith);
        }
        left = left - k;
    }
    Ok(())
}

/// Whole pieces that were copied are no more than all that there are, and all of them
/// where less than one is left.
proof fn lemma_whole_pieces(n: int, piece: int, q: int)
    requires
        piece > 0,
        0 <= q,
        q * piece <= n,
    ensures
        q * piece <= whole_pieces(n, piece) <= n,
        n - q * piece < piece ==> whole_pieces(n, piece) == q * piece,
{
    vstd::arithmetic::div_mod::lemma_fundamental_div_mod(n, piece);
    assert(whole_pieces(n, piece) == piece * (n / piece)) by (nonlinear_arith)
        requires
            whole_pieces(n, piece) == n / piece * piece,
    ;
    assert(q <= n / piece) by (nonlinear_arith)
        requires
            q * piece <= n,
            n == piece * (n / piece) + n % piece,
            n % piece < piece,
            piece > 0,
    ;
    assert(q * piece <= n / piece * piece) by (nonlinear_arith)
        requires
            q <= n / piece,
            piece > 0,
    ;
    if n - q * piece < piece {
        assert(q * piece == q * piece + 0);
        vstd::arithmetic::div_mod::lemma_fundamental_div_mod_converse(
            n,
            piece,
            q,
            n - q * piece,
        );
    }
}

/// Some pieces of a cover, with others before them.
pub open spec fn pieces_behind(
    bytes: Seq<u8>,
    pieces: (Seq<u8>, Result<Rle0Model, PatchError>),
) -> (Seq<u8>, Result<Rle0Model, PatchError>) {
    (bytes + pieces.0, pieces.1)
}

/// Appends the bytes that a cover takes over, with the differences added, to
/// `out`, in pieces of `piece` bytes.
fn write_cover<I: SeekableRead>(
    old_data: &mut I,
    out: &mut Vec<u8>,
    cover: SfCover,
    rle0: &mut Rle0Decoder,
    piece: u64,
) -> (r: Result<(), PatchError>)
    requires
        piece > 0,
        old(old_data).well_formed(),
        old(rle0).valid(),
    ensures
        final(old_data).well_formed(),
        old_model(*final(old_data), piece) == old_model(*old(old_data), piece),
        final(rle0).valid(),
        ({
            let (bytes, end) = cover_pieces(
                old_model(*old(old_data), piece),
                cover.old_pos as int,
                cover.length as int,
                old(rle0).model(),
            );
            &&& final(out)@ == old(out)@ + bytes
            &&& match r {
                Ok(_) => end == Ok::<Rle0Model, PatchError>(final(rle0).model()),
                Err(e) => end == Err::<Rle0Model, PatchError>(e),
            }
        }),
{
    let ghost old_m = old_model(*old_data, piece);
    let ghost all = cover_pieces(
        old_m,
        cover.old_pos as int,
        cover.length as int,
        rle0.model(),
    );
    let ghost mut done: Seq<u8> = Seq::empty();
    let mut place: u64 = cover.old_pos;
    let mut left: u64 = cover.length;
    proof {
        assert(done + all.0 =~= all.0);
        assert(out@ =~= out@ + done);
    }
    while left > 0
        invariant
            piece > 0,
            old_data.well_formed(),
            old_model(*old_data, piece) == old_m,
            old_m == old_model(*old(old_data), piece),
            old_m.piece == piece,
            rle0.valid(),
            out@ == old(out)@ + done,
            left > 0 ==> place == cover.old_pos + (cover.length - left),
            left <= cover.length,
            all == cover_pieces(
                old_m,
                cover.old_pos as int,
                cover.length as int,
                old(rle0).model(),
            ),
            all == pieces_behind(
                done,
                cover_pieces(
                    old_m,
                    cover.old_pos + (cover.length - left),
                    left as int,
                    rle0.model(),
                ),
            ),
        decreases left,
    {
        let k: u64 = if left < piece {
            left
        } else {
            piece
        };
        let mut bytes: Vec<u8> = Vec::new();
        assert(done + Seq::<u8>::empty() =~= done);
        old_data.read_range_onto(place, k, &mut bytes)?;
        let ghost read = bytes@;
        proof {
            assert(read =~= range_of(
                old_m.contents,
                old_m.last_position,
                old_m.refusal,
                place as int,
                k as int,
            )->Ok_0);
            old_data.lemma_contents_len();
        }
        rle0.add(&mut bytes, 0)?;
        let ghost made = bytes@;
        out.append(&mut bytes);
        proof {
            let more = cover_pieces(old_m, place + k, left - k, rle0.model());
            assert(done + (made + more.0) =~= done + made + more.0);
            assert(out@ =~= old(out)@ + (done + made));
            done = done + made;
        }
        left = left - k;
        place = place + k;
    }
    assert(done + Seq::<u8>::empty() =~= done);
    Ok(())
}

/// Applies one step of the patch.
fn patch_step<S: ByteSource, I: SeekableRead>(
    diff: &mut S,
    old_data: &mut I,
    out: &mut Vec<u8>,
    cover_count: &mut u64,
    last_old_end: &mut u64,
    last_new_end: &mut u64,
    piece: u64,
) -> (r: Result<(), PatchError>)
    requires
        piece > 0,
        old(old_data).well_formed(),
    ensures
        final(old_data).well_formed(),
        old_model(*final(old_data), piece) == old_model(*old(old_data), piece),
        final(diff).base() == old(diff).base(),
        final(diff).fallible() == old(diff).fallible(),
        ({
            let st = SfModel {
                old_end: *old(last_old_end),
                new_end: *old(last_new_end),
                count: *old(cover_count) as int,
                diff: old(diff).rest(),
                out: old(out)@,
            };
            let applied = step_applied(st, old_model(*old(old_data), piece));
            match r {
                Ok(_) => applied == Ok::<SfModel, SfStop>(
                    SfModel {
                        old_end: *final(last_old_end),
                        new_end: *final(last_new_end),
                        count: *final(cover_count) as int,
                        diff: final(diff).rest(),
                        out: final(out)@,
                    },
                ),
                Err(e) => {
                    ||| applied == Err::<SfModel, SfStop>(SfStop { error: e, out: final(out)@ })
                    ||| {
                        &&& e == PatchError::Decoder && old(diff).fallible()
                        &&& old(out)@.is_prefix_of(final(out)@)
                        &&& final(out)@.is_prefix_of(out_of(applied))
                    }
                },
            }
        }),
{
    let ghost st0 = SfModel {
        old_end: *last_old_end,
        new_end: *last_new_end,
        count: *cover_count as int,
        diff: diff.rest(),
        out: out@,
    };
    let ghost old_m = old_model(*old_data, piece);
    proof {
        reveal_with_fuel(longs_of, 3);
        lemma_step_front(st0, old_m);
    }
    let buf_cover_size = to_unsigned(read_long_7bit(diff)?);
    let buf_rle_size = to_unsigned(read_long_7bit(diff)?);
    let step_end: u64 = match buf_cover_size.checked_add(buf_rle_size) {
        Some(end) => end,
        None => return Err(PatchError::Malformed),
    };
    let step_buf = read_exact(diff, step_end)?;
    assert(step_buf.deep_view() =~= step_buf@);
    let len = step_buf.len();
    let split: usize = buf_cover_size as usize;
    let covers_slice = slice_subrange(step_buf.as_slice(), 0, split);
    let rle_slice = slice_subrange(step_buf.as_slice(), split, len);
    proof {
        assert(covers_slice@ =~= step_buf@.take(split as int));
        assert(rle_slice@ =~= step_buf@.skip(split as int));
        assert(covers_slice@.skip(0) =~= covers_slice@);
    }
    let mut covers = ByteStream::new(covers_slice);
    let mut rle0 = Rle0Decoder::new(rle_slice);
    while covers.pos < covers_slice.len() as u64 && *cover_count > 0
        invariant
            piece > 0,
            covers.data@ == covers_slice@,
            rle0.valid(),
            old_data.well_formed(),
            old_model(*old_data, piece) == old_m,
            old_m == old_model(*old(old_data), piece),
            old_m.piece == piece,
            diff.base() == old(diff).base(),
            diff.fallible() == old(diff).fallible(),
            old(out)@.is_prefix_of(out@),
            step_applied(st0, old_m) == covers_applied(
                SfModel {
                    old_end: *last_old_end,
                    new_end: *last_new_end,
                    count: *cover_count as int,
                    diff: diff.rest(),
                    out: out@,
                },
                old_m,
                covers.rest(),
                rle0.model(),
            ),
            st0 == (SfModel {
                old_end: *old(last_old_end),
                new_end: *old(last_new_end),
                count: *old(cover_count) as int,
                diff: old(diff).rest(),
                out: old(out)@,
            }),
        decreases *cover_count,
    {
        let ghost st = SfModel {
            old_end: *last_old_end,
            new_end: *last_new_end,
            count: *cover_count as int,
            diff: diff.rest(),
            out: out@,
        };
        let ghost rle = rle0.model();
        let ghost bytes = covers.rest();
        let prev_new_end: u64 = *last_new_end;
        let cover = decode_cover(&mut covers, last_old_end, last_new_end)?;
        proof {
            lemma_gap_front(st, old_m, bytes, rle);
        }
        if cover.new_pos > prev_new_end {
            copy_n(diff, out, cover.new_pos - prev_new_end, piece)?;
        }
        let ghost filled = out@;
        *cover_count = *cover_count - 1;
        write_cover(old_data, out, cover, &mut rle0, piece)?;
        assert(filled.is_prefix_of(out@));
        assert(old(out)@.is_prefix_of(filled));
    }
    Ok(())
}

/// The gap before a cover, filled as far as it can be, is a front of what comes of
/// the covers.
proof fn lemma_gap_front(st: SfModel, old: OldModel, covers: Seq<u8>, rle: Rle0Model)
    requires
        covers.len() > 0,
        st.count > 0,
        sf_cover_of(covers, st.old_end, st.new_end) is Ok,
    ensures
        ({
            let (cover, _) = sf_cover_of(covers, st.old_end, st.new_end)->Ok_0;
            match gap_filled(st, old, cover) {
                Ok(st1) => st1.out.is_prefix_of(out_of(covers_applied(st, old, covers, rle))),
                Err(stop) => stop.out == out_of(covers_applied(st, old, covers, rle)),
            }
        }),
{
    let (cover, left) = sf_cover_of(covers, st.old_end, st.new_end)->Ok_0;
    if let Ok(st1) = gap_filled(st, old, cover) {
        if let Ok((st2, rle2)) = cover_applied(st, old, cover, rle) {
            lemma_covers_front(st2, old, left, rle2);
            assert(st1.out.is_prefix_of(st2.out));
        }
    }
}

/// Applies the steps of the patch until no cover is to come, and appends the new data
/// to `out` as it goes, in pieces of `piece` bytes.
pub fn patch_loop<S: ByteSource, I: SeekableRead>(
    diff: &mut S,
    old_data: &mut I,
    out: &mut Vec<u8>,
    cover_count: u64,
    piece: u64,
) -> (r: Result<(), PatchError>)
    requires
        piece > 0,
        old(old_data).well_formed(),
    ensures
        final(old_data).well_formed(),
        old_model(*final(old_data), piece) == old_model(*old(old_data), piece),
        final(diff).base() == old(diff).base(),
        final(diff).fallible() == old(diff).fallible(),
        ({
            let want = sf_patched(
                old(diff).rest(),
                cover_count as int,
                old_model(*old(old_data), piece),
            );
            match r {
                Ok(_) => want matches Ok((data, left)) && {
                    &&& final(out)@ == old(out)@ + data
                    &&& final(diff).rest() == left
                },
                Err(e) => sf_fails(want, e, old(out)@, final(out)@, old(diff).fallible()),
            }
        }),
{
    let ghost start = sf_start(diff.rest(), cover_count as int);
    let ghost old_m = old_model(*old_data, piece);
    let ghost before = out@;
    let ghost mut data: Seq<u8> = Seq::empty();
    let mut count: u64 = cover_count;
    let mut last_old_end: u64 = 0;
    let mut last_new_end: u64 = 0;
    assert(before + data =~= before);
    while count > 0
        invariant
            piece > 0,
            old_data.well_formed(),
            old_model(*old_data, piece) == old_m,
            old_m == old_model(*old(old_data), piece),
            diff.base() == old(diff).base(),
            diff.fallible() == old(diff).fallible(),
            before == old(out)@,
            out@ == before + data,
            start == sf_start(old(diff).rest(), cover_count as int),
            steps_applied(start, old_m) == steps_applied(
                SfModel {
                    old_end: last_old_end,
                    new_end: last_new_end,
                    count: count as int,
                    diff: diff.rest(),
                    out: data,
                },
                old_m,
            ),
        decreases diff.rest().len(),
    {
        let ghost st = SfModel {
            old_end: last_old_end,
            new_end: last_new_end,
            count: count as int,
            diff: diff.rest(),
            out: data,
        };
        let ghost held = out@;
        proof {
            lemma_step_shrinks(st, old_m);
            lemma_step_put_behind(before, st, old_m);
            lemma_steps_front(st, old_m);
            let made = out_of(step_applied(st, old_m));
            let all = out_of(steps_applied(st, old_m));
            assert((before + made).is_prefix_of(before + all));
            assert(before.is_prefix_of(held));
        }
        patch_step(
            diff,
            old_data,
            out,
            &mut count,
            &mut last_old_end,
            &mut last_new_end,
            piece,
        )?;
        proof {
            data = (step_applied(st, old_m)->Ok_0).out;
        }
    }
    Ok(())
}

/// What a single-compressed patch that fails with `e` leaves in the output, which held
/// `before`: the new data up to where the patch cannot go on, or, where the
/// decompressor failed, a front of what would have come.
pub open spec fn sf_fails(
    want: Result<(Seq<u8>, Seq<u8>), SfStop>,
    e: PatchError,
    before: Seq<u8>,
    after: Seq<u8>,
    fallible: bool,
) -> bool {
    ||| want matches Err(stop) && e == stop.error && after == before + stop.out
    ||| {
        &&& e == PatchError::Decoder && fallible
        &&& before.is_prefix_of(after)
        &&& after.is_prefix_of(
            before + match want {
                Ok((data, _)) => data,
                Err(stop) => stop.out,
            },
        )
    }
}

/// How many bytes are copied at once, out of the size that a header gives. Where it
/// gives none, some size will do.
pub open spec fn piece_of(step_mem_size: i64) -> u64 {
    if step_mem_size > 0 {
        step_mem_size as u64
    } else {
        CHUNK_LEN
    }
}

/// The new data that a single-compressed patch with this header makes out of old
/// data.
pub open spec fn whole_patched(
    patch: Seq<u8>,
    comp_mode: CompressionMode,
    info: DiffSingleChunkInfo,
    cover_count: i64,
    old: OldModel,
) -> Result<(Seq<u8>, Seq<u8>), SfStop> {
    match whole_clip(patch, comp_mode, info) {
        Err(error) => Err(SfStop { error, out: Seq::empty() }),
        Ok(diff) => sf_patched(diff, as_unsigned(cover_count) as int, old),
    }
}

/// The bytes of a single-compressed patch behind its header.
pub open spec fn whole_clip(
    patch: Seq<u8>,
    comp_mode: CompressionMode,
    info: DiffSingleChunkInfo,
) -> Result<Seq<u8>, PatchError> {
    clip_of(
        patch,
        comp_mode,
        as_unsigned(info.diff_data_pos) as int,
        as_unsigned(info.uncompressed_size) as int,
        as_unsigned(info.compressed_size) as int,
    )
}

/// Whether a single-compressed patch with this header is given to a decoder.
pub open spec fn whole_decodes(
    patch: Seq<u8>,
    comp_mode: CompressionMode,
    info: DiffSingleChunkInfo,
) -> bool {
    &&& whole_clip(patch, comp_mode, info) is Ok
    &&& !held_plain(comp_mode, as_unsigned(info.compressed_size) as int)
}

/// A patch of one file that is compressed as a whole.
pub struct PatchSF {
    pub header_info: HeaderInfo,
}

impl PatchSF {
    /// The patch with this header.
    pub fn new(header_info: HeaderInfo) -> (r: Self)
        ensures
            r.header_info == header_info,
    {
        Self { header_info }
    }

    /// Appends the new data that `patch` makes out of the old data to
    /// `output_stream`, as far as it can be made. Only where the patch is compressed
    /// can it fail to be decompressed.
    pub fn patch<I: SeekableRead>(
        &self,
        input_stream: &mut I,
        output_stream: &mut Vec<u8>,
        patch: &[u8],
    ) -> (r: Result<(), PatchError>)
        requires
            old(input_stream).well_formed(),
        ensures
            final(input_stream).well_formed(),
            final(input_stream).contents() == old(input_stream).contents(),
            final(input_stream).last_position() == old(input_stream).last_position(),
            final(input_stream).refusal() == old(input_stream).refusal(),
            ({
                let header = self.header_info;
                let want = whole_patched(
                    patch@,
                    header.comp_mode,
                    header.single_chunk_info,
                    header.chunk_info.cover_count,
                    old_model(*old(input_stream), piece_of(header.step_mem_size)),
                );
                match r {
                    Ok(_) => want matches Ok((data, _)) && final(output_stream)@
                        == old(output_stream)@ + data,
                    Err(e) => sf_fails(
                        want,
                        e,
                        old(output_stream)@,
                        final(output_stream)@,
                        whole_decodes(patch@, header.comp_mode, header.single_chunk_info),
                    ),
                }
            }),
    {
        let info = self.header_info.single_chunk_info;
        let ghost before = output_stream@;
        proof {
            assert(before + Seq::<u8>::empty() =~= before);
            assert(forall|data: Seq<u8>| before.is_prefix_of(#[trigger] (before + data)));
        }
        let (clip, _) = get_clip_stream(
            patch,
            self.header_info.comp_mode,
            to_unsigned(info.diff_data_pos),
            to_unsigned(info.uncompressed_size),
            to_unsigned(info.compressed_size),
        )?;
        let mut diff = clip;
        self.start_patch_routine(&mut diff, input_stream, output_stream)
    }

    /// Appends the new data that the bytes of the patch make out of the old data
    /// to `out`, as far as it can be made.
    pub fn start_patch_routine<S: ByteSource, I: SeekableRead>(
        &self,
        diff: &mut S,
        old_data: &mut I,
        out: &mut Vec<u8>,
    ) -> (r: Result<(), PatchError>)
        requires
            old(old_data).well_formed(),
        ensures
            final(old_data).well_formed(),
            final(old_data).contents() == old(old_data).contents(),
            final(old_data).last_position() == old(old_data).last_position(),
            final(old_data).refusal() == old(old_data).refusal(),
            final(diff).base() == old(diff).base(),
            final(diff).fallible() == old(diff).fallible(),
            ({
                let want = sf_patched(
                    old(diff).rest(),
                    as_unsigned(self.header_info.chunk_info.cover_count) as int,
                    old_model(*old(old_data), piece_of(self.header_info.step_mem_size)),
                );
                match r {
                    Ok(_) => want matches Ok((data, left)) && {
                        &&& final(out)@ == old(out)@ + data
                        &&& final(diff).rest() == left
                    },
                    Err(e) => sf_fails(want, e, old(out)@, final(out)@, old(diff).fallible()),
                }
            }),
    {
        let cover_count = to_unsigned(self.header_info.chunk_info.cover_count);
        let step_mem_size = self.header_info.step_mem_size;
        let piece: u64 = if step_mem_size > 0 {
            step_mem_size as u64
        } else {
            CHUNK_LEN
        };
        patch_loop(diff, old_data, out, cover_count, piece)
    }
}

} // verus!
