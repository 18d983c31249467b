//! The laws on patches that cannot go on, and on what they leave behind, and on how new data
//! is passed on.
use crate::combined::{joined, sizes_fit};
use crate::error::PatchError;
use crate::hdiff::{file_fails, file_patched_in_chunks};
use crate::kr_format::{KrCover, KrHd19Model};
use crate::parser::longs_of;
use crate::patch_core::{base_of, holds_front, new_data_of, passed_on, whole_base};
use crate::patch_krdir::{
    kr_cover_applied, kr_ends, kr_set_up, law_copied_if_room, sizes_of, KrModel, KrStop,
};
use crate::patch_sf::{
    cover_applied, cover_pieces, sf_fails, step_applied, steps_applied, whole_pieces,
    OldModel, SfCover, SfModel, SfStop,
};
use crate::rle::{added_at, min};
use crate::rle0::{
    law_zero_differences_split, lemma_zero_differences_len, zero_differences, Rle0Model,
};
use crate::streams::range_of;
use crate::structs::{CoverHeader, HeaderModel};
use crate::varint::as_signed;
use crate::written::{law_number_read_back, number};
use crate::written_kr_patch::{law_copying_stops, whole_of};
use crate::written_patch::end_in_new;
use vstd::prelude::*;

verus! {

/// The whole pieces of some bytes are as many pieces as fit in them.
pub proof fn law_whole_pieces(n: int, piece: int)
    requires
        0 <= n,
        0 < piece,
    ensures
        whole_pieces(n, piece) % piece == 0,
        0 <= whole_pieces(n, piece) <= n,
        n < whole_pieces(n, piece) + piece,
{
    vstd::arithmetic::div_mod::lemma_fundamental_div_mod(n, piece);
    let q = n / piece;
    assert(q >= 0) by (nonlinear_arith)
        requires
            n >= 0,
            piece > 0,
            q == n / piece,
    ;
    vstd::arithmetic::div_mod::lemma_mod_multiples_basic(q, piece);
    assert(q * piece == piece * q) by (nonlinear_arith);
    assert(q * piece >= 0) by (nonlinear_arith)
        requires
            q >= 0,
            piece > 0,
    ;
}

/// Where the bytes of a gap are not all there, as many whole pieces of them are written as
/// there are, and the patch stops for want of bytes.
pub proof fn law_gap_cut(st: SfModel, old: OldModel, cover: SfCover, rle: Rle0Model)
    requires
        0 < old.piece,
        st.new_end + st.diff.len() < cover.new_pos,
    ensures
        cover_applied(st, old, cover, rle) matches Err(stop) && {
            &&& stop.error == PatchError::UnexpectedEof
            &&& st.out.len() <= stop.out.len() <= st.out.len() + st.diff.len()
            &&& st.out.len() + st.diff.len() < stop.out.len() + old.piece
            &&& (stop.out.len() - st.out.len()) % old.piece == 0
            &&& forall|i: int|
                0 <= i < stop.out.len() ==> #[trigger] stop.out[i] == (st.out + st.diff)[i]
        },
{
    law_whole_pieces(st.diff.len() as int, old.piece);
}

/// A cover that stops has made the whole pieces before the one that cannot be had, each byte of
/// them out of the old data and the differences. That one is wanting in old data or in
/// differences.
#[verifier::rlimit(40)]
pub proof fn law_cover_cut(old: OldModel, pos: int, n: int, rle: Rle0Model)
    requires
        0 < old.piece,
        0 <= pos,
        rle.valid(),
    ensures
        ({
            let (made, end) = cover_pieces(old, pos, n, rle);
            end matches Err(error) ==> {
                let k = made.len() as int;
                &&& k < n
                &&& k % old.piece == 0
                &&& zero_differences(rle, k) matches Some((bytes, rle1)) && {
                    &&& forall|i: int|
                        0 <= i < k ==> #[trigger] made[i] == (old.contents[pos + i] + bytes[i])
                            % 256
                    &&& {
                        let next = if n - k < old.piece {
                            n - k
                        } else {
                            old.piece
                        };
                        let range = range_of(
                            old.contents,
                            old.last_position,
                            old.refusal,
                            pos + k,
                            next,
                        );
                        ||| range == Err::<Seq<u8>, PatchError>(error)
                        ||| {
                            &&& range is Ok
                            &&& zero_differences(rle1, next) is None
                            &&& error == PatchError::Malformed
                        }
                    }
                }
            }
        }),
    decreases n,
{
    let (made, end) = cover_pieces(old, pos, n, rle);
    if end is Err {
        let piece = min(n, old.piece);
        let range = range_of(old.contents, old.last_position, old.refusal, pos, piece);
        if range is Err || zero_differences(rle, piece) is None {
            assert(made =~= Seq::<u8>::empty());
            assert(0int % old.piece == 0) by (nonlinear_arith)
                requires
                    old.piece > 0,
            ;
        } else {
            let (diffs, rle1) = zero_differences(rle, piece)->0;
            lemma_zero_differences_len(rle, piece);
            let (more, _) = cover_pieces(old, pos + piece, n - piece, rle1);
            law_cover_cut(old, pos + piece, n - piece, rle1);
            assert(piece == old.piece);
            let k = more.len() as int;
            law_zero_differences_split(rle, piece, k);
            lemma_zero_differences_len(rle1, k);
            vstd::arithmetic::div_mod::lemma_mod_add_multiples_vanish(k, old.piece);
            assert((old.piece + k) % old.piece == 0);
            assert(made.len() == piece + k);
            let bytes = (zero_differences(rle, piece + k)->0).0;
            let later = (zero_differences(rle1, k)->0).0;
            assert(bytes == diffs + later);
            assert forall|i: int| 0 <= i < made.len() implies #[trigger] made[i] == (
            old.contents[pos + i] + bytes[i]) % 256 by {
                if i >= piece {
                    assert(made[i] == more[i - piece]);
                    assert(bytes[i] == later[i - piece]);
                } else {
                    assert(made[i] == added_at(range->Ok_0, 0, diffs)[i]);
                    assert(bytes[i] == diffs[i]);
                }
            }
        }
    }
}

/// A step that is cut before its covers and differences end makes nothing, and one whose sizes
/// no number holds together is refused.
pub proof fn law_step_refused(
    st: SfModel,
    old: OldModel,
    cover_size: int,
    rle_size: int,
    rest: Seq<u8>,
)
    requires
        0 <= cover_size <= u64::MAX,
        0 <= rle_size <= u64::MAX,
        st.diff == number(cover_size) + (number(rle_size) + rest),
        rest.len() < cover_size + rle_size,
    ensures
        step_applied(st, old) == Err::<SfModel, SfStop>(
            SfStop {
                error: if cover_size + rle_size > u64::MAX {
                    PatchError::Malformed
                } else {
                    PatchError::UnexpectedEof
                },
                out: st.out,
            },
        ),
{
    law_number_read_back(cover_size, number(rle_size) + rest);
    law_number_read_back(rle_size, rest);
    reveal_with_fuel(longs_of, 3);
}

/// A patch with no cover to come is done, whatever is left of it.
pub proof fn law_no_cover_to_come(st: SfModel, old: OldModel)
    requires
        st.count <= 0,
    ensures
        steps_applied(st, old) == Ok::<SfModel, SfStop>(st),
{
}

/// New data is made only of covers that lie in the old data, each with a length that is one.
pub proof fn law_covers_in_old(
    covers: Seq<CoverHeader>,
    i: int,
    contents: Seq<u8>,
    last_position: int,
    diff: Seq<u8>,
    new_data_size: int,
    ctrl: Seq<u8>,
    code: Seq<u8>,
)
    requires
        0 <= i < covers.len(),
        contents.len() <= last_position <= i64::MAX,
        new_data_of(covers, contents, last_position, diff, new_data_size, ctrl, code) is Some,
    ensures
        0 <= covers[i].old_pos <= last_position,
        0 <= covers[i].cover_length,
        covers[i].cover_length > 0 ==> covers[i].old_pos + covers[i].cover_length
            <= contents.len(),
{
    assert(whole_base(covers, contents, last_position, diff, new_data_size) is Some);
    lemma_base_in_old(covers, i, contents, last_position, diff);
}

proof fn lemma_base_in_old(
    covers: Seq<CoverHeader>,
    i: int,
    contents: Seq<u8>,
    last_position: int,
    diff: Seq<u8>,
)
    requires
        0 <= i < covers.len(),
        contents.len() <= last_position <= i64::MAX,
        base_of(covers, contents, last_position, diff) is Some,
    ensures
        0 <= covers[i].old_pos <= last_position,
        0 <= covers[i].cover_length,
        covers[i].cover_length > 0 ==> covers[i].old_pos + covers[i].cover_length
            <= contents.len(),
    decreases covers.len(),
{
    if i < covers.len() - 1 {
        assert(covers.drop_last()[i] == covers[i]);
        lemma_base_in_old(covers.drop_last(), i, contents, last_position, diff);
    }
}

/// How many bytes covers take over.
pub open spec fn covered_in_all(covers: Seq<CoverHeader>) -> int
    decreases covers.len(),
{
    if covers.len() == 0 {
        0
    } else {
        covered_in_all(covers.drop_last()) + covers[covers.len() - 1].cover_length
    }
}

/// Whether each cover starts in the new data where the one before it ends, or later.
pub open spec fn ascending(covers: Seq<CoverHeader>) -> bool {
    forall|i: int|
        0 <= i < covers.len() ==> end_in_new(covers.take(i)) <= (#[trigger] covers[i]).new_pos
}

/// New data is made only where there are bytes for all that no cover takes over.
pub proof fn law_gaps_in_diff(
    covers: Seq<CoverHeader>,
    contents: Seq<u8>,
    last_position: int,
    diff: Seq<u8>,
    new_data_size: int,
    ctrl: Seq<u8>,
    code: Seq<u8>,
)
    requires
        ascending(covers),
        end_in_new(covers) <= new_data_size,
        new_data_of(covers, contents, last_position, diff, new_data_size, ctrl, code) is Some,
    ensures
        new_data_size - covered_in_all(covers) <= diff.len(),
{
    assert(whole_base(covers, contents, last_position, diff, new_data_size) is Some);
    lemma_gaps_taken(covers, contents, last_position, diff);
}

proof fn lemma_gaps_taken(
    covers: Seq<CoverHeader>,
    contents: Seq<u8>,
    last_position: int,
    diff: Seq<u8>,
)
    requires
        ascending(covers),
        base_of(covers, contents, last_position, diff) is Some,
    ensures
        ({
            let base = base_of(covers, contents, last_position, diff)->0;
            &&& base.back == end_in_new(covers)
            &&& base.diff.len() + base.back - covered_in_all(covers) == diff.len()
        }),
    decreases covers.len(),
{
    if covers.len() > 0 {
        let before = covers.drop_last();
        let n = covers.len() - 1;
        assert(covers.take(n) =~= before);
        assert(end_in_new(covers.take(n)) <= covers[n].new_pos);
        assert(ascending(before)) by {
            assert forall|i: int| 0 <= i < before.len() implies end_in_new(before.take(i)) <= (
            #[trigger] before[i]).new_pos by {
                assert(before.take(i) =~= covers.take(i));
                assert(end_in_new(covers.take(i)) <= covers[i].new_pos);
            }
        }
        lemma_gaps_taken(before, contents, last_position, diff);
    }
}

/// New data is passed on as soon as more than 10 MiB of it are held back, and behind the last
/// cover: up to there each part that is passed on is more than that, and what is held back is
/// not.
pub proof fn law_passed_on(covers: Seq<CoverHeader>, ends: Seq<int>, n: int)
    requires
        0 <= n <= covers.len(),
        ends.len() == covers.len() + 1,
        ends[0] == 0,
        forall|i: int|
            0 <= i < covers.len() ==> (#[trigger] covers[i]).next_cover_index == covers.len() - 1
                - i,
        forall|i: int, j: int| 0 <= i <= j < ends.len() ==> #[trigger] ends[i] <= #[trigger] ends[j],
        ends[covers.len() as int] <= i64::MAX,
    ensures
        ({
            let (reports, held) = passed_on(covers, ends, n);
            &&& 0 <= held <= ends[n]
            &&& n < covers.len() ==> held <= 10485760
            &&& n == covers.len() ==> held == 0
            &&& forall|i: int|
                0 <= i < reports.len() && (n < covers.len() || i < reports.len() - 1)
                    ==> #[trigger] reports[i] > 10485760
            &&& n == covers.len() && n > 0 ==> reports.len() > 0
        }),
    decreases n,
{
    if n > 0 {
        law_passed_on(covers, ends, n - 1);
        let (reports, held) = passed_on(covers, ends, n - 1);
        assert(covers[n - 1].next_cover_index == covers.len() - n);
        assert(ends[n - 1] <= ends[n]);
        assert(ends[n] <= ends[covers.len() as int]);
    }
}

/// A cover of a KrDiff patch whose place lies behind the old data stops the patch, with the
/// bytes of its gap written, unless it takes no old bytes over. At the end of the old data, it
/// is for want of bytes that it stops.
pub proof fn law_kr_cover_beyond(
    st: KrModel,
    cover: KrCover,
    contents: Seq<u8>,
    capacity: int,
    gap: Seq<u8>,
    rest: Seq<u8>,
)
    requires
        st.data == gap + rest,
        gap.len() == cover.new_pos_gap,
        st.out.len() + gap.len() <= capacity,
        contents.len() <= st.read_pos + cover.old_pos_delta <= i64::MAX,
    ensures
        if cover.length > 0 {
            kr_cover_applied(st, cover, 0, contents, capacity) == Err::<KrModel, KrStop>(
                KrStop {
                    error: if contents.len() < st.read_pos + cover.old_pos_delta {
                        PatchError::SeekBeyondEnd
                    } else {
                        PatchError::UnexpectedEof
                    },
                    out: st.out + gap,
                    reports: st.reports,
                },
            )
        } else {
            kr_cover_applied(st, cover, 0, contents, capacity) matches Ok(st1) && {
                &&& st1.out == st.out + gap
                &&& st1.data == rest
                &&& st1.read_pos == st.read_pos + cover.old_pos_delta
            }
        },
{
    law_copied_if_room(st.data.len() as int, gap.len() as int, capacity - st.out.len());
    assert(st.data.take(gap.len() as int) =~= gap);
    assert(st.data.skip(gap.len() as int) =~= rest);
    let end = contents.len() as int;
    assert(st.out + gap + contents.subrange(end, end) =~= st.out + gap);
}

/// A cover of a KrDiff patch that the old data or the room for new data ends within stops the
/// patch, with the bytes of its gap written, and behind them the pieces of 65536 old bytes before
/// the one that is not there, or as many old bytes as there is room for.
pub proof fn law_kr_cover_cut(
    st: KrModel,
    cover: KrCover,
    contents: Seq<u8>,
    capacity: int,
    gap: Seq<u8>,
    rest: Seq<u8>,
)
    requires
        st.data == gap + rest,
        gap.len() == cover.new_pos_gap,
        st.out.len() + gap.len() <= capacity,
        0 <= st.read_pos + cover.old_pos_delta <= contents.len() <= i64::MAX,
        ({
            ||| contents.len() < st.read_pos + cover.old_pos_delta + cover.length
            ||| capacity < st.out.len() + gap.len() + cover.length
        }),
    ensures
        ({
            let place = st.read_pos + cover.old_pos_delta;
            let available = contents.len() - place;
            let room = capacity - st.out.len() - gap.len();
            let old_first = available < cover.length && (cover.length <= room || whole_of(
                available,
            ) <= whole_of(room));
            kr_cover_applied(st, cover, 0, contents, capacity) matches Err(stop) && {
                &&& stop.reports == st.reports
                &&& old_first ==> stop.error == PatchError::UnexpectedEof && stop.out == st.out
                    + gap + contents.subrange(place, place + whole_of(available))
                &&& !old_first ==> stop.error == PatchError::WriteZero && stop.out == st.out + gap
                    + contents.subrange(place, place + room)
            }
        }),
{
    let place = st.read_pos + cover.old_pos_delta;
    law_copied_if_room(st.data.len() as int, gap.len() as int, capacity - st.out.len());
    assert(st.data.take(gap.len() as int) =~= gap);
    assert(st.data.skip(gap.len() as int) =~= rest);
    law_copying_stops(
        contents.len() - place,
        cover.length as int,
        capacity - st.out.len() - gap.len(),
    );
}

/// A cover of a KrDiff patch whose gap is longer than the new bytes that are left stops the
/// patch, with the pieces of 65536 of them written that are whole.
pub proof fn law_kr_gap_cut(
    st: KrModel,
    cover: KrCover,
    old_ref_size: u64,
    contents: Seq<u8>,
    capacity: int,
)
    requires
        st.data.len() < cover.new_pos_gap,
        st.out.len() + cover.new_pos_gap <= capacity,
        old_ref_size <= i64::MAX,
    ensures
        kr_cover_applied(st, cover, old_ref_size, contents, capacity) == Err::<KrModel, KrStop>(
            KrStop {
                error: PatchError::UnexpectedEof,
                out: st.out + st.data.take(whole_of(st.data.len() as int)),
                reports: st.reports,
            },
        ),
{
    law_copying_stops(
        st.data.len() as int,
        cover.new_pos_gap as int,
        capacity - st.out.len(),
    );
}

/// A KrDiff patch whose old data has a size that no `i64` holds makes nothing of a cover.
pub proof fn law_kr_size_refused(
    st: KrModel,
    cover: KrCover,
    old_ref_size: u64,
    contents: Seq<u8>,
    capacity: int,
)
    requires
        i64::MAX < old_ref_size,
    ensures
        kr_cover_applied(st, cover, old_ref_size, contents, capacity) == Err::<KrModel, KrStop>(
            KrStop { error: PatchError::Malformed, out: st.out, reports: st.reports },
        ),
{
}

/// A KrDiff patch is refused, before any file is made, where it has files to patch and there
/// are no old ones, and where a number or memory cannot hold the files. It makes no use of old
/// files where it lists no old files or no new ones.
pub proof fn law_kr_set_up(hd19: KrHd19Model, old_files: Seq<Vec<u8>>)
    ensures
        ({
            let nothing = hd19.head.old_files.len() == 0 || hd19.head.new_files.len() == 0;
            let fits = sizes_fit(sizes_of(hd19.head.new_files));
            let old = joined(old_files, old_files.len() as int);
            match kr_set_up(hd19, old_files) {
                Ok(made_of_old) => {
                    &&& fits
                    &&& made_of_old <==> !nothing
                    &&& made_of_old ==> old_files.len() > 0 && old.len() <= u64::MAX
                },
                Err(e) => {
                    ||| e == PatchError::NoStreams && !nothing && old_files.len() == 0
                    ||| {
                        &&& e == PatchError::Malformed
                        &&& !fits || !nothing && old.len() > u64::MAX
                        &&& nothing || old_files.len() > 0
                    }
                },
            }
        }),
{
}

/// What a failed patch of a file leaves in the output: all that stood there before, and behind
/// it nothing but a front of the new data that there would have been. Where the old file has
/// another size than the header gives, that is nothing.
pub proof fn law_output_kept(
    patch: Seq<u8>,
    header: HeaderModel,
    old: Seq<u8>,
    e: PatchError,
    before: Seq<u8>,
    after: Seq<u8>,
)
    requires
        file_fails(patch, header, old, e, before, after),
    ensures
        before.len() <= after.len(),
        after.take(before.len() as int) == before,
        as_signed(old.len() as int) != header.old_data_size ==> after.len() == before.len(),
        as_signed(old.len() as int) == header.old_data_size && !header.is_single_compressed_diff
            ==> (file_patched_in_chunks(patch, header, old) matches Ok((data, _)) ==> after.len()
            <= before.len() + data.len() && after == (before + data).take(after.len() as int)),
{
    assert(after.take(before.len() as int) =~= before);
    if as_signed(old.len() as int) == header.old_data_size && !header.is_single_compressed_diff {
        if let Ok((data, _)) = file_patched_in_chunks(patch, header, old) {
            assert(after =~= (before + data).take(after.len() as int));
        }
    }
}

/// What a failure leaves in an output that may hold a front of some data holds what was there
/// before, and no more of the data than there is.
pub proof fn law_front_held(before: Seq<u8>, after: Seq<u8>, data: Seq<u8>)
    ensures
        holds_front(before, after, Some(data)) <==> exists|n: int|
            0 <= n <= data.len() && after == before + #[trigger] data.take(n),
{
    if holds_front(before, after, Some(data)) {
        let n = after.len() - before.len();
        assert(after =~= before + data.take(n));
    }
    if exists|n: int| 0 <= n <= data.len() && after == before + #[trigger] data.take(n) {
        let n = choose|n: int| 0 <= n <= data.len() && after == before + #[trigger] data.take(n);
        assert(before =~= after.subrange(0, before.len() as int));
        assert(after =~= (before + data).subrange(0, after.len() as int));
    }
}

/// A patch which is compressed as a whole that fails for another reason than the decompressor
/// leaves just what it made up to there behind what the output held.
pub proof fn law_stopped_output(
    stop: SfStop,
    data: Seq<u8>,
    rest: Seq<u8>,
    e: PatchError,
    before: Seq<u8>,
    after: Seq<u8>,
    fallible: bool,
)
    ensures
        sf_fails(Err(stop), e, before, after, fallible) && e != PatchError::Decoder ==> e
            == stop.error && after == before + stop.out,
        sf_fails(Err(stop), e, before, after, false) ==> e == stop.error && after == before
            + stop.out,
        sf_fails(Err(stop), stop.error, before, before + stop.out, fallible),
        !sf_fails(Ok((data, rest)), e, before, after, false),
{
}

/// A KrDiff patch that goes through makes all of the new data, and one that fails for another
/// reason than the decompressor what it made up to there.
pub proof fn law_kr_ends(
    all: Result<(Seq<u8>, Seq<i64>), KrStop>,
    r: Result<(), PatchError>,
    out: Seq<u8>,
    reports: Seq<i64>,
    fallible: bool,
)
    requires
        kr_ends(all, r, out, reports, fallible),
    ensures
        r is Ok ==> all == Ok::<(Seq<u8>, Seq<i64>), KrStop>((out, reports)),
        r matches Err(e) ==> e != PatchError::Decoder || !fallible ==> all == Err::<
            (Seq<u8>, Seq<i64>),
            KrStop,
        >(KrStop { error: e, out, reports }),
        r is Err && fallible ==> match all {
            Ok((data, _)) => out.len() <= data.len() && out == data.take(out.len() as int),
            Err(stop) => out.len() <= stop.out.len() && out == stop.out.take(out.len() as int),
        },
{
    match all {
        Ok((data, _)) => {
            if out.is_prefix_of(data) {
                assert(out =~= data.take(out.len() as int));
            }
        },
        Err(stop) => {
            if out.is_prefix_of(stop.out) {
                assert(out =~= stop.out.take(out.len() as int));
            }
        },
    }
}

} // verus!
