//! How the streams of a patch of one file are written, and the laws that applying
//! the patch gives back the new data that it was written for.
use crate::patch_core::{
    base_of, cover_headers, cover_of, covered, covers_left, covers_of, extended, filled_to, fresh_rle,
    law_differences_restore, new_data_of, new_end, old_end, patched, whole_base, BaseModel, ClipsModel,
};
use crate::rle::differences;
use crate::structs::CoverHeader;
use crate::written::{law_signed_number_read_back, number, tagged_number, unsigned};
use crate::written_runs::{
    is_run, law_runs_read_back, none_open, runs_bytes, runs_code, runs_ctrl, Run,
};
use vstd::prelude::*;

verus! {

/// A cover as it is written behind ones that end at `old_back` in the old data and
/// at `new_back` in the new: how far its place in the old data lies from there, with
/// a tag for whether it lies before it, the gap in the new data, and its length.
pub open spec fn cover_written(
    old_back: int,
    new_back: int,
    is_before: bool,
    cover: CoverHeader,
) -> Seq<u8> {
    let distance = if is_before {
        tagged_number(1, 1, unsigned(old_back - cover.old_pos))
    } else {
        tagged_number(1, 0, unsigned(cover.old_pos - old_back))
    };
    distance + (number(unsigned(cover.new_pos - new_back)) + number(
        unsigned(cover.cover_length as int),
    ))
}

/// Whether an `i64` holds a number.
pub open spec fn in_range(v: int) -> bool {
    -0x8000_0000_0000_0000 <= v <= 0x7fff_ffff_ffff_ffff
}

/// Reading undoes writing for covers, whichever way the distance in the old data is
/// written: the cover that is read is the one that was written. There is none where
/// it does not end in the range of an `i64` in both the old and the new data.
#[verifier::rlimit(40)]
pub proof fn law_cover_read_back(
    old_back: int,
    new_back: int,
    is_before: bool,
    cover: CoverHeader,
    rest: Seq<u8>,
)
    requires
        in_range(old_back - cover.old_pos),
        in_range(cover.old_pos - old_back),
        in_range(cover.new_pos - new_back),
    ensures
        cover_of(
            cover_written(old_back, new_back, is_before, cover) + rest,
            old_back,
            new_back,
            cover.next_cover_index as int,
        ) == if in_range(cover.old_pos + cover.cover_length) && in_range(
            cover.new_pos + cover.cover_length,
        ) {
            Some((cover, rest))
        } else {
            None
        },
{
    let s = cover_written(old_back, new_back, is_before, cover) + rest;
    let distance = if is_before {
        old_back - cover.old_pos
    } else {
        cover.old_pos - old_back
    };
    let tag = if is_before {
        1int
    } else {
        0int
    };
    let gap = cover.new_pos - new_back;
    let behind_gap = number(unsigned(cover.cover_length as int)) + rest;
    let behind_distance = number(unsigned(gap)) + behind_gap;
    assert(s =~= tagged_number(1, tag, unsigned(distance)) + behind_distance);
    law_signed_number_read_back(tag, distance as i64, behind_distance);
    law_signed_number_read_back(tag, gap as i64, behind_gap);
    law_signed_number_read_back(tag, cover.cover_length, rest);
}

/// A cover whose place leaves the range of an `i64`, in the old data or in the new,
/// is not read.
pub proof fn law_cover_out_of_range(
    old_back: int,
    new_back: int,
    is_before: bool,
    distance: i64,
    gap: i64,
    length: i64,
    remaining: int,
    rest: Seq<u8>,
)
    requires
        ({
            ||| is_before && !in_range(old_back - distance)
            ||| !is_before && !in_range(old_back + distance)
            ||| !in_range(new_back + gap)
        }),
    ensures
        cover_of(
            tagged_number(
                1,
                if is_before {
                    1
                } else {
                    0
                },
                unsigned(distance as int),
            ) + (number(unsigned(gap as int)) + (number(unsigned(length as int)) + rest)),
            old_back,
            new_back,
            remaining,
        ) is None,
{
    let tag = if is_before {
        1int
    } else {
        0int
    };
    let behind_gap = number(unsigned(length as int)) + rest;
    let behind_distance = number(unsigned(gap as int)) + behind_gap;
    law_signed_number_read_back(tag, distance, behind_distance);
    law_signed_number_read_back(tag, gap, behind_gap);
    law_signed_number_read_back(tag, length, rest);
}

/// Where covers end in the old data.
pub open spec fn end_in_old(covers: Seq<CoverHeader>) -> int {
    if covers.len() == 0 {
        0
    } else {
        covers[covers.len() - 1].old_pos + covers[covers.len() - 1].cover_length
    }
}

/// Where covers end in the new data.
pub open spec fn end_in_new(covers: Seq<CoverHeader>) -> int {
    if covers.len() == 0 {
        0
    } else {
        covers[covers.len() - 1].new_pos + covers[covers.len() - 1].cover_length
    }
}

/// Covers as they are written one behind the other.
pub open spec fn covers_written(covers: Seq<CoverHeader>) -> Seq<u8>
    decreases covers.len(),
{
    if covers.len() == 0 {
        Seq::empty()
    } else {
        let before = covers.drop_last();
        covers_written(before) + cover_written(
            end_in_old(before),
            end_in_new(before),
            covers.last().old_pos < end_in_old(before),
            covers.last(),
        )
    }
}

/// Whether covers can stand in a list of `count`: their places and ends are ones, and
/// each says how many stand behind it.
pub open spec fn are_covers(covers: Seq<CoverHeader>, count: int) -> bool {
    &&& covers.len() <= count
    &&& forall|i: int|
        0 <= i < covers.len() ==> {
            &&& 0 <= (#[trigger] covers[i]).old_pos
            &&& 0 <= covers[i].new_pos
            &&& 0 <= covers[i].cover_length
            &&& covers[i].old_pos + covers[i].cover_length <= i64::MAX
            &&& covers[i].new_pos + covers[i].cover_length <= i64::MAX
            &&& covers[i].next_cover_index == count - 1 - i
        }
}

/// Reading undoes writing for lists of covers, in whatever order they stand.
pub proof fn law_covers_read_back(covers: Seq<CoverHeader>, count: int, rest: Seq<u8>)
    requires
        are_covers(covers, count),
    ensures
        covers_of(covers_written(covers) + rest, covers.len() as int, count) == Some(
            (covers, rest),
        ),
    decreases covers.len(),
{
    if covers.len() == 0 {
        assert(covers =~= Seq::empty());
        assert(covers_written(covers) + rest =~= rest);
    } else {
        let before = covers.drop_last();
        let last = covers.last();
        assert(are_covers(before, count)) by {
            assert forall|i: int| 0 <= i < before.len() implies before[i] == covers[i] by {}
        }
        assert(last == covers[covers.len() - 1]);
        if before.len() > 0 {
            assert(before.last() == covers[before.len() - 1]);
        }
        assert(end_in_old(before) == old_end(before));
        assert(end_in_new(before) == new_end(before));
        let is_before = last.old_pos < end_in_old(before);
        let more = cover_written(end_in_old(before), end_in_new(before), is_before, last) + rest;
        law_covers_read_back(before, count, more);
        assert(covers_written(covers) + rest =~= covers_written(before) + more);
        law_cover_read_back(end_in_old(before), end_in_new(before), is_before, last, rest);
        assert(before.push(last) =~= covers);
    }
}

/// A cover stream gives all its covers back, whatever size it has and whatever stands
/// behind it, which is left.
pub proof fn law_cover_stream_read_back(covers: Seq<CoverHeader>, rest: Seq<u8>)
    requires
        are_covers(covers, covers.len() as int),
    ensures
        ({
            let written = covers_written(covers);
            let (size, count) = (written.len() as int, covers.len() as int);
            &&& cover_headers(written + rest, size, count) == Some(covers)
            &&& covers_left(written + rest, size, count) == rest
        }),
{
    let written = covers_written(covers);
    law_covers_read_back(covers, covers.len() as int, rest);
    law_covers_read_back(covers, covers.len() as int, Seq::empty());
    assert((written + rest).take(written.len() as int) =~= written + Seq::<u8>::empty());
    assert((written + rest).skip(written.len() as int) =~= rest);
}

/// Whether new data of `size` bytes can take these covers over from old data: each
/// lies in both, and none starts before the one before it ends.
pub open spec fn can_cover(covers: Seq<CoverHeader>, old_size: int, size: int) -> bool {
    forall|i: int|
        0 <= i < covers.len() ==> {
            &&& 0 <= (#[trigger] covers[i]).old_pos
            &&& 0 <= covers[i].cover_length
            &&& covers[i].old_pos + covers[i].cover_length <= old_size
            &&& end_in_new(covers.take(i)) <= covers[i].new_pos
            &&& covers[i].new_pos + covers[i].cover_length <= size
        }
}

/// Whether `base` holds under each cover what the old data holds there.
pub open spec fn agrees(covers: Seq<CoverHeader>, contents: Seq<u8>, base: Seq<u8>) -> bool {
    forall|i: int, k: int|
        0 <= i < covers.len() && 0 <= k < covers[i].cover_length ==> base[covers[i].new_pos + k]
            == #[trigger] contents[covers[i].old_pos + k]
}

/// The bytes of `base` in the gaps before the covers, one gap behind the other.
pub open spec fn gaps_of(covers: Seq<CoverHeader>, base: Seq<u8>) -> Seq<u8>
    decreases covers.len(),
{
    if covers.len() == 0 {
        Seq::empty()
    } else {
        gaps_of(covers.drop_last(), base) + base.subrange(
            end_in_new(covers.drop_last()),
            covers.last().new_pos as int,
        )
    }
}

/// The bytes of `base` that no cover takes over.
pub open spec fn uncovered(covers: Seq<CoverHeader>, base: Seq<u8>) -> Seq<u8> {
    gaps_of(covers, base) + base.subrange(end_in_new(covers), base.len() as int)
}

/// Covers that lie in order lie so without the last.
proof fn lemma_can_cover_fewer(
    covers: Seq<CoverHeader>,
    contents: Seq<u8>,
    base: Seq<u8>,
)
    requires
        covers.len() > 0,
        can_cover(covers, contents.len() as int, base.len() as int),
        agrees(covers, contents, base),
    ensures
        can_cover(covers.drop_last(), contents.len() as int, base.len() as int),
        agrees(covers.drop_last(), contents, base),
        0 <= end_in_new(covers.drop_last()) <= covers.last().new_pos,
    decreases covers.len(),
{
    let before = covers.drop_last();
    let n = covers.len() - 1;
    assert forall|i: int| 0 <= i < before.len() implies before[i] == covers[i] && before.take(i)
        =~= covers.take(i) by {}
    assert(can_cover(before, contents.len() as int, base.len() as int)) by {
        assert forall|i: int| 0 <= i < before.len() implies {
            &&& 0 <= (#[trigger] before[i]).old_pos
            &&& 0 <= before[i].cover_length
            &&& before[i].old_pos + before[i].cover_length <= contents.len()
            &&& end_in_new(before.take(i)) <= before[i].new_pos
            &&& before[i].new_pos + before[i].cover_length <= base.len()
        } by {
            assert(before[i] == covers[i]);
            assert(before.take(i) =~= covers.take(i));
        }
    }
    assert(agrees(before, contents, base)) by {
        assert forall|i: int, k: int|
            0 <= i < before.len() && 0 <= k < before[i].cover_length implies base[before[i].new_pos
            + k] == #[trigger] contents[before[i].old_pos + k] by {
            assert(before[i] == covers[i]);
            assert(contents[covers[i].old_pos + k] == base[covers[i].new_pos + k]);
        }
    }
    assert(covers.take(n) =~= before);
    assert(covers[n] == covers.last());
    if before.len() > 0 {
        lemma_can_cover_fewer(before, contents, base);
        assert(before[before.len() - 1].cover_length >= 0);
        assert(before.last().new_pos >= 0);
    }
}

/// A cover and the gap before it put the base together as far as the cover reaches.
#[verifier::rlimit(40)]
proof fn lemma_cover_put_on(
    cover: CoverHeader,
    contents: Seq<u8>,
    last_position: int,
    base: Seq<u8>,
    back: int,
    rest: Seq<u8>,
)
    requires
        contents.len() <= last_position,
        base.len() <= i64::MAX,
        0 <= back <= cover.new_pos,
        0 <= cover.cover_length,
        0 <= cover.old_pos,
        cover.old_pos + cover.cover_length <= contents.len(),
        cover.new_pos + cover.cover_length <= base.len(),
        forall|k: int|
            0 <= k < cover.cover_length ==> base[cover.new_pos + k]
                == #[trigger] contents[cover.old_pos + k],
    ensures
        extended(
            BaseModel {
                bytes: base.take(back),
                back,
                diff: base.subrange(back, cover.new_pos as int) + rest,
            },
            contents,
            last_position,
            cover,
        ) == Some(
            BaseModel {
                bytes: base.take(cover.new_pos + cover.cover_length),
                back: cover.new_pos + cover.cover_length,
                diff: rest,
            },
        ),
{
    let gap = base.subrange(back, cover.new_pos as int);
    let b = BaseModel { bytes: base.take(back), back, diff: gap + rest };
    let (start, end) = (cover.new_pos as int, cover.new_pos + cover.cover_length);
    let (old_start, old_stop) = (cover.old_pos as int, cover.old_pos + cover.cover_length);
    assert((gap + rest).take(gap.len() as int) =~= gap);
    assert((gap + rest).skip(gap.len() as int) =~= rest);
    assert(base.take(back) + gap =~= base.take(start));
    if gap.len() == 0 {
        assert(gap + rest =~= rest);
        assert(base.take(back) =~= base.take(start));
    }
    let filled = BaseModel { bytes: base.take(start), back: start, diff: rest };
    assert(filled_to(b, start) == Some(filled));
    assert forall|k: int| 0 <= k < cover.cover_length implies #[trigger] base.subrange(
        start,
        end,
    )[k] == contents.subrange(old_start, old_stop)[k] by {
        assert(contents[cover.old_pos + k] == base[cover.new_pos + k]);
    }
    assert(base.subrange(start, end) =~= contents.subrange(old_start, old_stop));
    if cover.cover_length == 0 {
        assert(base.subrange(start, end) =~= Seq::<u8>::empty());
    }
    assert(covered(contents, last_position, cover) == Some(base.subrange(start, end)));
    assert(base.take(start) + base.subrange(start, end) =~= base.take(end));
}

/// The covers and the bytes in the gaps put the base together as far as the covers
/// reach.
#[verifier::rlimit(40)]
proof fn lemma_base_put_together(
    covers: Seq<CoverHeader>,
    contents: Seq<u8>,
    last_position: int,
    base: Seq<u8>,
    rest: Seq<u8>,
)
    requires
        contents.len() <= last_position,
        base.len() <= i64::MAX,
        can_cover(covers, contents.len() as int, base.len() as int),
        agrees(covers, contents, base),
    ensures
        0 <= end_in_new(covers) <= base.len(),
        base_of(covers, contents, last_position, gaps_of(covers, base) + rest) == Some(
            BaseModel {
                bytes: base.take(end_in_new(covers)),
                back: end_in_new(covers),
                diff: rest,
            },
        ),
    decreases covers.len(),
{
    if covers.len() == 0 {
        assert(gaps_of(covers, base) + rest =~= rest);
        assert(base.take(0) =~= Seq::empty());
    } else {
        let before = covers.drop_last();
        let last = covers.last();
        let n = covers.len() - 1;
        lemma_can_cover_fewer(covers, contents, base);
        let gap = base.subrange(end_in_new(before), last.new_pos as int);
        lemma_base_put_together(before, contents, last_position, base, gap + rest);
        assert(gaps_of(covers, base) + rest =~= gaps_of(before, base) + (gap + rest));
        assert(covers[n] == last);
        assert forall|k: int| 0 <= k < last.cover_length implies base[last.new_pos + k]
            == #[trigger] contents[last.old_pos + k] by {
            assert(contents[covers[n].old_pos + k] == base[covers[n].new_pos + k]);
        }
        lemma_cover_put_on(last, contents, last_position, base, end_in_new(before), rest);
    }
}

/// The difference bytes that turn one sequence into another.
pub open spec fn difference(from: Seq<u8>, to: Seq<u8>) -> Seq<u8> {
    Seq::new(from.len(), |i: int| ((to[i] - from[i]) % 256) as u8)
}

/// Applying undoes writing: for any new data and any covers in it, with any bytes in
/// the gaps between, the covers, the bytes of the gaps and the differences between
/// these and the new data make just the new data.
#[verifier::rlimit(40)]
pub proof fn law_new_data_restored(
    covers: Seq<CoverHeader>,
    contents: Seq<u8>,
    last_position: int,
    base: Seq<u8>,
    wanted: Seq<u8>,
    runs: Seq<Run>,
    diff: Seq<u8>,
    ctrl: Seq<u8>,
    code: Seq<u8>,
)
    requires
        contents.len() <= last_position,
        base.len() == wanted.len(),
        wanted.len() <= i64::MAX,
        can_cover(covers, contents.len() as int, base.len() as int),
        agrees(covers, contents, base),
        forall|i: int| 0 <= i < runs.len() ==> is_run(#[trigger] runs[i]),
        runs_bytes(runs) == difference(base, wanted),
    ensures
        new_data_of(
            covers,
            contents,
            last_position,
            uncovered(covers, base) + diff,
            wanted.len() as int,
            runs_ctrl(runs) + ctrl,
            runs_code(runs) + code,
        ) == Some(wanted),
{
    let end = end_in_new(covers);
    let tail = base.subrange(end, base.len() as int);
    lemma_base_put_together(covers, contents, last_position, base, tail + diff);
    assert(uncovered(covers, base) + diff =~= gaps_of(covers, base) + (tail + diff));
    assert((tail + diff).take(tail.len() as int) =~= tail);
    assert(base.take(end) + tail =~= base);
    if end == base.len() {
        assert(base.take(end) =~= base);
    }
    assert(whole_base(
        covers,
        contents,
        last_position,
        uncovered(covers, base) + diff,
        wanted.len() as int,
    ) == Some(base));
    law_runs_read_back(runs, 0, ctrl, code);
    assert(none_open(0, runs_ctrl(runs) + ctrl, runs_code(runs) + code) == fresh_rle(
        runs_ctrl(runs) + ctrl,
        runs_code(runs) + code,
    ));
    let differing = (differences(
        fresh_rle(runs_ctrl(runs) + ctrl, runs_code(runs) + code),
        base.len() as int,
    )->0).0;
    assert(differing == difference(base, wanted));
    law_differences_restore(
        covers,
        contents,
        last_position,
        uncovered(covers, base) + diff,
        wanted.len() as int,
        runs_ctrl(runs) + ctrl,
        runs_code(runs) + code,
        wanted,
    );
}

/// Applying undoes writing for whole patches: where the four streams are written for
/// some new data, with any covers and any bytes between them, the patch makes that new
/// data out of the old.
pub proof fn law_patch_restores(
    covers: Seq<CoverHeader>,
    contents: Seq<u8>,
    last_position: int,
    base: Seq<u8>,
    wanted: Seq<u8>,
    runs: Seq<Run>,
    behind: ClipsModel,
)
    requires
        contents.len() <= last_position,
        contents.len() <= i64::MAX,
        base.len() == wanted.len(),
        wanted.len() <= i64::MAX,
        can_cover(covers, contents.len() as int, base.len() as int),
        forall|i: int|
            0 <= i < covers.len() ==> (#[trigger] covers[i]).next_cover_index == covers.len() - 1
                - i,
        agrees(covers, contents, base),
        forall|i: int| 0 <= i < runs.len() ==> is_run(#[trigger] runs[i]),
        runs_bytes(runs) == difference(base, wanted),
    ensures
        patched(
            ClipsModel {
                cover: covers_written(covers) + behind.cover,
                rle_ctrl: runs_ctrl(runs) + behind.rle_ctrl,
                rle_code: runs_code(runs) + behind.rle_code,
                new_data_diff: uncovered(covers, base) + behind.new_data_diff,
            },
            contents,
            last_position,
            covers.len() as int,
            covers_written(covers).len() as int,
            wanted.len() as int,
        ) == Some(wanted),
{
    assert forall|i: int| 0 <= i < covers.len() implies 0 <= (#[trigger] covers[i]).new_pos by {
        lemma_end_is_place(covers, contents, base, i);
    }
    law_cover_stream_read_back(covers, behind.cover);
    law_new_data_restored(
        covers,
        contents,
        last_position,
        base,
        wanted,
        runs,
        behind.new_data_diff,
        behind.rle_ctrl,
        behind.rle_code,
    );
}

/// Covers that lie in order start at no negative place.
proof fn lemma_end_is_place(covers: Seq<CoverHeader>, contents: Seq<u8>, base: Seq<u8>, i: int)
    requires
        0 <= i < covers.len(),
        can_cover(covers, contents.len() as int, base.len() as int),
    ensures
        0 <= covers[i].new_pos,
    decreases i,
{
    assert(end_in_new(covers.take(i)) <= covers[i].new_pos);
    if i > 0 {
        lemma_end_is_place(covers, contents, base, i - 1);
        assert(covers.take(i)[i - 1] == covers[i - 1]);
        assert(0 <= covers[i - 1].cover_length);
    }
}

} // verus!
