//! How a patch that is compressed as a whole is written before it is compressed, and
//! the laws that applying it gives back the new data that it was written for.
use crate::error::PatchError;
use crate::parser::{byte_of, long_7bit_of, long_7bit_tagged_of, longs_of};
use crate::patch_sf::{
    cover_applied, cover_pieces, covers_applied, gap_filled, law_cover_pieces,
    lemma_sf_cover_shrinks, lemma_step_shrinks, sf_cover_of, sf_patched, sf_start, step_applied,
    steps_applied, wrapped, OldModel, SfCover, SfModel, SfStop,
};
use crate::rle::added_at;
use crate::rle0::{
    law_zero_differences_split, lemma_zero_differences_len, zero_differences,
    zero_differences_in_two, Rle0Model,
};
use crate::varint::as_unsigned;
use crate::written::{
    is_tag, law_number_read_back, law_tagged_number_read_back, number, room, tagged_number,
};
use crate::written_patch::difference;
use crate::written_runs::{
    law_stretches_read_back, stretches_bytes, stretches_written, Stretch,
};
use vstd::prelude::*;

verus! {

/// How far `to` lies behind `from`, where places go round.
pub open spec fn distance(from: int, to: int) -> int {
    if from <= to {
        to - from
    } else {
        to - from + u64::MAX + 1
    }
}

/// A cover as it is written behind one that ends at `old_end` in the old data and at
/// `new_end` in the new: its distance from there in the old data, with a tag for
/// whether it lies before it, the gap in the new data, and its length.
pub open spec fn sf_cover_written(
    old_end: int,
    new_end: int,
    is_before: bool,
    cover: SfCover,
) -> Seq<u8> {
    let place = if is_before {
        tagged_number(1, 1, distance(cover.old_pos as int, old_end))
    } else {
        tagged_number(1, 0, distance(old_end, cover.old_pos as int))
    };
    place + (number(distance(new_end, cover.new_pos as int)) + number(cover.length as int))
}

/// Numbers without a sign are read back, tagged with a sign or not.
proof fn lemma_unsigned_read_back(tag: int, v: int, rest: Seq<u8>)
    requires
        0 <= tag <= 1,
        0 <= v <= u64::MAX,
    ensures
        long_7bit_of(number(v) + rest) matches Ok((x, left)) && as_unsigned(x) == v && left == rest,
        ({
            let s = tagged_number(1, tag, v) + rest;
            &&& byte_of(s) == Ok::<(u8, Seq<u8>), PatchError>((s[0], s.skip(1)))
            &&& s[0] < 128 <==> tag == 0
            &&& long_7bit_tagged_of(1, s[0], s.skip(1)) matches Ok((x, left)) && as_unsigned(x) == v
                && left == rest
        }),
{
    reveal_with_fuel(room, 3);
    assert(is_tag(1, tag));
    assert(room(1) == 64);
    law_tagged_number_read_back(1, tag, v, rest);
    law_number_read_back(v, rest);
    let s = tagged_number(1, tag, v) + rest;
    assert(s[0] as int / (2 * room(1)) == tag);
    assert(s[0] as int / 128 == tag);
}

/// Going so far from a place leads to the other, either way round.
proof fn lemma_distance(from: u64, to: u64)
    ensures
        0 <= distance(from as int, to as int) <= u64::MAX,
        wrapped(from + distance(from as int, to as int)) == to,
        wrapped(to - distance(from as int, to as int)) == from,
{
}

/// Reading undoes writing for covers: the cover that is read is the one that was
/// written, where it lies before the end of the last one as where it does not.
#[verifier::rlimit(40)]
pub proof fn law_sf_cover_read_back(
    old_end: u64,
    new_end: u64,
    is_before: bool,
    cover: SfCover,
    rest: Seq<u8>,
)
    ensures
        sf_cover_of(
            sf_cover_written(old_end as int, new_end as int, is_before, cover) + rest,
            old_end,
            new_end,
        ) == Ok::<(SfCover, Seq<u8>), PatchError>((cover, rest)),
{
    let (tag, place) = if is_before {
        (1int, distance(cover.old_pos as int, old_end as int))
    } else {
        (0int, distance(old_end as int, cover.old_pos as int))
    };
    let gap = distance(new_end as int, cover.new_pos as int);
    let behind_gap = number(cover.length as int) + rest;
    let behind_place = number(gap) + behind_gap;
    let s = sf_cover_written(old_end as int, new_end as int, is_before, cover) + rest;
    assert(s =~= tagged_number(1, tag, place) + behind_place);
    lemma_distance(old_end, cover.old_pos);
    lemma_distance(cover.old_pos, old_end);
    lemma_distance(new_end, cover.new_pos);
    lemma_unsigned_read_back(tag, place, behind_place);
    lemma_unsigned_read_back(0, gap, behind_gap);
    lemma_unsigned_read_back(0, cover.length as int, rest);
}

/// A part of new data: bytes that stand in the patch, and behind them those that a
/// cover makes out of old data.
pub struct SfPart {
    pub gap: Seq<u8>,
    pub cover: SfCover,
    pub made: Seq<u8>,
}

/// The new data of parts.
pub open spec fn parts_data(parts: Seq<SfPart>) -> Seq<u8>
    decreases parts.len(),
{
    if parts.len() == 0 {
        Seq::empty()
    } else {
        parts[0].gap + parts[0].made + parts_data(parts.skip(1))
    }
}

/// The bytes of parts that stand in the patch.
pub open spec fn parts_gaps(parts: Seq<SfPart>) -> Seq<u8>
    decreases parts.len(),
{
    if parts.len() == 0 {
        Seq::empty()
    } else {
        parts[0].gap + parts_gaps(parts.skip(1))
    }
}

/// The differences between the old data under the covers and what the covers make.
pub open spec fn parts_differences(parts: Seq<SfPart>, contents: Seq<u8>) -> Seq<u8>
    decreases parts.len(),
{
    if parts.len() == 0 {
        Seq::empty()
    } else {
        let cover = parts[0].cover;
        difference(
            contents.subrange(cover.old_pos as int, cover.old_pos + cover.length),
            parts[0].made,
        ) + parts_differences(parts.skip(1), contents)
    }
}

/// The covers of parts as they are written behind one that ends at `old_end` and at
/// `new_end`.
pub open spec fn parts_covers(old_end: int, new_end: int, parts: Seq<SfPart>) -> Seq<u8>
    decreases parts.len(),
{
    if parts.len() == 0 {
        Seq::empty()
    } else {
        let cover = parts[0].cover;
        sf_cover_written(old_end, new_end, cover.old_pos < old_end, cover) + parts_covers(
            cover.old_pos + cover.length,
            cover.new_pos + cover.length,
            parts.skip(1),
        )
    }
}

/// Whether parts fit behind new data that ends at `new_end`: each cover lies in the
/// old data, and starts in the new where the bytes before it end.
pub open spec fn parts_fit(new_end: int, parts: Seq<SfPart>, contents: Seq<u8>) -> bool
    decreases parts.len(),
{
    if parts.len() == 0 {
        true
    } else {
        let part = parts[0];
        let end = part.cover.new_pos + part.cover.length;
        &&& new_end + part.gap.len() == part.cover.new_pos
        &&& end <= u64::MAX
        &&& part.cover.old_pos + part.cover.length <= contents.len()
        &&& part.cover.old_pos + part.cover.length <= u64::MAX
        &&& part.made.len() == part.cover.length
        &&& parts_fit(end, parts.skip(1), contents)
    }
}

/// Where the last of some parts ends in the old data, or `end` where there is none.
pub open spec fn parts_old_end(end: int, parts: Seq<SfPart>) -> int {
    if parts.len() == 0 {
        end
    } else {
        parts.last().cover.old_pos + parts.last().cover.length
    }
}

/// Where the last of some parts ends in the new data, or `end` where there is none.
pub open spec fn parts_new_end(end: int, parts: Seq<SfPart>) -> int {
    if parts.len() == 0 {
        end
    } else {
        parts.last().cover.new_pos + parts.last().cover.length
    }
}

/// Adding the differences gives what they were taken to.
proof fn lemma_difference_added(from: Seq<u8>, to: Seq<u8>)
    requires
        from.len() == to.len(),
    ensures
        added_at(from, 0, difference(from, to)) == to,
{
    let sum = added_at(from, 0, difference(from, to));
    assert forall|i: int| 0 <= i < from.len() implies #[trigger] sum[i] == to[i] by {
        assert(difference(from, to)[i] == (to[i] - from[i]) % 256);
    }
    assert(sum =~= to);
}

/// One part is put behind the new data.
#[verifier::rlimit(40)]
proof fn lemma_part_applied(
    st: SfModel,
    old: OldModel,
    part: SfPart,
    rest: Seq<u8>,
    rle: Rle0Model,
    rle1: Rle0Model,
)
    requires
        old.piece > 0,
        old.contents.len() <= old.last_position,
        st.diff == part.gap + rest,
        st.new_end + part.gap.len() == part.cover.new_pos,
        part.cover.new_pos + part.cover.length <= u64::MAX,
        part.cover.old_pos + part.cover.length <= old.contents.len(),
        part.cover.old_pos + part.cover.length <= u64::MAX,
        part.made.len() == part.cover.length,
        rle.valid(),
        zero_differences(rle, part.cover.length as int) == Some(
            (
                difference(
                    old.contents.subrange(
                        part.cover.old_pos as int,
                        part.cover.old_pos + part.cover.length,
                    ),
                    part.made,
                ),
                rle1,
            ),
        ),
    ensures
        cover_applied(st, old, part.cover, rle) == Ok::<(SfModel, Rle0Model), SfStop>(
            (
                SfModel {
                    old_end: (part.cover.old_pos + part.cover.length) as u64,
                    new_end: (part.cover.new_pos + part.cover.length) as u64,
                    count: st.count - 1,
                    diff: rest,
                    out: st.out + part.gap + part.made,
                },
                rle1,
            ),
        ),
{
    let cover = part.cover;
    let st1 = SfModel { diff: rest, out: st.out + part.gap, ..st };
    assert((part.gap + rest).take(part.gap.len() as int) =~= part.gap);
    assert((part.gap + rest).skip(part.gap.len() as int) =~= rest);
    if part.gap.len() == 0 {
        assert(part.gap + rest =~= rest);
        assert(st.out + part.gap =~= st.out);
    }
    assert(gap_filled(st, old, cover) == Ok::<SfModel, SfStop>(st1));
    let under = old.contents.subrange(cover.old_pos as int, cover.old_pos + cover.length);
    if cover.length > 0 {
        law_cover_pieces(old, cover.old_pos as int, cover.length as int, rle);
        lemma_difference_added(under, part.made);
    } else {
        assert(part.made =~= Seq::<u8>::empty());
    }
    assert(cover_pieces(old, cover.old_pos as int, cover.length as int, rle) == (
        part.made,
        Ok::<Rle0Model, PatchError>(rle1),
    ));
}

/// Difference bytes that are read in one go can be read in two.
proof fn lemma_differences_divided(rle: Rle0Model, here: Seq<u8>, later: Seq<u8>)
    requires
        rle.valid(),
        zero_differences(rle, (here + later).len() as int) matches Some((bytes, _)) && bytes == here
            + later,
    ensures
        zero_differences(rle, here.len() as int) matches Some((first, rle1)) && {
            &&& first == here
            &&& rle1.valid()
            &&& zero_differences(rle1, later.len() as int) matches Some((second, _)) && second
                == later
        },
{
    law_zero_differences_split(rle, here.len() as int, later.len() as int);
    lemma_zero_differences_len(rle, here.len() as int);
    assert(zero_differences_in_two(rle, here.len() as int, later.len() as int) is Some);
    let (first, rle1) = zero_differences(rle, here.len() as int)->0;
    let (second, _) = zero_differences(rle1, later.len() as int)->0;
    lemma_zero_differences_len(rle1, later.len() as int);
    assert(first + second == here + later);
    assert(first =~= (first + second).take(here.len() as int));
    assert(here =~= (here + later).take(here.len() as int));
    assert(second =~= (first + second).skip(here.len() as int));
    assert(later =~= (here + later).skip(here.len() as int));
}

/// Applying undoes writing for the covers of a step: where the differences are those
/// of the parts and the bytes of the gaps come next in the patch, the parts stand
/// behind the new data.
#[verifier::rlimit(40)]
pub proof fn law_parts_restored(
    st: SfModel,
    old: OldModel,
    parts: Seq<SfPart>,
    rest: Seq<u8>,
    rle: Rle0Model,
)
    requires
        old.piece > 0,
        old.contents.len() <= old.last_position,
        parts_fit(st.new_end as int, parts, old.contents),
        parts.len() <= st.count,
        st.diff == parts_gaps(parts) + rest,
        rle.valid(),
        zero_differences(
            rle,
            parts_differences(parts, old.contents).len() as int,
        ) matches Some((bytes, _)) && bytes == parts_differences(parts, old.contents),
    ensures
        covers_applied(
            st,
            old,
            parts_covers(st.old_end as int, st.new_end as int, parts),
            rle,
        ) == Ok::<SfModel, SfStop>(
            SfModel {
                old_end: parts_old_end(st.old_end as int, parts) as u64,
                new_end: parts_new_end(st.new_end as int, parts) as u64,
                count: st.count - parts.len(),
                diff: rest,
                out: st.out + parts_data(parts),
            },
        ),
        parts_old_end(st.old_end as int, parts) <= u64::MAX,
        parts_new_end(st.new_end as int, parts) <= u64::MAX,
    decreases parts.len(),
{
    if parts.len() == 0 {
        assert(parts_gaps(parts) + rest =~= rest);
        assert(st.out + parts_data(parts) =~= st.out);
    } else {
        let part = parts[0];
        let cover = part.cover;
        let others = parts.skip(1);
        let all = parts_differences(parts, old.contents);
        let under = old.contents.subrange(cover.old_pos as int, cover.old_pos + cover.length);
        let here = difference(under, part.made);
        let later = parts_differences(others, old.contents);
        lemma_differences_divided(rle, here, later);
        let rle1 = (zero_differences(rle, here.len() as int)->0).1;
        let behind = parts_gaps(others) + rest;
        assert(st.diff =~= part.gap + behind);
        lemma_part_applied(st, old, part, behind, rle, rle1);
        let st1 = SfModel {
            old_end: (cover.old_pos + cover.length) as u64,
            new_end: (cover.new_pos + cover.length) as u64,
            count: st.count - 1,
            diff: behind,
            out: st.out + part.gap + part.made,
        };
        law_parts_restored(st1, old, others, rest, rle1);
        if others.len() > 0 {
            assert(others.last() == parts.last());
        }
        assert(st1.out + parts_data(others) =~= st.out + parts_data(parts));
        let left = parts_covers(st1.old_end as int, st1.new_end as int, others);
        let covers = parts_covers(st.old_end as int, st.new_end as int, parts);
        law_sf_cover_read_back(
            st.old_end,
            st.new_end,
            cover.old_pos < st.old_end,
            cover,
            left,
        );
        lemma_sf_cover_shrinks(covers, st.old_end, st.new_end);
    }
}

/// A step of a patch: parts, and how their differences are cut into zeros and bytes.
pub struct SfStep {
    pub parts: Seq<SfPart>,
    pub stretches: Seq<Stretch>,
}

/// A step as it is written: the sizes of its covers and of its differences, the covers,
/// the differences, and the bytes of the gaps.
pub open spec fn step_written(old_end: int, new_end: int, step: SfStep) -> Seq<u8> {
    let covers = parts_covers(old_end, new_end, step.parts);
    let differences = stretches_written(step.stretches);
    number(covers.len() as int) + (number(differences.len() as int) + (covers + (differences
        + parts_gaps(step.parts))))
}

/// Whether a step fits behind new data that ends at `new_end`, has a part, and holds
/// the differences of its parts.
pub open spec fn step_fits(old_end: int, new_end: int, step: SfStep, contents: Seq<u8>) -> bool {
    &&& step.parts.len() > 0
    &&& parts_fit(new_end, step.parts, contents)
    &&& stretches_bytes(step.stretches) == parts_differences(step.parts, contents)
    &&& parts_covers(old_end, new_end, step.parts).len() + stretches_written(step.stretches).len()
        <= u64::MAX
    &&& forall|i: int|
        0 <= i < step.stretches.len() ==> (#[trigger] step.stretches[i]).bytes.len() <= u64::MAX
}

/// The two sizes in front of a step are read back.
proof fn lemma_step_sizes(covers: Seq<u8>, differing: Seq<u8>, behind: Seq<u8>)
    requires
        covers.len() + differing.len() <= u64::MAX,
    ensures
        ({
            let diff = number(covers.len() as int) + (number(differing.len() as int) + (covers
                + differing + behind));
            longs_of(diff, 2) matches Ok((n, left)) && {
                &&& n.len() == 2
                &&& as_unsigned(n[0]) == covers.len()
                &&& as_unsigned(n[1]) == differing.len()
                &&& left == covers + differing + behind
            }
        }),
{
    let body = covers + differing + behind;
    let after_one = number(differing.len() as int) + body;
    law_number_read_back(covers.len() as int, after_one);
    law_number_read_back(differing.len() as int, body);
    reveal_with_fuel(longs_of, 3);
}

/// The parts of a step are told apart by their sizes.
proof fn lemma_step_cut(covers: Seq<u8>, differing: Seq<u8>, behind: Seq<u8>)
    ensures
        ({
            let body = covers + differing;
            &&& (body + behind).take(body.len() as int) == body
            &&& (body + behind).skip(body.len() as int) == behind
            &&& body.take(covers.len() as int) == covers
            &&& body.skip(covers.len() as int) == differing
        }),
{
    let body = covers + differing;
    assert((body + behind).take(body.len() as int) =~= body);
    assert((body + behind).skip(body.len() as int) =~= behind);
    assert(body.take(covers.len() as int) =~= covers);
    assert(body.skip(covers.len() as int) =~= differing);
}

/// Applying undoes writing for a step.
#[verifier::rlimit(40)]
pub proof fn law_step_restored(st: SfModel, old: OldModel, step: SfStep, rest: Seq<u8>)
    requires
        old.piece > 0,
        old.contents.len() <= old.last_position,
        step_fits(st.old_end as int, st.new_end as int, step, old.contents),
        step.parts.len() <= st.count,
        st.diff == step_written(st.old_end as int, st.new_end as int, step) + rest,
    ensures
        step_applied(st, old) == Ok::<SfModel, SfStop>(
            SfModel {
                old_end: parts_old_end(st.old_end as int, step.parts) as u64,
                new_end: parts_new_end(st.new_end as int, step.parts) as u64,
                count: st.count - step.parts.len(),
                diff: rest,
                out: st.out + parts_data(step.parts),
            },
        ),
        parts_old_end(st.old_end as int, step.parts) <= u64::MAX,
        parts_new_end(st.new_end as int, step.parts) <= u64::MAX,
{
    let covers = parts_covers(st.old_end as int, st.new_end as int, step.parts);
    let written = stretches_written(step.stretches);
    let behind = parts_gaps(step.parts) + rest;
    assert(st.diff =~= number(covers.len() as int) + (number(written.len() as int) + (covers
        + written + behind)));
    lemma_step_sizes(covers, written, behind);
    lemma_step_cut(covers, written, behind);
    law_stretches_read_back(step.stretches, Seq::empty());
    assert(written + Seq::<u8>::empty() =~= written);
    let fresh = Rle0Model { len0: 0, lenv: 0, need_decode0: true, rest: written };
    let start = SfModel { diff: behind, ..st };
    law_parts_restored(start, old, step.parts, rest, fresh);
    assert(step_applied(st, old) == covers_applied(start, old, covers, fresh));
}

/// Steps as they are written one behind the other.
pub open spec fn steps_written(old_end: int, new_end: int, steps: Seq<SfStep>) -> Seq<u8>
    decreases steps.len(),
{
    if steps.len() == 0 {
        Seq::empty()
    } else {
        step_written(old_end, new_end, steps[0]) + steps_written(
            parts_old_end(old_end, steps[0].parts),
            parts_new_end(new_end, steps[0].parts),
            steps.skip(1),
        )
    }
}

/// Whether steps fit one behind the other.
pub open spec fn steps_fit(old_end: int, new_end: int, steps: Seq<SfStep>, contents: Seq<u8>) -> bool
    decreases steps.len(),
{
    if steps.len() == 0 {
        true
    } else {
        &&& step_fits(old_end, new_end, steps[0], contents)
        &&& steps_fit(
            parts_old_end(old_end, steps[0].parts),
            parts_new_end(new_end, steps[0].parts),
            steps.skip(1),
            contents,
        )
    }
}

/// The new data of steps.
pub open spec fn steps_data(steps: Seq<SfStep>) -> Seq<u8>
    decreases steps.len(),
{
    if steps.len() == 0 {
        Seq::empty()
    } else {
        parts_data(steps[0].parts) + steps_data(steps.skip(1))
    }
}

/// How many covers steps have.
pub open spec fn steps_covers(steps: Seq<SfStep>) -> int
    decreases steps.len(),
{
    if steps.len() == 0 {
        0
    } else {
        steps[0].parts.len() + steps_covers(steps.skip(1))
    }
}

/// Steps are applied one after the other until no cover is to come.
#[verifier::rlimit(40)]
proof fn lemma_steps_restored(st: SfModel, old: OldModel, steps: Seq<SfStep>, rest: Seq<u8>)
    requires
        old.piece > 0,
        old.contents.len() <= old.last_position,
        steps_fit(st.old_end as int, st.new_end as int, steps, old.contents),
        st.count == steps_covers(steps),
        st.diff == steps_written(st.old_end as int, st.new_end as int, steps) + rest,
    ensures
        0 <= steps_covers(steps),
        steps_applied(st, old) matches Ok(st1) && st1.out == st.out + steps_data(steps) && st1.diff
            == rest,
    decreases steps.len(),
{
    if steps.len() == 0 {
        assert(st.diff =~= rest);
        assert(st.out + steps_data(steps) =~= st.out);
    } else {
        let step = steps[0];
        let others = steps.skip(1);
        let old_end = parts_old_end(st.old_end as int, step.parts);
        let new_end = parts_new_end(st.new_end as int, step.parts);
        let behind = steps_written(old_end, new_end, others) + rest;
        assert(st.diff =~= step_written(st.old_end as int, st.new_end as int, step) + behind);
        lemma_covers_counted(others);
        law_step_restored(st, old, step, behind);
        let st1 = step_applied(st, old)->Ok_0;
        lemma_steps_restored(st1, old, others, rest);
        lemma_step_shrinks(st, old);
        assert(st1.out + steps_data(others) =~= st.out + steps_data(steps));
    }
}

/// No steps have fewer than no covers.
proof fn lemma_covers_counted(steps: Seq<SfStep>)
    ensures
        0 <= steps_covers(steps),
    decreases steps.len(),
{
    if steps.len() > 0 {
        lemma_covers_counted(steps.skip(1));
    }
}

/// Applying undoes writing for whole patches: new data that is cut into parts and steps
/// in any way comes out again, and what stands behind the patch is left.
pub proof fn law_sf_patch_restores(steps: Seq<SfStep>, old: OldModel, rest: Seq<u8>)
    requires
        old.piece > 0,
        old.contents.len() <= old.last_position,
        steps_fit(0, 0, steps, old.contents),
    ensures
        sf_patched(steps_written(0, 0, steps) + rest, steps_covers(steps), old) == Ok::<
            (Seq<u8>, Seq<u8>),
            SfStop,
        >((steps_data(steps), rest)),
{
    let diff = steps_written(0, 0, steps) + rest;
    let st = sf_start(diff, steps_covers(steps));
    lemma_steps_restored(st, old, steps, rest);
    assert(Seq::<u8>::empty() + steps_data(steps) =~= steps_data(steps));
}

} // verus!
