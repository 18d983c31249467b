//! The laws on the new files of a KrDiff patch: that applying the patch gives back the data
//! which it was written for, and what becomes of paths and of files that are not as they
//! should be.
use crate::combined::{joined, sizes_fit, sum_of};
use crate::error::PatchError;
use crate::joined_files::{all_of, are_sizes, law_cut_up_again};
use crate::kr_format::{KrCover, KrFileModel, KrHd13Model, KrHd19Model};
use crate::patch_krdir::{
    copied, copied_len, dirs_to_create, kr_covers_applied, kr_files_patched, kr_patched,
    law_copied_if_room, new_data_of_patch, old_files_checked, round_place, sizes_of, trimmed,
};
use vstd::prelude::*;

verus! {

/// A part of new data: bytes that stand in the patch, and behind them some that old data has
/// from `old_pos` on.
pub struct KrPart {
    pub gap: Seq<u8>,
    pub old_pos: int,
    pub length: int,
}

/// The new data of parts.
pub open spec fn kr_parts_data(parts: Seq<KrPart>, contents: Seq<u8>) -> Seq<u8>
    decreases parts.len(),
{
    if parts.len() == 0 {
        Seq::empty()
    } else {
        let part = parts[parts.len() - 1];
        kr_parts_data(parts.drop_last(), contents) + part.gap + contents.subrange(
            part.old_pos,
            part.old_pos + part.length,
        )
    }
}

/// The bytes of parts that stand in the patch.
pub open spec fn kr_parts_gaps(parts: Seq<KrPart>) -> Seq<u8>
    decreases parts.len(),
{
    if parts.len() == 0 {
        Seq::empty()
    } else {
        kr_parts_gaps(parts.drop_last()) + parts[parts.len() - 1].gap
    }
}

/// Where the first `n` parts end in the old data.
pub open spec fn kr_old_end(parts: Seq<KrPart>, n: int) -> int {
    if n <= 0 {
        0
    } else {
        parts[n - 1].old_pos + parts[n - 1].length
    }
}

/// The covers of parts: each gives how far it starts from where the last one ends.
pub open spec fn kr_parts_covers(parts: Seq<KrPart>) -> Seq<KrCover> {
    Seq::new(
        parts.len(),
        |i: int|
            KrCover {
                old_pos_delta: (parts[i].old_pos - kr_old_end(parts, i)) as i64,
                new_pos_gap: parts[i].gap.len() as u64,
                length: parts[i].length as u64,
            },
    )
}

/// Whether parts lie in the old data.
pub open spec fn kr_parts_fit(parts: Seq<KrPart>, contents: Seq<u8>) -> bool {
    forall|i: int|
        0 <= i < parts.len() ==> {
            &&& 0 <= (#[trigger] parts[i]).old_pos
            &&& 0 <= parts[i].length
            &&& parts[i].old_pos + parts[i].length <= contents.len()
        }
}

/// The covers of the first parts put the data of these together.
#[verifier::rlimit(40)]
proof fn lemma_kr_parts_applied(
    parts: Seq<KrPart>,
    n: int,
    old_ref_size: u64,
    contents: Seq<u8>,
    capacity: int,
    rest: Seq<u8>,
)
    requires
        0 <= n <= parts.len(),
        kr_parts_fit(parts, contents),
        contents.len() <= i64::MAX,
        old_ref_size == 0 || contents.len() <= old_ref_size <= i64::MAX,
        kr_parts_data(parts.take(n), contents).len() <= capacity <= i64::MAX,
    ensures
        kr_parts_gaps(parts.take(n)).len() <= kr_parts_data(parts.take(n), contents).len(),
        0 <= kr_old_end(parts, n) <= contents.len(),
        kr_covers_applied(
            kr_parts_covers(parts),
            n,
            old_ref_size,
            contents,
            capacity,
            kr_parts_gaps(parts.take(n)) + rest,
        ) matches Ok(st) && {
            &&& st.read_pos == kr_old_end(parts, n)
            &&& st.data == rest
            &&& st.out == kr_parts_data(parts.take(n), contents)
            &&& st.reports.len() == n
            &&& forall|i: int|
                0 <= i < n ==> #[trigger] st.reports[i] == kr_parts_data(
                    parts.take(i + 1),
                    contents,
                ).len()
        },
    decreases n,
{
    if n == 0 {
        assert(kr_parts_gaps(parts.take(0)) + rest =~= rest);
    } else {
        let part = parts[n - 1];
        let before = parts.take(n - 1);
        assert(parts.take(n).drop_last() =~= before);
        let old_bytes = contents.subrange(part.old_pos, part.old_pos + part.length);
        let more = part.gap + rest;
        lemma_kr_parts_applied(parts, n - 1, old_ref_size, contents, capacity, more);
        assert(kr_parts_gaps(parts.take(n)) + rest =~= kr_parts_gaps(before) + more);
        let st = kr_covers_applied(
            kr_parts_covers(parts),
            n - 1,
            old_ref_size,
            contents,
            capacity,
            kr_parts_gaps(before) + more,
        )->Ok_0;
        let gap_len = part.gap.len() as int;
        let room = capacity - st.out.len();
        assert(kr_parts_data(parts.take(n), contents).len() == st.out.len() + gap_len
            + part.length);
        law_copied_if_room(more.len() as int, gap_len, room);
        assert(more.take(gap_len) =~= part.gap);
        assert(more.skip(gap_len) =~= rest);
        law_copied_if_room(contents.len() - part.old_pos, part.length, room - gap_len);
        if part.length == 0 {
            assert(st.out + part.gap + old_bytes =~= st.out + part.gap);
        }
        let cover = kr_parts_covers(parts)[n - 1];
        assert(cover.old_pos_delta == part.old_pos - kr_old_end(parts, n - 1));
        let st1 = kr_covers_applied(
            kr_parts_covers(parts),
            n,
            old_ref_size,
            contents,
            capacity,
            kr_parts_gaps(before) + more,
        )->Ok_0;
        assert(st1.reports == st.reports.push(st1.out.len() as i64));
    }
}

/// Applying undoes writing: where the covers are those of some parts and the new bytes are
/// those of the gaps and of the end, the new data is that of the parts with the end behind it,
/// and each report says how long it was behind a cover.
pub proof fn law_kr_patch_restores(
    parts: Seq<KrPart>,
    end: Seq<u8>,
    old_ref_size: u64,
    contents: Seq<u8>,
    capacity: int,
    rest: Seq<u8>,
)
    requires
        kr_parts_fit(parts, contents),
        contents.len() <= i64::MAX,
        old_ref_size == 0 || contents.len() <= old_ref_size <= i64::MAX,
        kr_parts_data(parts, contents).len() + end.len() <= capacity <= i64::MAX,
    ensures
        ({
            let wanted = kr_parts_data(parts, contents) + end;
            kr_patched(
                kr_parts_covers(parts),
                old_ref_size,
                wanted.len() as u64,
                contents,
                capacity,
                kr_parts_gaps(parts) + end + rest,
            ) matches Ok((out, reports)) && {
                &&& out == wanted
                &&& reports.len() == parts.len()
                &&& forall|i: int|
                    0 <= i < parts.len() ==> #[trigger] reports[i] == kr_parts_data(
                        parts.take(i + 1),
                        contents,
                    ).len()
            }
        }),
{
    let n = parts.len() as int;
    assert(parts.take(n) =~= parts);
    lemma_kr_parts_applied(parts, n, old_ref_size, contents, capacity, end + rest);
    let data = kr_parts_data(parts, contents);
    assert(kr_parts_gaps(parts) + end + rest =~= kr_parts_gaps(parts) + (end + rest));
    law_copied_if_room((end + rest).len() as int, end.len() as int, capacity - data.len());
    assert((end + rest).take(end.len() as int) =~= end);
    if end.len() == 0 {
        assert(data + end =~= data);
    }
}

/// Patching undoes writing for the new files: where the new bytes of a patch are those of the
/// parts, the files come out whole that the patch was written for.
pub proof fn law_kr_files_restored(
    patch: Seq<u8>,
    hd19: KrHd19Model,
    hd13: KrHd13Model,
    old_files: Seq<Vec<u8>>,
    parts: Seq<KrPart>,
    end: Seq<u8>,
    new_files: Seq<Seq<u8>>,
    rest: Seq<u8>,
)
    requires
        ({
            let old = joined(old_files, old_files.len() as int);
            let sizes = sizes_of(hd19.head.new_files);
            &&& old_files.len() > 0
            &&& hd19.head.old_files.len() > 0
            &&& new_files.len() > 0
            &&& old.len() <= i64::MAX
            &&& hd19.old_ref_size == old.len()
            &&& are_sizes(sizes, new_files)
            &&& sizes_fit(sizes)
            &&& all_of(new_files).len() <= i64::MAX
            &&& hd19.new_ref_size == all_of(new_files).len()
            &&& kr_parts_fit(parts, old)
            &&& all_of(new_files) == kr_parts_data(parts, old) + end
            &&& hd13.covers == kr_parts_covers(parts)
            &&& new_data_of_patch(patch, hd13) == Ok::<Seq<u8>, PatchError>(
                kr_parts_gaps(parts) + end + rest,
            )
        }),
    ensures
        kr_files_patched(patch, hd19, hd13, old_files).error is None,
        kr_files_patched(patch, hd19, hd13, old_files).made.files == new_files,
{
    let old = joined(old_files, old_files.len() as int);
    let sizes = sizes_of(hd19.head.new_files);
    let total = sum_of(sizes, sizes.len() as int);
    law_cut_up_again(new_files, sizes);
    law_kr_patch_restores(parts, end, hd19.old_ref_size, old, total, rest);
}

/// What a patch leaves where it has no old files or no new ones: new files of zeros, all of
/// their sizes.
pub proof fn law_kr_files_blank(
    patch: Seq<u8>,
    hd19: KrHd19Model,
    hd13: KrHd13Model,
    old_files: Seq<Vec<u8>>,
    i: int,
    k: int,
)
    requires
        hd19.head.old_files.len() == 0 || hd19.head.new_files.len() == 0,
        sizes_fit(sizes_of(hd19.head.new_files)),
        0 <= i < hd19.head.new_files.len(),
        0 <= k < hd19.head.new_files[i].size,
    ensures
        ({
            let left = kr_files_patched(patch, hd19, hd13, old_files);
            &&& left.error is None
            &&& left.made.files.len() == hd19.head.new_files.len()
            &&& left.made.files[i].len() == hd19.head.new_files[i].size
            &&& left.made.files[i][k] == 0
        }),
{
    let sizes = sizes_of(hd19.head.new_files);
    lemma_sum_ascends(sizes, i, sizes.len() as int);
    lemma_sum_ascends(sizes, i + 1, sizes.len() as int);
}

proof fn lemma_sum_ascends(sizes: Seq<u64>, i: int, n: int)
    requires
        0 <= i <= n <= sizes.len(),
    ensures
        0 <= sum_of(sizes, i) <= sum_of(sizes, n),
    decreases n,
{
    if i < n {
        lemma_sum_ascends(sizes, i, n - 1);
    } else if n > 0 {
        lemma_sum_ascends(sizes, n - 1, n - 1);
    }
}

/// A place behind the old data is counted from its start, and one before it from its end, round
/// as often as it takes: the first comes out behind the start, and the second before the end.
pub proof fn law_counted_round(start: int, rounds: int, size: int)
    requires
        0 < size <= i64::MAX,
        0 < rounds,
        0 <= start <= size,
    ensures
        0 < start && start + rounds * size <= i64::MAX ==> round_place(
            (start + rounds * size) as i64,
            size,
        ) == start,
        start < size && start - rounds * size >= i64::MIN ==> round_place(
            (start - rounds * size) as i64,
            size,
        ) == start,
        round_place(start as i64, size) == start,
{
    if 0 < start && start + rounds * size <= i64::MAX {
        let place = start + rounds * size;
        assert(place > size) by (nonlinear_arith)
            requires
                place == start + rounds * size,
                0 < rounds,
                0 < size,
                0 < start,
        ;
        vstd::arithmetic::div_mod::lemma_fundamental_div_mod_converse(
            place - 1,
            size,
            rounds,
            start - 1,
        );
    }
    if start < size && start - rounds * size >= i64::MIN {
        let place = start - rounds * size;
        assert(place < 0) by (nonlinear_arith)
            requires
                place == start - rounds * size,
                0 < rounds,
                0 < size,
                start < size,
        ;
        assert(place == -rounds * size + start) by (nonlinear_arith)
            requires
                place == start - rounds * size,
        ;
        vstd::arithmetic::div_mod::lemma_fundamental_div_mod_converse(place, size, -rounds, start);
    }
}

/// The whole pieces of 65536 bytes in `n`.
pub open spec fn whole_of(n: int) -> int {
    n / 65536 * 65536
}

/// Copying stops at the first piece of 65536 bytes that is not there, and writes the pieces
/// before it, or at the first that there is no room for, and fills the room. A piece is read
/// before it is written.
pub proof fn law_copying_stops(available: int, n: int, room: int)
    requires
        0 <= available,
        0 <= room,
        0 < n,
        available < n || room < n,
    ensures
        if available < n && (n <= room || whole_of(available) <= whole_of(room)) {
            &&& copied(available, n, room) == Err::<(), PatchError>(PatchError::UnexpectedEof)
            &&& copied_len(available, n, room) == whole_of(available)
        } else {
            &&& copied(available, n, room) == Err::<(), PatchError>(PatchError::WriteZero)
            &&& copied_len(available, n, room) == room
        },
    decreases n,
{
    let piece = if n < 65536 {
        n
    } else {
        65536
    };
    if piece <= available && piece <= room && n > 65536 {
        law_copying_stops(available - piece, n - piece, room - piece);
    }
}

/// A path without the slashes at its end is the front of the path, does not end with a slash,
/// and has nothing but slashes cut off.
pub proof fn law_trimmed(path: Seq<char>)
    ensures
        ({
            let kept = trimmed(path);
            &&& kept.len() <= path.len()
            &&& kept == path.take(kept.len() as int)
            &&& kept.len() > 0 ==> kept[kept.len() - 1] != '/'
            &&& forall|i: int| kept.len() <= i < path.len() ==> #[trigger] path[i] == '/'
        }),
    decreases path.len(),
{
    if path.len() > 0 && path.last() == '/' {
        let shorter = path.drop_last();
        law_trimmed(shorter);
        let kept = trimmed(path);
        assert(kept =~= path.take(kept.len() as int));
        assert forall|i: int| kept.len() <= i < path.len() implies #[trigger] path[i] == '/' by {
            if i < shorter.len() {
                assert(shorter[i] == path[i]);
            }
        }
    } else {
        assert(path.take(path.len() as int) =~= path);
    }
}

/// The directories that are created are those whose paths are not empty, in their order, each
/// without the slashes at its end.
pub proof fn law_directories_created(dirs: Seq<Seq<char>>, n: int)
    requires
        0 <= n <= dirs.len(),
    ensures
        ({
            let named = dirs.take(n).filter(|dir: Seq<char>| dir.len() > 0);
            &&& dirs_to_create(dirs, n).len() == named.len()
            &&& forall|k: int|
                0 <= k < named.len() ==> #[trigger] dirs_to_create(dirs, n)[k] == trimmed(named[k])
        }),
    decreases n,
{
    reveal(Seq::filter);
    if n > 0 {
        law_directories_created(dirs, n - 1);
        assert(dirs.take(n).drop_last() =~= dirs.take(n - 1));
        assert(dirs.take(n).last() == dirs[n - 1]);
    }
}

/// The first old file that is missing or has another size than the patch records is named, by
/// its place, and with both sizes where it is there.
pub proof fn law_first_bad_file(files: Seq<KrFileModel>, actual: Seq<Option<u64>>, bad: int, n: int)
    requires
        0 <= bad < n <= files.len(),
        files.len() <= u64::MAX,
        bad <= actual.len(),
        forall|i: int| 0 <= i < bad ==> #[trigger] actual[i] == Some(files[i].size),
        bad < actual.len() ==> actual[bad] != Some(files[bad].size),
    ensures
        old_files_checked(files, actual, n) == Err::<(), PatchError>(
            if bad < actual.len() && actual[bad] is Some {
                PatchError::OldFileSizeMismatch {
                    at: bad as u64,
                    recorded: files[bad].size,
                    actual: actual[bad]->0,
                }
            } else {
                PatchError::OldFileNotFound { at: bad as u64 }
            },
        ),
    decreases n,
{
    if n == bad + 1 {
        lemma_good_so_far(files, actual, bad);
    } else {
        law_first_bad_file(files, actual, bad, n - 1);
    }
}

proof fn lemma_good_so_far(files: Seq<KrFileModel>, actual: Seq<Option<u64>>, n: int)
    requires
        0 <= n <= files.len(),
        n <= actual.len(),
        forall|i: int| 0 <= i < n ==> #[trigger] actual[i] == Some(files[i].size),
    ensures
        old_files_checked(files, actual, n) is Ok,
    decreases n,
{
    if n > 0 {
        lemma_good_so_far(files, actual, n - 1);
        assert(actual[n - 1] == Some(files[n - 1].size));
    }
}

} // verus!
