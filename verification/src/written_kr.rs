//! How the head and the covers of a KrDiff patch are written, and the laws that
//! reading them undoes writing them.
use crate::error::PatchError;
use crate::kr_format::{
    file_place, head_data_of, head_numbers_of, kr_cover_of, kr_covers_of, law_split_by_place,
    split_of, KrCounts, KrCover, KrFileModel, KrNumbers,
};
use crate::parser::{lemma_longs_len, longs_of};
use crate::text::utf8_lossy;
use crate::written::{
    law_number_read_back, law_signed_number_read_back, number, tagged_number, unsigned,
};
use crate::written_lists::{
    characters, law_null_strings_read_back, law_sizes_read_back, no_zeros, sizes_written,
    texts_written,
};
use vstd::prelude::*;

verus! {

/// The lists of numbers of a head as they are written: the places of the old files and
/// of the new, the sizes of the old files and of the new, and one more number for each
/// new file.
pub open spec fn head_numbers_written(numbers: KrNumbers, more: Seq<u64>) -> Seq<u8> {
    sizes_written(numbers.old_offsets) + (sizes_written(numbers.new_offsets) + (sizes_written(
        numbers.old_sizes,
    ) + (sizes_written(numbers.new_sizes) + sizes_written(more))))
}

/// The lists of numbers in a head have the lengths that its counts give: the places and
/// sizes of the old files are as many as the old files, and those of the new files as
/// many as the new ones.
pub proof fn law_head_numbers_counted(rest: Seq<u8>, old_count: u64, new_count: u64)
    ensures
        head_numbers_of(rest, old_count as int, new_count as int) matches Ok((n, _)) ==> {
            &&& n.old_offsets.len() == old_count
            &&& n.old_sizes.len() == old_count
            &&& n.new_offsets.len() == new_count
            &&& n.new_sizes.len() == new_count
        },
{
    let (o, n) = (old_count as int, new_count as int);
    lemma_longs_len(rest, o);
    if let Ok((_, left)) = longs_of(rest, o) {
        lemma_longs_len(left, n);
        if let Ok((_, left)) = longs_of(left, n) {
            lemma_longs_len(left, o);
            if let Ok((_, left)) = longs_of(left, o) {
                lemma_longs_len(left, n);
            }
        }
    }
}

/// Reading undoes writing for the lists of numbers of a head, for any counts of old and
/// of new files, equal or not.
pub proof fn law_head_numbers_read_back(
    numbers: KrNumbers,
    more: Seq<u64>,
    old_count: int,
    new_count: int,
    rest: Seq<u8>,
)
    requires
        numbers.old_offsets.len() == old_count,
        numbers.old_sizes.len() == old_count,
        numbers.new_offsets.len() == new_count,
        numbers.new_sizes.len() == new_count,
        more.len() == new_count,
    ensures
        head_numbers_of(head_numbers_written(numbers, more) + rest, old_count, new_count) == Ok::<
            (KrNumbers, Seq<u8>),
            PatchError,
        >((numbers, rest)),
{
    let s5 = sizes_written(more) + rest;
    let s4 = sizes_written(numbers.new_sizes) + s5;
    let s3 = sizes_written(numbers.old_sizes) + s4;
    let s2 = sizes_written(numbers.new_offsets) + s3;
    assert(head_numbers_written(numbers, more) + rest =~= sizes_written(numbers.old_offsets) + s2);
    law_sizes_read_back(numbers.old_offsets, s2);
    law_sizes_read_back(numbers.new_offsets, s3);
    law_sizes_read_back(numbers.old_sizes, s4);
    law_sizes_read_back(numbers.new_sizes, s5);
    law_sizes_read_back(more, rest);
}

/// Whether places come in ascending order, each below `n`.
pub open spec fn are_places(places: Seq<u64>, n: int) -> bool {
    &&& forall|k: int| 0 <= k < places.len() ==> #[trigger] places[k] < n
    &&& forall|k: int| 0 < k < places.len() ==> places[k - 1] < #[trigger] places[k]
}

/// Places as a head gives them: the first as it is, and each other one by how many
/// paths stand between it and the one before.
pub open spec fn between(places: Seq<u64>) -> Seq<u64> {
    Seq::new(
        places.len(),
        |k: int|
            if k == 0 {
                places[0]
            } else {
                (places[k] - places[k - 1] - 1) as u64
            },
    )
}

/// The places that are written are those that are read.
proof fn lemma_places_read_back(places: Seq<u64>, n: int, k: int)
    requires
        are_places(places, n),
        0 <= k < places.len(),
    ensures
        file_place(between(places), k) == places[k],
    decreases k,
{
    if k > 0 {
        lemma_places_read_back(places, n, k - 1);
    }
}

/// How many places stand before `i`.
pub open spec fn places_before(places: Seq<u64>, i: int) -> int
    decreases places.len(),
{
    if places.len() == 0 {
        0
    } else {
        places_before(places.drop_last(), i) + if places.last() < i {
            1int
        } else {
            0int
        }
    }
}

/// Of ascending places, those before `i` are the first ones.
proof fn lemma_places_before(places: Seq<u64>, n: int, i: int)
    requires
        are_places(places, n),
    ensures
        0 <= places_before(places, i) <= places.len(),
        forall|k: int|
            0 <= k < places.len() ==> (#[trigger] places[k] < i <==> k < places_before(places, i)),
    decreases places.len(),
{
    if places.len() > 0 {
        let fewer = places.drop_last();
        assert(are_places(fewer, n)) by {
            assert forall|k: int| 0 < k < fewer.len() implies fewer[k - 1] < #[trigger] fewer[k] by {
                assert(places[k - 1] < places[k]);
            }
            assert forall|k: int| 0 <= k < fewer.len() implies #[trigger] fewer[k] < n by {
                assert(places[k] < n);
            }
        }
        lemma_places_before(fewer, n, i);
        let last = places.len() - 1;
        if last > 0 && places[last] < i {
            assert(places[last - 1] < places[last]);
            assert(fewer[last - 1] < i);
        }
        assert forall|k: int| 0 <= k < places.len() implies (#[trigger] places[k] < i <==> k
            < places_before(places, i)) by {
            if k < last {
                assert(places[k] == fewer[k]);
            }
        }
    }
}

/// Where the directory at place `i` stands among the directories of the first `n`
/// paths.
#[verifier::rlimit(40)]
proof fn lemma_directories_in_order(
    paths: Seq<Seq<char>>,
    places: Seq<u64>,
    sizes: Seq<u64>,
    n: int,
)
    requires
        are_places(places, paths.len() as int),
        0 <= n <= paths.len(),
    ensures
        ({
            let (files, dirs) = split_of(paths, between(places), sizes, n);
            &&& files.len() == places_before(places, n)
            &&& dirs.len() == n - places_before(places, n)
            &&& forall|i: int|
                0 <= i < n && !places.contains(i as u64) ==> {
                    &&& 0 <= i - #[trigger] places_before(places, i) < dirs.len()
                    &&& dirs[i - places_before(places, i)] == paths[i]
                }
        }),
    decreases n,
{
    lemma_places_before(places, paths.len() as int, n);
    law_split_by_place(paths, between(places), sizes, n);
    let (files, dirs) = split_of(paths, between(places), sizes, n);
    let found = places_before(places, n);
    if found < places.len() {
        lemma_places_read_back(places, paths.len() as int, found);
        assert(!(places[found] < n));
        assert(!(found < files.len()));
    }
    if found > 0 {
        lemma_places_read_back(places, paths.len() as int, found - 1);
        assert(places[found - 1] < n);
        assert(found - 1 < files.len());
    }
    assert(files.len() == found);
    if n > 0 {
        lemma_directories_in_order(paths, places, sizes, n - 1);
        lemma_places_before(places, paths.len() as int, n - 1);
        let (files0, dirs0) = split_of(paths, between(places), sizes, n - 1);
        let found0 = places_before(places, n - 1);
        assert(dirs0.is_prefix_of(dirs));
        assert forall|i: int| 0 <= i < n && !places.contains(i as u64) implies {
            &&& 0 <= i - #[trigger] places_before(places, i) < dirs.len()
            &&& dirs[i - places_before(places, i)] == paths[i]
        } by {
            if i == n - 1 {
                if found0 < places.len() {
                    lemma_places_read_back(places, paths.len() as int, found0);
                    assert(places[found0] != i);
                }
                assert(dirs == dirs0.push(paths[i]));
            } else {
                assert(dirs0[i - places_before(places, i)] == paths[i]);
                assert(dirs0 =~= dirs.subrange(0, dirs0.len() as int));
            }
        }
    }
}

/// Which of some paths are files, with which sizes: those at the places, in their
/// order, and the others are directories, in theirs.
pub open spec fn told_apart(
    paths: Seq<Seq<u8>>,
    places: Seq<u64>,
    sizes: Seq<u64>,
    files: Seq<KrFileModel>,
    directories: Seq<Seq<char>>,
) -> bool {
    &&& files.len() == places.len()
    &&& forall|k: int|
        0 <= k < places.len() ==> (#[trigger] files[k]).path == utf8_lossy(paths[places[k] as int])
            && files[k].size == sizes[k]
    &&& directories.len() + places.len() == paths.len()
    &&& forall|i: int|
        0 <= i < paths.len() && !places.contains(i as u64) ==> {
            &&& 0 <= i - #[trigger] places_before(places, i) < directories.len()
            &&& directories[i - places_before(places, i)] == utf8_lossy(paths[i])
        }
}

/// Paths are told apart by the places of the files.
pub proof fn law_files_told_apart(paths: Seq<Seq<u8>>, places: Seq<u64>, sizes: Seq<u64>)
    requires
        are_places(places, paths.len() as int),
        sizes.len() == places.len(),
    ensures
        ({
            let (files, directories) = split_of(
                characters(paths),
                between(places),
                sizes,
                paths.len() as int,
            );
            told_apart(paths, places, sizes, files, directories)
        }),
{
    let texts = characters(paths);
    let n = paths.len() as int;
    lemma_directories_in_order(texts, places, sizes, n);
    law_split_by_place(texts, between(places), sizes, n);
    lemma_places_before(places, n, n);
    let (files, directories) = split_of(texts, between(places), sizes, n);
    if places.len() > 0 {
        assert(places[places.len() - 1] < n);
    }
    assert(files.len() == places.len());
    assert forall|k: int| 0 <= k < places.len() implies (#[trigger] files[k]).path == utf8_lossy(
        paths[places[k] as int],
    ) && files[k].size == sizes[k] by {
        lemma_places_read_back(places, n, k);
        assert(places[k] < n);
    }
}

/// The paths and files of a head before it is written.
pub struct KrContents {
    pub old_paths: Seq<Seq<u8>>,
    pub new_paths: Seq<Seq<u8>>,
    pub old_places: Seq<u64>,
    pub new_places: Seq<u64>,
    pub old_sizes: Seq<u64>,
    pub new_sizes: Seq<u64>,
}

/// Whether a head can be written: the paths hold no zero byte and are not too long, the
/// places are ones of paths, and each file has a size.
pub open spec fn can_be_written(c: KrContents) -> bool {
    &&& no_zeros(c.old_paths)
    &&& no_zeros(c.new_paths)
    &&& forall|i: int| 0 <= i < c.old_paths.len() ==> (#[trigger] c.old_paths[i]).len() < 255
    &&& forall|i: int| 0 <= i < c.new_paths.len() ==> (#[trigger] c.new_paths[i]).len() < 255
    &&& are_places(c.old_places, c.old_paths.len() as int)
    &&& are_places(c.new_places, c.new_paths.len() as int)
    &&& c.old_sizes.len() == c.old_places.len()
    &&& c.new_sizes.len() == c.new_places.len()
}

/// A head as it is written: the old paths, the new ones, and the lists of numbers.
pub open spec fn head_written(c: KrContents, more: Seq<u64>) -> Seq<u8> {
    texts_written(c.old_paths) + (texts_written(c.new_paths) + head_numbers_written(
        KrNumbers {
            old_offsets: between(c.old_places),
            new_offsets: between(c.new_places),
            old_sizes: c.old_sizes,
            new_sizes: c.new_sizes,
        },
        more,
    ))
}

/// Reading undoes writing for heads: with the counts of its paths and files, a head gives
/// back the old files, the new files and the new directories, and what stands behind it
/// is left.
#[verifier::rlimit(40)]
pub proof fn law_head_read_back(c: KrContents, more: Seq<u64>, counts: KrCounts, rest: Seq<u8>)
    requires
        can_be_written(c),
        counts.old_paths == c.old_paths.len(),
        counts.new_paths == c.new_paths.len(),
        counts.old_refs == c.old_places.len(),
        counts.new_refs == c.new_places.len(),
        more.len() == c.new_places.len(),
    ensures
        head_data_of(head_written(c, more) + rest, counts) matches Ok((head, left)) && {
            &&& left == rest
            &&& head.old_files.len() == c.old_places.len()
            &&& forall|k: int|
                0 <= k < c.old_places.len() ==> (#[trigger] head.old_files[k]).path == utf8_lossy(
                    c.old_paths[c.old_places[k] as int],
                ) && head.old_files[k].size == c.old_sizes[k]
            &&& told_apart(
                c.new_paths,
                c.new_places,
                c.new_sizes,
                head.new_files,
                head.new_directories,
            )
        },
{
    let numbers = KrNumbers {
        old_offsets: between(c.old_places),
        new_offsets: between(c.new_places),
        old_sizes: c.old_sizes,
        new_sizes: c.new_sizes,
    };
    let behind_new = head_numbers_written(numbers, more) + rest;
    let behind_old = texts_written(c.new_paths) + behind_new;
    assert(head_written(c, more) + rest =~= texts_written(c.old_paths) + behind_old);
    law_null_strings_read_back(c.old_paths, behind_old);
    law_null_strings_read_back(c.new_paths, behind_new);
    law_head_numbers_read_back(
        numbers,
        more,
        c.old_places.len() as int,
        c.new_places.len() as int,
        rest,
    );
    law_files_told_apart(c.old_paths, c.old_places, c.old_sizes);
    law_files_told_apart(c.new_paths, c.new_places, c.new_sizes);
}

/// A cover as it is written: how far it starts from the end of the last one, with a tag
/// for whether it starts before it, the gap in the new data, and its length.
pub open spec fn kr_cover_written(is_before: bool, cover: KrCover) -> Seq<u8> {
    let distance = if is_before {
        tagged_number(1, 1, unsigned(-cover.old_pos_delta))
    } else {
        tagged_number(1, 0, unsigned(cover.old_pos_delta as int))
    };
    distance + (number(cover.new_pos_gap as int) + number(cover.length as int))
}

/// Reading undoes writing for covers, whichever way the distance is written. The least
/// distance of all has no opposite, and is not read the other way.
#[verifier::rlimit(40)]
pub proof fn law_kr_cover_read_back(is_before: bool, cover: KrCover, rest: Seq<u8>)
    ensures
        !is_before || i64::MIN < cover.old_pos_delta ==> kr_cover_of(
            kr_cover_written(is_before, cover) + rest,
        ) == Ok::<(KrCover, Seq<u8>), PatchError>((cover, rest)),
        kr_cover_of(tagged_number(1, 1, 0x8000_0000_0000_0000) + rest) == Err::<
            (KrCover, Seq<u8>),
            PatchError,
        >(PatchError::Malformed),
{
    let s = kr_cover_written(is_before, cover) + rest;
    let behind_gap = number(cover.length as int) + rest;
    let behind = number(cover.new_pos_gap as int) + behind_gap;
    if !(is_before && cover.old_pos_delta == i64::MIN) {
        if is_before {
            assert(s =~= tagged_number(1, 1, unsigned(-cover.old_pos_delta)) + behind);
            law_signed_number_read_back(1, (-cover.old_pos_delta) as i64, behind);
        } else {
            assert(s =~= tagged_number(1, 0, unsigned(cover.old_pos_delta as int)) + behind);
            law_signed_number_read_back(0, cover.old_pos_delta, behind);
        }
        law_number_read_back(cover.new_pos_gap as int, behind_gap);
        law_number_read_back(cover.length as int, rest);
        reveal_with_fuel(longs_of, 3);
    }
    assert(unsigned(i64::MIN as int) == 0x8000_0000_0000_0000);
    law_signed_number_read_back(1, i64::MIN, rest);
}

/// Covers as they are written one behind the other.
pub open spec fn kr_covers_written(covers: Seq<KrCover>) -> Seq<u8>
    decreases covers.len(),
{
    if covers.len() == 0 {
        Seq::empty()
    } else {
        let last = covers.last();
        kr_covers_written(covers.drop_last()) + kr_cover_written(
            i64::MIN < last.old_pos_delta < 0,
            last,
        )
    }
}

/// Reading undoes writing for lists of covers.
pub proof fn law_kr_covers_read_back(covers: Seq<KrCover>, rest: Seq<u8>)
    ensures
        kr_covers_of(kr_covers_written(covers) + rest, covers.len() as int) == Ok::<
            (Seq<KrCover>, Seq<u8>),
            PatchError,
        >((covers, rest)),
    decreases covers.len(),
{
    if covers.len() == 0 {
        assert(covers =~= Seq::empty());
        assert(kr_covers_written(covers) + rest =~= rest);
    } else {
        let before = covers.drop_last();
        let last = covers.last();
        let is_before = i64::MIN < last.old_pos_delta < 0;
        let more = kr_cover_written(is_before, last) + rest;
        law_kr_covers_read_back(before, more);
        assert(kr_covers_written(covers) + rest =~= kr_covers_written(before) + more);
        law_kr_cover_read_back(is_before, last, rest);
        assert(before.push(last) =~= covers);
    }
}

} // verus!
