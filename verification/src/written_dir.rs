//! How the lists in the head of a directory patch are written, and the laws that
//! reading them undoes writing them.
use crate::error::PatchError;
use crate::parser::{indices_of, lemma_longs_len, longs_of, pairs_of, paths_of};
use crate::patch_dir::{lists_of, more_lists_of};
use crate::structs::{DataReferenceInfo, DirectoryModel, PairIndexReference};
use crate::written::unsigned;
use crate::written_lists::{
    are_indices, are_pairs, characters, indices_written, law_indices_read_back,
    law_numbers_read_back, law_pairs_read_back, law_paths_read_back, no_zeros, numbers_written,
    pairs_written, texts_written,
};
use vstd::prelude::*;

verus! {

/// As many indices are read as are asked for.
proof fn lemma_indices_counted(rest: Seq<u8>, n: int, max: Option<i64>)
    requires
        0 <= n,
    ensures
        indices_of(rest, n, max) matches Ok((list, _)) ==> list.len() == n,
    decreases n,
{
    if n > 0 {
        lemma_indices_counted(rest, n - 1, max);
    }
}

/// As many pairs are read as are asked for.
proof fn lemma_pairs_counted(rest: Seq<u8>, n: int, max_new: i64, max_old: i64)
    requires
        0 <= n,
    ensures
        pairs_of(rest, n, max_new, max_old) matches Ok((list, _)) ==> list.len() == n,
    decreases n,
{
    if n > 0 {
        lemma_pairs_counted(rest, n - 1, max_new, max_old);
    }
}

/// The lists of a directory patch have the lengths that its counts give: the paths,
/// where their count is not zero, the references to old files, those to new files and
/// the sizes of these, the pairs of equal files, and the executable files.
pub proof fn law_lists_counted(rest: Seq<u8>, ri: DataReferenceInfo)
    ensures
        lists_of(rest, ri) matches Ok((dir, _)) ==> {
            &&& ri.input_dir_count != 0 ==> dir.old_paths.len() == unsigned(
                ri.input_dir_count as int,
            )
            &&& ri.output_dir_count != 0 ==> dir.new_paths.len() == unsigned(
                ri.output_dir_count as int,
            )
            &&& dir.old_refs.len() == unsigned(ri.input_ref_file_count as int)
            &&& dir.new_refs.len() == unsigned(ri.output_ref_file_count as int)
            &&& dir.new_ref_sizes.len() == unsigned(ri.output_ref_file_count as int)
            &&& dir.same_pairs.len() == unsigned(ri.same_file_pair_count as int)
            &&& dir.new_executes.len() == unsigned(ri.new_execute_count as int)
        },
{
    if let Ok((dir, _)) = lists_of(rest, ri) {
        let (old_paths, left) = paths_of(
            rest,
            unsigned(ri.input_sum_size as int),
            unsigned(ri.input_dir_count as int),
        )->Ok_0;
        let (new_paths, left) = paths_of(
            left,
            unsigned(ri.output_sum_size as int),
            unsigned(ri.output_dir_count as int),
        )->Ok_0;
        let old_count = unsigned(ri.input_ref_file_count as int);
        let new_count = unsigned(ri.output_ref_file_count as int);
        let pair_count = unsigned(ri.same_file_pair_count as int);
        let execute_count = unsigned(ri.new_execute_count as int);
        lemma_indices_counted(left, old_count, Some(ri.input_dir_count));
        let left = (indices_of(left, old_count, Some(ri.input_dir_count))->Ok_0).1;
        lemma_indices_counted(left, new_count, Some(ri.output_dir_count));
        let left = (indices_of(left, new_count, Some(ri.output_dir_count))->Ok_0).1;
        assert(more_lists_of(left, ri) is Ok);
        lemma_longs_len(left, new_count);
        let left = (longs_of(left, new_count)->Ok_0).1;
        lemma_pairs_counted(left, pair_count, ri.output_dir_count, ri.input_dir_count);
        let left =
            (pairs_of(left, pair_count, ri.output_dir_count, ri.input_dir_count)->Ok_0).1;
        lemma_indices_counted(left, execute_count, Some(ri.output_dir_count));
    }
}

/// The lists of a directory patch before they are written.
pub struct DirContents {
    pub old_paths: Seq<Seq<u8>>,
    pub new_paths: Seq<Seq<u8>>,
    pub old_refs: Seq<i64>,
    pub new_refs: Seq<i64>,
    pub new_ref_sizes: Seq<i64>,
    pub same_pairs: Seq<PairIndexReference>,
    pub new_executes: Seq<i64>,
}

/// The lists as they are written: the old paths, the new paths, the references to old
/// files, those to new files, the sizes of the new files, the pairs, and the executable
/// files.
pub open spec fn lists_written(c: DirContents) -> Seq<u8> {
    texts_written(c.old_paths) + (texts_written(c.new_paths) + (indices_written(c.old_refs) + (
    indices_written(c.new_refs) + (numbers_written(c.new_ref_sizes) + (pairs_written(c.same_pairs)
        + indices_written(c.new_executes))))))
}

/// Whether the counts are those of the lists.
pub open spec fn counts_match(ri: DataReferenceInfo, c: DirContents) -> bool {
    &&& ri.input_dir_count == c.old_paths.len()
    &&& ri.input_sum_size == texts_written(c.old_paths).len()
    &&& ri.output_dir_count == c.new_paths.len()
    &&& ri.output_sum_size == texts_written(c.new_paths).len()
    &&& ri.input_ref_file_count == c.old_refs.len()
    &&& ri.output_ref_file_count == c.new_refs.len()
    &&& c.new_refs.len() == c.new_ref_sizes.len()
    &&& ri.same_file_pair_count == c.same_pairs.len()
    &&& ri.new_execute_count == c.new_executes.len()
}

/// Whether paths hold no zero byte and no index is above the count of its paths.
pub open spec fn lists_valid(c: DirContents) -> bool {
    let old_count = c.old_paths.len() as i64;
    let new_count = c.new_paths.len() as i64;
    &&& no_zeros(c.old_paths)
    &&& no_zeros(c.new_paths)
    &&& are_indices(c.old_refs, Some(old_count))
    &&& are_indices(c.new_refs, Some(new_count))
    &&& are_pairs(c.same_pairs, new_count, old_count)
    &&& are_indices(c.new_executes, Some(new_count))
}

/// The last three lists are read back.
#[verifier::rlimit(40)]
proof fn lemma_more_lists_read_back(c: DirContents, ri: DataReferenceInfo, rest: Seq<u8>)
    requires
        counts_match(ri, c),
        lists_valid(c),
    ensures
        more_lists_of(
            numbers_written(c.new_ref_sizes) + (pairs_written(c.same_pairs) + (indices_written(
                c.new_executes,
            ) + rest)),
            ri,
        ) == Ok::<(DirectoryModel, Seq<u8>), PatchError>(
            (
                DirectoryModel {
                    old_paths: Seq::empty(),
                    new_paths: Seq::empty(),
                    old_refs: Seq::empty(),
                    new_refs: Seq::empty(),
                    new_ref_sizes: c.new_ref_sizes,
                    same_pairs: c.same_pairs,
                    new_executes: c.new_executes,
                },
                rest,
            ),
        ),
{
    let s7 = indices_written(c.new_executes) + rest;
    let s6 = pairs_written(c.same_pairs) + s7;
    law_numbers_read_back(c.new_ref_sizes, s6);
    law_pairs_read_back(c.same_pairs, ri.output_dir_count, ri.input_dir_count, s7);
    law_indices_read_back(c.new_executes, Some(ri.output_dir_count), rest);
}

/// Paths are read back with their count and their size.
proof fn lemma_paths_read_back(paths: Seq<Seq<u8>>, rest: Seq<u8>)
    requires
        no_zeros(paths),
    ensures
        paths_of(
            texts_written(paths) + rest,
            texts_written(paths).len() as int,
            paths.len() as int,
        ) == Ok::<(Seq<Seq<char>>, Seq<u8>), PatchError>((characters(paths), rest)),
{
    let none = Seq::<u8>::empty();
    assert(texts_written(paths) + none =~= texts_written(paths));
    law_paths_read_back(paths, none, paths.len() as int, rest);
    let (read, _) = paths_of(
        texts_written(paths) + rest,
        texts_written(paths).len() as int,
        paths.len() as int,
    )->Ok_0;
    assert(read =~= characters(paths));
}

/// Reading undoes writing for the lists of a directory patch, of any lengths: with counts
/// to match they are read back as they were, and what stands behind them is left.
#[verifier::rlimit(40)]
pub proof fn law_lists_read_back(c: DirContents, ri: DataReferenceInfo, rest: Seq<u8>)
    requires
        counts_match(ri, c),
        lists_valid(c),
    ensures
        lists_of(lists_written(c) + rest, ri) == Ok::<(DirectoryModel, Seq<u8>), PatchError>(
            (
                DirectoryModel {
                    old_paths: characters(c.old_paths),
                    new_paths: characters(c.new_paths),
                    old_refs: c.old_refs,
                    new_refs: c.new_refs,
                    new_ref_sizes: c.new_ref_sizes,
                    same_pairs: c.same_pairs,
                    new_executes: c.new_executes,
                },
                rest,
            ),
        ),
{
    let w7 = indices_written(c.new_executes);
    let w6 = pairs_written(c.same_pairs);
    let w5 = numbers_written(c.new_ref_sizes);
    let w4 = indices_written(c.new_refs);
    let w3 = indices_written(c.old_refs);
    let w2 = texts_written(c.new_paths);
    let w1 = texts_written(c.old_paths);
    let s5 = w5 + (w6 + (w7 + rest));
    let s3 = w3 + (w4 + s5);
    assert(lists_written(c) + rest =~= w1 + (w2 + s3)) by {
        let b5 = w5 + (w6 + w7);
        let b3 = w3 + (w4 + b5);
        assert(s5 =~= b5 + rest);
        assert(s3 =~= b3 + rest);
        assert(lists_written(c) =~= w1 + (w2 + b3));
    }
    lemma_paths_read_back(c.old_paths, w2 + s3);
    lemma_paths_read_back(c.new_paths, s3);
    law_indices_read_back(c.old_refs, Some(ri.input_dir_count), w4 + s5);
    law_indices_read_back(c.new_refs, Some(ri.output_dir_count), s5);
    lemma_more_lists_read_back(c, ri, rest);
}

} // verus!
