//! The laws on the new files of a directory patch: that its lists are found in its head,
//! and that the patch gives back the files which it was written for.
use crate::combined::{joined, sizes_fit, sum_of};
use crate::error::PatchError;
use crate::header::header_of;
use crate::joined_files::{all_of, are_sizes, law_cut_up_again};
use crate::patch_dir::{
    blank_output, dir_data_of, dir_of, dir_patched, dir_set_up, files_set_up, head_of, is_place,
    lists_of, new_sizes_of, no_output, paths_at, DirOutputModel, DirSetup,
};
use crate::similar_files::similar_files;
use crate::structs::{CompressionMode, DataReferenceInfo, DirectoryModel, HeaderModel};
use crate::varint::as_unsigned;
use crate::written_file::{
    can_be_stored, law_part_found, law_patch_opened, lemma_clips_restore, patch_written, Made,
    StoredPart, StoredParts,
};
use vstd::prelude::*;

verus! {

/// Each number stands for the path at its place, and where one stands for no path there is
/// no answer.
pub proof fn law_paths_at(paths: Seq<Seq<char>>, refs: Seq<i64>)
    ensures
        paths_at(paths, refs) is None <==> exists|i: int|
            0 <= i < refs.len() && (#[trigger] refs[i] < 0 || refs[i] >= paths.len()),
        paths_at(paths, refs) matches Some(found) ==> {
            &&& found.len() == refs.len()
            &&& forall|i: int| 0 <= i < refs.len() ==> #[trigger] found[i] == paths[refs[i] as int]
        },
{
    if paths_at(paths, refs) is None {
        let i = choose|i: int|
            0 <= i < refs.len() && !is_place(
                #[trigger] refs[i],
                paths.len() as int,
            );
        assert(refs[i] < 0 || refs[i] >= paths.len());
    } else {
        assert forall|i: int| 0 <= i < refs.len() implies 0 <= #[trigger] refs[i] < paths.len() by {
            assert(is_place(refs[i], paths.len() as int));
        }
    }
}

/// The head of a directory patch is found at its place, as it stands there or decompressed, and
/// its lists are read from it.
pub proof fn law_head_found(
    front: Seq<u8>,
    head: StoredPart,
    rest: Seq<u8>,
    mode: CompressionMode,
    ri: DataReferenceInfo,
)
    requires
        head.valid(),
        0 <= head.size,
        front.len() + head.bytes.len() <= i64::MAX,
        ri.head_data_offset == front.len(),
        ri.head_data_size == head.size,
        ri.head_data_compressed_size == head.compressed_size(),
        mode is Zlib ==> !head.is_compressed,
    ensures
        head_of(front + head.bytes + rest, mode, ri) == head.clear(mode),
        dir_of(front + head.bytes + rest, mode, ri) == match head.clear(mode) {
            Err(e) => Err::<DirectoryModel, PatchError>(e),
            Ok(clear) => match lists_of(clear, ri) {
                Err(e) => Err(e),
                Ok((dir, _)) => Ok(dir),
            },
        },
{
    law_part_found(front, head, rest, mode, 0);
}

/// Patching undoes writing for directories: a patch for new data that is made of the new files,
/// one behind the other, out of the old files, one behind the other, gives each new file back,
/// along with what is to be done with the other files.
#[verifier::rlimit(40)]
pub proof fn law_directory_restored(
    front: Seq<u8>,
    line: Seq<u8>,
    made: Made,
    parts: StoredParts,
    rest: Seq<u8>,
    header: HeaderModel,
    ri: DataReferenceInfo,
    dir: DirectoryModel,
    old_files: Seq<Vec<u8>>,
    new_files: Seq<Seq<u8>>,
)
    requires
        old_files.len() > 0,
        can_be_stored(line, made, parts),
        made.valid(joined(old_files, old_files.len() as int)),
        front.len() + patch_written(
            line,
            made,
            joined(old_files, old_files.len() as int),
            parts,
        ).len() <= i64::MAX,
        made.wanted == all_of(new_files),
        !header.is_single_compressed_diff,
        ri.hdiff_data_offset == front.len(),
        new_files.len() > 0,
        dir.new_refs.len() == new_files.len(),
        dir.new_ref_sizes.len() == new_files.len(),
        forall|i: int|
            0 <= i < new_files.len() ==> {
                &&& #[trigger] dir.new_ref_sizes[i] == new_files[i].len()
                &&& new_files[i].len() <= isize::MAX
            },
        paths_at(dir.new_paths, dir.new_refs) is Some,
        similar_files(dir) is Some,
    ensures
        ({
            let old = joined(old_files, old_files.len() as int);
            let patch = front + patch_written(line, made, old, parts) + rest;
            dir_set_up(patch, header, ri, dir, old_files) matches Ok(setup) && {
                &&& setup.old_data == old
                &&& setup.sizes.len() == new_files.len()
                &&& dir_patched(setup, dir) matches Ok(output) && {
                    &&& output.files == new_files
                    &&& similar_files(dir) == Some(output.actions)
                }
            }
        }),
{
    let old = joined(old_files, old_files.len() as int);
    let patch = front + patch_written(line, made, old, parts) + rest;
    law_patch_opened(front, line, made, old, parts, rest, ""@);
    let sizes = new_sizes_of(dir)->0;
    assert(are_sizes(sizes, new_files)) by {
        assert forall|i: int| 0 <= i < new_files.len() implies #[trigger] sizes[i]
            == new_files[i].len() by {
            assert(dir.new_ref_sizes[i] == new_files[i].len());
        }
    }
    law_cut_up_again(new_files, sizes);
    assert(sizes_fit(sizes)) by {
        assert forall|i: int| 0 <= i < sizes.len() implies #[trigger] sizes[i] <= isize::MAX by {
            assert(dir.new_ref_sizes[i] == new_files[i].len());
        }
    }
    lemma_clips_restore(made, old, old.len() as int);
    let (_, inner, _, _) = header_of(patch, front.len() as int, ""@)->Ok_0;
    assert(dir_set_up(patch, header, ri, dir, old_files) == files_set_up(
        patch,
        inner,
        sizes,
        old_files,
    ));
}

/// A directory patch is refused, before any file is made, where a new file has no path or no
/// size, where the patch inside is compressed as a whole, and where it starts before the file
/// does. Where the old files have another size than the header gives, the new files have their
/// sizes already, and hold zeros.
pub proof fn law_directory_refused(
    patch: Seq<u8>,
    header: HeaderModel,
    ri: DataReferenceInfo,
    dir: DirectoryModel,
    old_files: Seq<Vec<u8>>,
)
    ensures
        ({
            let refused = dir_set_up(patch, header, ri, dir, old_files);
            let old = joined(old_files, old_files.len() as int);
            let inner = header_of(patch, ri.hdiff_data_offset as int, ""@);
            if paths_at(dir.new_paths, dir.new_refs) is None || dir.new_ref_sizes.len()
                < dir.new_refs.len() {
                refused matches Err(why) && {
                    &&& why.error == PatchError::Malformed
                    &&& why.made == no_output()
                }
            } else if header.is_single_compressed_diff {
                refused matches Err(why) && {
                    &&& why.error == PatchError::SingleCompressedDir
                    &&& why.made == no_output()
                }
            } else if ri.hdiff_data_offset < 0 {
                refused matches Err(why) && {
                    &&& why.error == PatchError::InvalidSeek
                    &&& why.made == no_output()
                }
            } else if inner is Err {
                refused matches Err(why) && why.error == inner->Err_0 && why.made == no_output()
            } else if old_files.len() == 0 || dir.new_refs.len() == 0 {
                refused matches Err(why) && why.made == no_output()
            } else {
                refused matches Ok(setup) ==> {
                    &&& setup.header == (inner->Ok_0).1
                    &&& setup.old_data == old
                    &&& old.len() <= i64::MAX ==> old.len() == setup.header.old_data_size
                    &&& setup.sizes.len() == dir.new_refs.len()
                    &&& forall|i: int|
                        0 <= i < setup.sizes.len() ==> #[trigger] setup.sizes[i] == as_unsigned(
                            dir.new_ref_sizes[i],
                        )
                }
            }
        }),
{
}

/// A directory patch makes no files where a pair of equal files stands for no paths, where its
/// new data cannot be made, and where that is more than the new files hold.
pub proof fn law_directory_not_made(setup: DirSetup, dir: DirectoryModel)
    ensures
        similar_files(dir) is None ==> dir_patched(setup, dir) == Err::<DirOutputModel, PatchError>(
            PatchError::Malformed,
        ),
        similar_files(dir) is Some ==> match dir_data_of(setup) {
            Err(e) => dir_patched(setup, dir) == Err::<DirOutputModel, PatchError>(e),
            Ok((data, reports)) => if data.len() > sum_of(
                setup.sizes,
                setup.sizes.len() as int,
            ) {
                dir_patched(setup, dir) == Err::<DirOutputModel, PatchError>(PatchError::Malformed)
            } else {
                dir_patched(setup, dir) matches Ok(output) && {
                    &&& Some(output.actions) == similar_files(dir)
                    &&& output.files.len() == setup.sizes.len()
                    &&& output.reports == reports
                }
            },
        },
{
}

/// The new files that a directory patch leaves blank have the sizes of their list, and hold
/// nothing but zeros.
pub proof fn law_blank_files(sizes: Seq<u64>, i: int, k: int)
    requires
        0 <= i < sizes.len(),
        0 <= k < sizes[i],
    ensures
        blank_output(sizes).files.len() == sizes.len(),
        blank_output(sizes).files[i].len() == sizes[i],
        blank_output(sizes).files[i][k] == 0,
{
    lemma_sum_ascends(sizes, i, sizes.len() as int);
    lemma_sum_ascends(sizes, i + 1, sizes.len() as int);
}

proof fn lemma_sum_ascends(sizes: Seq<u64>, i: int, n: int)
    requires
        0 <= i <= n <= sizes.len(),
    ensures
        0 <= sum_of(sizes, i) <= sum_of(sizes, n),
    decreases n,
{
    if i < n {
        lemma_sum_ascends(sizes, i, n - 1);
    } else if n > 0 {
        lemma_sum_ascends(sizes, n - 1, n - 1);
    }
}

} // verus!
