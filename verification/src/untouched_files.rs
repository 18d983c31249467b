//! The laws on files that a directory patch does not make: which of them are copied,
//! and which files and directories are created empty.
use crate::similar_files::{
    copies_of, created, creations_from, pairs_with, refers_to, similar_files, FileAction,
};
use crate::structs::{DirectoryModel, PairIndexReference};
use vstd::prelude::*;

verus! {

/// Whether a path is that of a directory: it is empty or ends with a slash.
pub open spec fn is_directory(path: Seq<char>) -> bool {
    path.len() > 0 ==> path[path.len() - 1] == '/'
}

/// Whether the new path of a pair is that of a file.
pub open spec fn has_new_file(dir: DirectoryModel, pair: PairIndexReference) -> bool {
    !is_directory(dir.new_paths[pair.new_index as int])
}

/// Whether a pair stands for paths in both lists. The old one does not matter where the
/// new one is a directory.
pub open spec fn is_pair(dir: DirectoryModel, pair: PairIndexReference) -> bool {
    &&& 0 <= pair.new_index < dir.new_paths.len()
    &&& has_new_file(dir, pair) ==> 0 <= pair.old_index < dir.old_paths.len()
}

/// The pairs of equal files, without those whose new path is that of a directory.
pub open spec fn file_pairs(dir: DirectoryModel, n: int) -> Seq<PairIndexReference> {
    dir.same_pairs.take(n).filter(|pair: PairIndexReference| has_new_file(dir, pair))
}

/// Whether an action copies the old file of a pair to its new path.
pub open spec fn copies_pair(action: FileAction, pair: PairIndexReference) -> bool {
    action matches FileAction::Copy { old_index, new_index } && old_index == pair.old_index
        && new_index == pair.new_index
}

/// The copies of the first pairs are those of the pairs of files.
proof fn lemma_copies(dir: DirectoryModel, n: int)
    requires
        0 <= n <= dir.same_pairs.len(),
        dir.old_paths.len() <= usize::MAX,
        dir.new_paths.len() <= usize::MAX,
    ensures
        copies_of(dir, n) is Some <==> forall|i: int|
            0 <= i < n ==> is_pair(dir, #[trigger] dir.same_pairs[i]),
        copies_of(dir, n) matches Some(actions) ==> {
            &&& actions.len() == file_pairs(dir, n).len()
            &&& forall|k: int|
                0 <= k < actions.len() ==> copies_pair(
                    #[trigger] actions[k],
                    file_pairs(dir, n)[k],
                )
        },
    decreases n,
{
    reveal(Seq::filter);
    if n > 0 {
        lemma_copies(dir, n - 1);
        let pairs = dir.same_pairs.take(n);
        assert(pairs.drop_last() =~= dir.same_pairs.take(n - 1));
        assert(pairs.last() == dir.same_pairs[n - 1]);
    }
}

/// Whether an action creates an empty file or a directory.
pub open spec fn creates(action: FileAction) -> bool {
    !(action is Copy)
}

/// The path that an action creates.
pub open spec fn created_path(action: FileAction) -> int {
    match action {
        FileAction::Copy { new_index, .. } => new_index as int,
        FileAction::CreateDir { dir_index } => dir_index as int,
        FileAction::CreateFile { file_index } => file_index as int,
    }
}

/// Whether every action creates a file or a directory.
pub open spec fn all_create(actions: Seq<FileAction>) -> bool {
    forall|k: int| 0 <= k < actions.len() ==> creates(#[trigger] actions[k])
}

/// Nothing that is created is copied.
proof fn lemma_creations_create(dir: DirectoryModel, path: int, next_ref: int, next_pair: int)
    ensures
        all_create(creations_from(dir, path, next_ref, next_pair)),
    decreases dir.new_paths.len() - path, dir.new_refs.len() - next_ref,
{
    if path < dir.new_paths.len() {
        if refers_to(dir.new_refs, next_ref, path) {
            lemma_creations_create(dir, path + 1, next_ref + 1, next_pair);
            lemma_creations_create(dir, path, next_ref + 1, next_pair);
        } else if pairs_with(dir, next_pair, path) {
            lemma_creations_create(dir, path + 1, next_ref, next_pair + 1);
        } else {
            lemma_creations_create(dir, path + 1, next_ref, next_pair);
            let here = created(dir.new_paths[path], path);
            let more = creations_from(dir, path + 1, next_ref, next_pair);
            let all = creations_from(dir, path, next_ref, next_pair);
            assert(all == here + more);
            assert forall|k: int| 0 <= k < all.len() implies creates(#[trigger] all[k]) by {
                if k >= here.len() {
                    assert(all[k] == more[k - here.len()]);
                } else {
                    assert(all[k] == here[0]);
                }
            }
        }
    }
}

/// Every pair of equal files is copied: there is an answer just where each pair stands for
/// paths, and then the first steps are the copies of the pairs whose new path is that of a
/// file, each from its old path to its new one, in the order of the pairs. No other step
/// is a copy.
pub proof fn law_pairs_copied(dir: DirectoryModel)
    requires
        dir.old_paths.len() <= usize::MAX,
        dir.new_paths.len() <= usize::MAX,
    ensures
        similar_files(dir) is Some <==> forall|i: int|
            0 <= i < dir.same_pairs.len() ==> is_pair(dir, #[trigger] dir.same_pairs[i]),
        similar_files(dir) matches Some(actions) ==> {
            let pairs = file_pairs(dir, dir.same_pairs.len() as int);
            &&& pairs.len() <= actions.len()
            &&& forall|k: int|
                0 <= k < pairs.len() ==> copies_pair(#[trigger] actions[k], pairs[k])
            &&& forall|k: int| pairs.len() <= k < actions.len() ==> creates(#[trigger] actions[k])
            &&& forall|i: int|
                0 <= i < dir.same_pairs.len() && has_new_file(dir, #[trigger] dir.same_pairs[i])
                    ==> exists|k: int|
                    0 <= k < actions.len() && copies_pair(
                        #[trigger] actions[k],
                        dir.same_pairs[i],
                    )
        },
{
    let n = dir.same_pairs.len() as int;
    lemma_copies(dir, n);
    lemma_creations_create(dir, 0, 0, 0);
    assert(dir.same_pairs.take(n) =~= dir.same_pairs);
    if let Some(actions) = similar_files(dir) {
        let copies = copies_of(dir, n)->0;
        let more = creations_from(dir, 0, 0, 0);
        let pairs = file_pairs(dir, n);
        assert forall|k: int| 0 <= k < pairs.len() implies copies_pair(
            #[trigger] actions[k],
            pairs[k],
        ) by {
            assert(actions[k] == copies[k]);
        }
        assert forall|k: int| pairs.len() <= k < actions.len() implies creates(
            #[trigger] actions[k],
        ) by {
            assert(actions[k] == more[k - copies.len()]);
        }
        let pred = |pair: PairIndexReference| has_new_file(dir, pair);
        assert forall|i: int|
            0 <= i < dir.same_pairs.len() && has_new_file(
                dir,
                #[trigger] dir.same_pairs[i],
            ) implies exists|k: int|
            0 <= k < actions.len() && copies_pair(#[trigger] actions[k], dir.same_pairs[i]) by {
            assert(pred(dir.same_pairs[i]));
            dir.same_pairs.lemma_filter_contains(pred, i);
            assert(pairs.contains(dir.same_pairs[i]));
            let k = choose|k: int| 0 <= k < pairs.len() && pairs[k] == dir.same_pairs[i];
            assert(copies_pair(actions[k], dir.same_pairs[i]));
        }
    }
}

/// Whether the patch makes the file at a new path.
pub open spec fn is_made(dir: DirectoryModel, path: int) -> bool {
    exists|k: int| 0 <= k < dir.new_refs.len() && #[trigger] dir.new_refs[k] == path
}

/// Whether a new path is that of a pair of equal files.
pub open spec fn is_copied(dir: DirectoryModel, path: int) -> bool {
    exists|k: int|
        0 <= k < dir.same_pairs.len() && (#[trigger] dir.same_pairs[k]).new_index == path
}

/// Whether a new path is to be created: it is not empty, is no copy, and is not a
/// directory that stands in the list of what the patch makes.
pub open spec fn is_to_create(dir: DirectoryModel, path: int) -> bool {
    &&& 0 <= path < dir.new_paths.len()
    &&& dir.new_paths[path].len() > 0
    &&& !is_copied(dir, path)
    &&& !(is_directory(dir.new_paths[path]) && is_made(dir, path))
}

/// Whether an action creates the path: a directory as one, and any other as a file.
pub open spec fn creates_path(action: FileAction, dir: DirectoryModel, path: int) -> bool {
    match action {
        FileAction::Copy { .. } => false,
        FileAction::CreateDir { dir_index } => dir_index == path && is_directory(
            dir.new_paths[path],
        ),
        FileAction::CreateFile { file_index } => file_index == path && !is_directory(
            dir.new_paths[path],
        ),
    }
}

/// Whether the lists of new files and of pairs ascend, and no directory is in both.
pub open spec fn lists_ascend(dir: DirectoryModel) -> bool {
    &&& forall|j: int, k: int|
        0 <= j < k < dir.new_refs.len() ==> #[trigger] dir.new_refs[j]
            < #[trigger] dir.new_refs[k]
    &&& forall|j: int, k: int|
        0 <= j < k < dir.same_pairs.len() ==> (#[trigger] dir.same_pairs[j]).new_index < (
        #[trigger] dir.same_pairs[k]).new_index
    &&& forall|k: int| 0 <= k < dir.new_refs.len() ==> 0 <= #[trigger] dir.new_refs[k]
    &&& forall|k: int| 0 <= k < dir.same_pairs.len() ==> 0 <= (#[trigger] dir.same_pairs[k]).new_index
    &&& forall|path: int|
        0 <= path < dir.new_paths.len() && is_directory(dir.new_paths[path])
            ==> !(#[trigger] is_made(dir, path) && is_copied(dir, path))
}

/// Whether actions create just the paths from `path` on that are to be created, in
/// ascending order.
pub open spec fn create_all_from(
    actions: Seq<FileAction>,
    dir: DirectoryModel,
    path: int,
) -> bool {
    &&& forall|k: int|
        0 <= k < actions.len() ==> {
            let p = created_path(#[trigger] actions[k]);
            &&& path <= p
            &&& is_to_create(dir, p)
            &&& creates_path(actions[k], dir, p)
        }
    &&& forall|j: int, k: int|
        0 <= j < k < actions.len() ==> created_path(#[trigger] actions[j]) < created_path(
            #[trigger] actions[k],
        )
    &&& forall|p: int|
        path <= p && #[trigger] is_to_create(dir, p) ==> exists|k: int|
            0 <= k < actions.len() && created_path(#[trigger] actions[k]) == p
}

#[verifier::rlimit(40)]
proof fn lemma_creations(dir: DirectoryModel, path: int, next_ref: int, next_pair: int)
    requires
        lists_ascend(dir),
        dir.new_paths.len() <= usize::MAX,
        0 <= path,
        0 <= next_ref <= dir.new_refs.len(),
        0 <= next_pair <= dir.same_pairs.len(),
        forall|k: int| 0 <= k < next_ref ==> #[trigger] dir.new_refs[k] <= path,
        forall|k: int|
            0 <= k < next_ref && #[trigger] dir.new_refs[k] == path && path < dir.new_paths.len()
                ==> !is_directory(dir.new_paths[path]),
        forall|k: int| next_ref <= k < dir.new_refs.len() ==> #[trigger] dir.new_refs[k] >= path,
        forall|k: int| 0 <= k < next_pair ==> (#[trigger] dir.same_pairs[k]).new_index < path,
        forall|k: int|
            next_pair <= k < dir.same_pairs.len() ==> (#[trigger] dir.same_pairs[k]).new_index
                >= path,
    ensures
        create_all_from(creations_from(dir, path, next_ref, next_pair), dir, path),
    decreases dir.new_paths.len() - path, dir.new_refs.len() - next_ref,
{
    let all = creations_from(dir, path, next_ref, next_pair);
    if path >= dir.new_paths.len() {
    } else if refers_to(dir.new_refs, next_ref, path) {
        assert(dir.new_refs[next_ref] == path);
        assert(is_made(dir, path));
        if is_directory(dir.new_paths[path]) {
            assert(!is_copied(dir, path));
            assert forall|k: int|
                next_pair <= k < dir.same_pairs.len() implies (#[trigger] dir.same_pairs[k]).new_index
                >= path + 1 by {
                assert(dir.same_pairs[k].new_index != path);
            }
            lemma_creations(dir, path + 1, next_ref + 1, next_pair);
            assert(!is_to_create(dir, path));
        } else {
            lemma_creations(dir, path, next_ref + 1, next_pair);
        }
    } else if pairs_with(dir, next_pair, path) {
        assert(dir.same_pairs[next_pair].new_index == path);
        assert(is_copied(dir, path));
        assert forall|k: int| next_ref <= k < dir.new_refs.len() implies #[trigger] dir.new_refs[k]
            >= path + 1 by {
            assert(dir.new_refs[next_ref] <= dir.new_refs[k]);
        }
        lemma_creations(dir, path + 1, next_ref, next_pair + 1);
        assert(!is_to_create(dir, path));
    } else {
        assert forall|k: int| next_ref <= k < dir.new_refs.len() implies #[trigger] dir.new_refs[k]
            >= path + 1 by {
            assert(dir.new_refs[next_ref] <= dir.new_refs[k]);
        }
        assert forall|k: int|
            next_pair <= k < dir.same_pairs.len() implies (#[trigger] dir.same_pairs[k]).new_index
            >= path + 1 by {
            assert(dir.same_pairs[next_pair].new_index <= dir.same_pairs[k].new_index);
        }
        lemma_creations(dir, path + 1, next_ref, next_pair);
        assert(!is_copied(dir, path)) by {
            assert forall|k: int| 0 <= k < dir.same_pairs.len() implies (
            #[trigger] dir.same_pairs[k]).new_index != path by {}
        }
        assert(is_directory(dir.new_paths[path]) ==> !is_made(dir, path)) by {
            assert forall|k: int|
                0 <= k < dir.new_refs.len() && is_directory(
                    dir.new_paths[path],
                ) implies #[trigger] dir.new_refs[k] != path by {}
        }
        let here = created(dir.new_paths[path], path);
        let more = creations_from(dir, path + 1, next_ref, next_pair);
        assert(all == here + more);
        assert(is_to_create(dir, path) <==> here.len() == 1);
        assert(here.len() == 1 ==> created_path(here[0]) == path && creates_path(
            here[0],
            dir,
            path,
        ));
        assert(here.len() <= 1);
        lemma_created_before(here, more, dir, path);
    }
}

/// A path that is created before all others.
proof fn lemma_created_before(
    here: Seq<FileAction>,
    more: Seq<FileAction>,
    dir: DirectoryModel,
    path: int,
)
    requires
        create_all_from(more, dir, path + 1),
        here.len() <= 1,
        is_to_create(dir, path) <==> here.len() == 1,
        here.len() == 1 ==> created_path(here[0]) == path && creates_path(here[0], dir, path),
    ensures
        create_all_from(here + more, dir, path),
{
    let all = here + more;
    let n = here.len() as int;
    assert forall|k: int| 0 <= k < all.len() implies {
        let p = created_path(#[trigger] all[k]);
        &&& path <= p
        &&& is_to_create(dir, p)
        &&& creates_path(all[k], dir, p)
    } by {
        if k >= n {
            assert(all[k] == more[k - n]);
        } else {
            assert(all[k] == here[0]);
        }
    }
    assert forall|j: int, k: int| 0 <= j < k < all.len() implies created_path(
        #[trigger] all[j],
    ) < created_path(#[trigger] all[k]) by {
        assert(all[k] == more[k - n]);
        if j >= n {
            assert(all[j] == more[j - n]);
        }
    }
    assert forall|p: int| path <= p && #[trigger] is_to_create(dir, p) implies exists|k: int|
        0 <= k < all.len() && created_path(#[trigger] all[k]) == p by {
        if p == path {
            assert(created_path(all[0]) == p);
        } else {
            let k = choose|k: int| 0 <= k < more.len() && created_path(#[trigger] more[k]) == p;
            assert(all[k + n] == more[k]);
        }
    }
}

/// Where the lists of new files and of pairs ascend, the steps behind the copies create
/// just the paths that are to be created, each once and in their order: a directory as
/// one, and any other path as an empty file.
pub proof fn law_others_created(dir: DirectoryModel)
    requires
        lists_ascend(dir),
        dir.old_paths.len() <= usize::MAX,
        dir.new_paths.len() <= usize::MAX,
    ensures
        similar_files(dir) matches Some(actions) ==> create_all_from(
            actions.skip(file_pairs(dir, dir.same_pairs.len() as int).len() as int),
            dir,
            0,
        ),
{
    let n = dir.same_pairs.len() as int;
    lemma_copies(dir, n);
    lemma_creations(dir, 0, 0, 0);
    if let Some(actions) = similar_files(dir) {
        let copies = copies_of(dir, n)->0;
        assert(actions.skip(copies.len() as int) =~= creations_from(dir, 0, 0, 0));
    }
}

} // verus!
