//! What is to be done with the files that a directory patch does not make: which
//! old files are copied, and which new files and directories are created empty.
use crate::error::PatchError;
use crate::patch_core::{names_dir, PatchCoreImpl};
use crate::structs::{DirectoryModel, DirectoryReferencePair};
use crate::varint::to_unsigned;
use vstd::prelude::*;

verus! {

/// One step on the files of a new directory. Each number is a place in a list
/// of paths.
#[derive(Debug, Clone, Copy, PartialEq, Eq, Structural)]
pub enum FileAction {
    /// Copy an old file, and create the directories it goes to.
    Copy { old_index: usize, new_index: usize },
    /// Create a directory and those above it.
    CreateDir { dir_index: usize },
    /// Create an empty file where there is none.
    CreateFile { file_index: usize },
}

/// The copies that the first `n` pairs of files with equal contents ask for.
/// A pair whose new path is a directory asks for none. There is no answer where
/// a pair points outside a list.
pub open spec fn copies_of(dir: DirectoryModel, n: int) -> Option<Seq<FileAction>>
    decreases n,
{
    if n <= 0 {
        Some(Seq::empty())
    } else {
        match copies_of(dir, n - 1) {
            None => None,
            Some(actions) => {
                let pair = dir.same_pairs[n - 1];
                if !(0 <= pair.new_index < dir.new_paths.len()) {
                    None
                } else if names_dir(dir.new_paths[pair.new_index as int]) {
                    Some(actions)
                } else if !(0 <= pair.old_index < dir.old_paths.len()) {
                    None
                } else {
                    Some(
                        actions.push(
                            FileAction::Copy {
                                old_index: pair.old_index as usize,
                                new_index: pair.new_index as usize,
                            },
                        ),
                    )
                }
            },
        }
    }
}

proof fn lemma_copies_none(dir: DirectoryModel, i: int, n: int)
    requires
        i <= n,
        copies_of(dir, i) is None,
    ensures
        copies_of(dir, n) is None,
    decreases n,
{
    if i < n {
        lemma_copies_none(dir, i, n - 1);
    }
}

/// What a path that nothing else makes asks for.
pub open spec fn created(path: Seq<char>, index: int) -> Seq<FileAction> {
    if path.len() == 0 {
        Seq::empty()
    } else if names_dir(path) {
        seq![FileAction::CreateDir { dir_index: index as usize }]
    } else {
        seq![FileAction::CreateFile { file_index: index as usize }]
    }
}

/// Whether the number at `at` of a list is `index`.
pub open spec fn refers_to(list: Seq<i64>, at: int, index: int) -> bool {
    at < list.len() && list[at] == index
}

/// Whether the pair at `at` of the list of pairs has the new path `index`.
pub open spec fn pairs_with(dir: DirectoryModel, at: int, index: int) -> bool {
    at < dir.same_pairs.len() && dir.same_pairs[at].new_index == index
}

/// What the new paths from `path` on ask for, where the patch makes those from
/// `next_ref` on in its list, and the pairs from `next_pair` on are copies.
/// A file that the patch makes is passed in its list and then looked at again.
pub open spec fn creations_from(
    dir: DirectoryModel,
    path: int,
    next_ref: int,
    next_pair: int,
) -> Seq<FileAction>
    decreases dir.new_paths.len() - path, dir.new_refs.len() - next_ref,
{
    if path >= dir.new_paths.len() {
        Seq::empty()
    } else if refers_to(dir.new_refs, next_ref, path) {
        if names_dir(dir.new_paths[path]) {
            creations_from(dir, path + 1, next_ref + 1, next_pair)
        } else {
            creations_from(dir, path, next_ref + 1, next_pair)
        }
    } else if pairs_with(dir, next_pair, path) {
        creations_from(dir, path + 1, next_ref, next_pair + 1)
    } else {
        created(dir.new_paths[path], path) + creations_from(dir, path + 1, next_ref, next_pair)
    }
}

/// All that is to be done with the files that the patch does not make.
pub open spec fn similar_files(dir: DirectoryModel) -> Option<Seq<FileAction>> {
    match copies_of(dir, dir.same_pairs.len() as int) {
        None => None,
        Some(copies) => Some(copies + creations_from(dir, 0, 0, 0)),
    }
}

/// Whether an action stays within the lists of paths.
pub open spec fn within(action: FileAction, dir: DirectoryModel) -> bool {
    match action {
        FileAction::Copy { old_index, new_index } => old_index < dir.old_paths.len() && new_index
            < dir.new_paths.len(),
        FileAction::CreateDir { dir_index } => dir_index < dir.new_paths.len(),
        FileAction::CreateFile { file_index } => file_index < dir.new_paths.len(),
    }
}

/// Whether every action stays within the lists of paths.
pub open spec fn all_within(actions: Seq<FileAction>, dir: DirectoryModel) -> bool {
    forall|i: int| 0 <= i < actions.len() ==> #[trigger] within(actions[i], dir)
}

proof fn lemma_copies_within(dir: DirectoryModel, n: int)
    requires
        dir.old_paths.len() <= usize::MAX,
        dir.new_paths.len() <= usize::MAX,
        n <= dir.same_pairs.len(),
    ensures
        copies_of(dir, n) matches Some(actions) ==> all_within(actions, dir),
    decreases n,
{
    if n > 0 {
        lemma_copies_within(dir, n - 1);
    }
}

proof fn lemma_creations_within(dir: DirectoryModel, path: int, next_ref: int, next_pair: int)
    requires
        dir.new_paths.len() <= usize::MAX,
        0 <= path,
    ensures
        all_within(creations_from(dir, path, next_ref, next_pair), dir),
    decreases dir.new_paths.len() - path, dir.new_refs.len() - next_ref,
{
    if path >= dir.new_paths.len() {
    } else if refers_to(dir.new_refs, next_ref, path) {
        if names_dir(dir.new_paths[path]) {
            lemma_creations_within(dir, path + 1, next_ref + 1, next_pair);
        } else {
            lemma_creations_within(dir, path, next_ref + 1, next_pair);
        }
    } else if pairs_with(dir, next_pair, path) {
        lemma_creations_within(dir, path + 1, next_ref, next_pair + 1);
    } else {
        lemma_creations_within(dir, path + 1, next_ref, next_pair);
        let here = created(dir.new_paths[path], path);
        let rest = creations_from(dir, path + 1, next_ref, next_pair);
        assert forall|i: int| 0 <= i < (here + rest).len() implies #[trigger] within(
            (here + rest)[i],
            dir,
        ) by {
            if i >= here.len() {
                assert(within(rest[i - here.len()], dir));
            }
        }
    }
}

/// Every step speaks of paths that the patch lists.
pub proof fn law_similar_files_within(dir: DirectoryModel)
    requires
        dir.old_paths.len() <= usize::MAX,
        dir.new_paths.len() <= usize::MAX,
    ensures
        similar_files(dir) matches Some(actions) ==> all_within(actions, dir),
{
    lemma_copies_within(dir, dir.same_pairs.len() as int);
    lemma_creations_within(dir, 0, 0, 0);
    if let Some(copies) = copies_of(dir, dir.same_pairs.len() as int) {
        let creations = creations_from(dir, 0, 0, 0);
        assert forall|i: int| 0 <= i < (copies + creations).len() implies #[trigger] within(
            (copies + creations)[i],
            dir,
        ) by {
            if i >= copies.len() {
                assert(within(creations[i - copies.len()], dir));
            } else {
                assert(within(copies[i], dir));
            }
        }
    }
}

/// Tells whether the number at `at` of a list is `index`.
fn number_is(list: &Vec<i64>, at: usize, index: usize) -> (r: bool)
    ensures
        r == refers_to(list@, at as int, index as int),
{
    at < list.len() && list[at] >= 0 && to_unsigned(list[at]) == index as u64
}

impl PatchCoreImpl {
    /// What is to be done with the files that the patch does not make, where
    /// this is a directory patch.
    pub fn run_copy_similar_files_routine(&self) -> (r: Result<Vec<FileAction>, PatchError>)
        ensures
            match self.dir_reference_pair {
                None => r matches Ok(actions) && actions@ == Seq::<FileAction>::empty(),
                Some(dir) => match r {
                    Ok(actions) => similar_files(dir.deep_view()) == Some(actions@),
                    Err(e) => e == PatchError::Malformed && similar_files(dir.deep_view()) is None,
                },
            },
    {
        match &self.dir_reference_pair {
            None => Ok(Vec::new()),
            Some(dir) => Self::copy_old_similar_to_new_files(dir),
        }
    }

    /// The copies that the pairs of files with equal contents ask for.
    fn copies(dir_data: &DirectoryReferencePair) -> (r: Result<Vec<FileAction>, PatchError>)
        ensures
            ({
                let dir = dir_data.deep_view();
                let want = copies_of(dir, dir.same_pairs.len() as int);
                match r {
                    Ok(actions) => want == Some(actions@),
                    Err(e) => e == PatchError::Malformed && want is None,
                }
            }),
    {
        let ghost dir = dir_data.deep_view();
        let ghost count = dir.same_pairs.len() as int;
        let mut actions: Vec<FileAction> = Vec::new();
        let mut i: usize = 0;
        let new_count = dir_data.new_utf8_path_list.len();
        let old_count = dir_data.old_utf8_path_list.len();
        while i < dir_data.data_same_pair_list.len()
            invariant
                i <= count,
                dir == dir_data.deep_view(),
                count == dir.same_pairs.len(),
                new_count == dir.new_paths.len(),
                old_count == dir.old_paths.len(),
                copies_of(dir, i as int) == Some(actions@),
            decreases count - i,
        {
            let pair = dir_data.data_same_pair_list[i];
            i = i + 1;
            proof {
                if copies_of(dir, i as int) is None {
                    lemma_copies_none(dir, i as int, count);
                }
            }
            if pair.new_index < 0 || to_unsigned(pair.new_index) >= new_count as u64 {
                return Err(PatchError::Malformed);
            }
            let new_index: usize = pair.new_index as usize;
            if Self::is_path_a_dir(dir_data.new_utf8_path_list[new_index].as_str()) {
                continue ;
            }
            if pair.old_index < 0 || to_unsigned(pair.old_index) >= old_count as u64 {
                return Err(PatchError::Malformed);
            }
            let old_index: usize = pair.old_index as usize;
            actions.push(FileAction::Copy { old_index, new_index });
        }
        Ok(actions)
    }

    /// What is to be done with the files that the patch does not make: first
    /// the copies, and then what is created, in the order of the new paths.
    pub fn copy_old_similar_to_new_files(dir_data: &DirectoryReferencePair) -> (r: Result<
        Vec<FileAction>,
        PatchError,
    >)
        ensures
            match r {
                Ok(actions) => similar_files(dir_data.deep_view()) == Some(actions@),
                Err(e) => e == PatchError::Malformed && similar_files(dir_data.deep_view()) is None,
            },
    {
        let ghost dir = dir_data.deep_view();
        let mut actions = Self::copies(dir_data)?;
        let ghost copies = actions@;
        let path_count = dir_data.new_utf8_path_list.len();
        let new_ref_count = dir_data.new_ref_list.len();
        let same_pair_count = dir_data.data_same_pair_list.len();
        let mut cur_new_ref_index: usize = 0;
        let mut cur_path_index: usize = 0;
        let mut cur_same_pair_index: usize = 0;
        while cur_path_index < path_count
            invariant
                dir == dir_data.deep_view(),
                path_count == dir.new_paths.len(),
                new_ref_count == dir.new_refs.len(),
                same_pair_count == dir.same_pairs.len(),
                cur_path_index <= path_count,
                cur_new_ref_index <= new_ref_count,
                cur_same_pair_index <= same_pair_count,
                actions@ + creations_from(
                    dir,
                    cur_path_index as int,
                    cur_new_ref_index as int,
                    cur_same_pair_index as int,
                ) == copies + creations_from(dir, 0, 0, 0),
            decreases path_count - cur_path_index, new_ref_count - cur_new_ref_index,
        {
            let is_new_ref = number_is(&dir_data.new_ref_list, cur_new_ref_index, cur_path_index);
            let is_same_pair = cur_same_pair_index < same_pair_count
                && dir_data.data_same_pair_list[cur_same_pair_index].new_index >= 0 && to_unsigned(
                dir_data.data_same_pair_list[cur_same_pair_index].new_index,
            ) == cur_path_index as u64;
            let path = dir_data.new_utf8_path_list[cur_path_index].as_str();
            assert(path@ == dir.new_paths[cur_path_index as int]);
            if is_new_ref {
                if Self::is_path_a_dir(path) {
                    cur_path_index = cur_path_index + 1;
                }
                cur_new_ref_index = cur_new_ref_index + 1;
            } else if is_same_pair {
                cur_same_pair_index = cur_same_pair_index + 1;
                cur_path_index = cur_path_index + 1;
            } else {
                let ghost before = actions@;
                if path.unicode_len() != 0 {
                    if Self::is_path_a_dir(path) {
                        actions.push(FileAction::CreateDir { dir_index: cur_path_index });
                    } else {
                        actions.push(FileAction::CreateFile { file_index: cur_path_index });
                    }
                }
                assert(actions@ =~= before + created(path@, cur_path_index as int));
                cur_path_index = cur_path_index + 1;
                assert(actions@ + creations_from(
                    dir,
                    cur_path_index as int,
                    cur_new_ref_index as int,
                    cur_same_pair_index as int,
                ) =~= before + creations_from(
                    dir,
                    cur_path_index - 1,
                    cur_new_ref_index as int,
                    cur_same_pair_index as int,
                ));
            }
        }
        assert(actions@ =~= actions@ + Seq::<FileAction>::empty());
        Ok(actions)
    }
}

} // verus!
