//! Patches of a whole directory.
use crate::clips::{
    clips_of, decoder_used, less_padding, open_clips, padded, padding_for, padding_of,
};
use crate::combined::{
    capacity_of, cut_files, cut_up, joined, sizes_fit, sum_of, CombinedStream,
};
use crate::compression_utils::{clip_of, get_clip_stream, held_plain};
use crate::error::PatchError;
use crate::header::{header_of, Header};
use crate::parser::{
    get_longs_from_stream, get_longs_from_stream_absolute, get_pair_index_reference_from_stream,
    get_paths_from_stream, indices_of, law_indices_bounded, law_pairs_bounded, lemma_longs_len,
    longs_of, pairs_of, paths_of, reads, ByteSource, ByteStream,
};
use crate::partial_header::header_left;
use crate::patch_core::{holds_front, ClipsModel, PatchCoreImpl};
use crate::patch_single::{clips_patched, data_made, reports_made};
use crate::similar_files::{similar_files, FileAction};
use crate::structs::{
    CompressionMode, DataReferenceInfo, DirectoryModel, DirectoryReferencePair, HeaderInfo,
    HeaderModel,
};
use crate::varint::{as_signed, as_unsigned, to_signed, to_unsigned};
use vstd::prelude::*;

verus! {

/// The lists in the head of a directory patch that has these counts.
pub open spec fn lists_of(rest: Seq<u8>, ri: DataReferenceInfo) -> Result<
    (DirectoryModel, Seq<u8>),
    PatchError,
> {
    match paths_of(
        rest,
        as_unsigned(ri.input_sum_size) as int,
        as_unsigned(ri.input_dir_count) as int,
    ) {
        Err(e) => Err(e),
        Ok((old_paths, left)) => match paths_of(
            left,
            as_unsigned(ri.output_sum_size) as int,
            as_unsigned(ri.output_dir_count) as int,
        ) {
            Err(e) => Err(e),
            Ok((new_paths, left)) => match indices_of(
                left,
                as_unsigned(ri.input_ref_file_count) as int,
                Some(ri.input_dir_count),
            ) {
                Err(e) => Err(e),
                Ok((old_refs, left)) => match indices_of(
                    left,
                    as_unsigned(ri.output_ref_file_count) as int,
                    Some(ri.output_dir_count),
                ) {
                    Err(e) => Err(e),
                    Ok((new_refs, left)) => match more_lists_of(left, ri) {
                        Err(e) => Err(e),
                        Ok((dir, left)) => Ok(
                            (
                                DirectoryModel { old_paths, new_paths, old_refs, new_refs, ..dir },
                                left,
                            ),
                        ),
                    },
                },
            },
        },
    }
}

/// The sizes of the new files, the pairs of equal files and the executable files
/// that the head of a directory patch lists last.
pub open spec fn more_lists_of(rest: Seq<u8>, ri: DataReferenceInfo) -> Result<
    (DirectoryModel, Seq<u8>),
    PatchError,
> {
    match longs_of(rest, as_unsigned(ri.output_ref_file_count) as int) {
        Err(e) => Err(e),
        Ok((new_ref_sizes, left)) => match pairs_of(
            left,
            as_unsigned(ri.same_file_pair_count) as int,
            ri.output_dir_count,
            ri.input_dir_count,
        ) {
            Err(e) => Err(e),
            Ok((same_pairs, left)) => match indices_of(
                left,
                as_unsigned(ri.new_execute_count as i64) as int,
                Some(ri.output_dir_count),
            ) {
                Err(e) => Err(e),
                Ok((new_executes, left)) => Ok(
                    (
                        DirectoryModel {
                            old_paths: Seq::empty(),
                            new_paths: Seq::empty(),
                            old_refs: Seq::empty(),
                            new_refs: Seq::empty(),
                            new_ref_sizes,
                            same_pairs,
                            new_executes,
                        },
                        left,
                    ),
                ),
            },
        },
    }
}

/// Every new file that a patch makes has a size, and no number in the lists of a
/// directory patch lies above the count of the paths that it points to.
pub proof fn law_lists_bounded(rest: Seq<u8>, ri: DataReferenceInfo)
    ensures
        lists_of(rest, ri) matches Ok((dir, _)) ==> {
            &&& dir.new_ref_sizes.len() == dir.new_refs.len()
            &&& forall|i: int|
                0 <= i < dir.old_refs.len() ==> #[trigger] dir.old_refs[i] <= ri.input_dir_count
            &&& forall|i: int|
                0 <= i < dir.new_refs.len() ==> #[trigger] dir.new_refs[i] <= ri.output_dir_count
            &&& forall|i: int|
                0 <= i < dir.new_executes.len() ==> #[trigger] dir.new_executes[i]
                    <= ri.output_dir_count
            &&& forall|i: int|
                0 <= i < dir.same_pairs.len() ==> {
                    &&& (#[trigger] dir.same_pairs[i]).new_index <= ri.output_dir_count
                    &&& dir.same_pairs[i].old_index <= ri.input_dir_count
                }
        },
{
    if let Ok((old_paths, left)) = paths_of(
        rest,
        as_unsigned(ri.input_sum_size) as int,
        as_unsigned(ri.input_dir_count) as int,
    ) {
        if let Ok((new_paths, left)) = paths_of(
            left,
            as_unsigned(ri.output_sum_size) as int,
            as_unsigned(ri.output_dir_count) as int,
        ) {
            let old_count = as_unsigned(ri.input_ref_file_count) as int;
            let new_count = as_unsigned(ri.output_ref_file_count) as int;
            law_indices_bounded(left, old_count, ri.input_dir_count);
            if let Ok((_, left)) = indices_of(left, old_count, Some(ri.input_dir_count)) {
                law_indices_bounded(left, new_count, ri.output_dir_count);
                if let Ok((_, left)) = indices_of(left, new_count, Some(ri.output_dir_count)) {
                    lemma_more_lists_bounded(left, ri);
                }
            }
        }
    }
}

proof fn lemma_more_lists_bounded(rest: Seq<u8>, ri: DataReferenceInfo)
    ensures
        more_lists_of(rest, ri) matches Ok((dir, _)) ==> {
            &&& dir.new_ref_sizes.len() == as_unsigned(ri.output_ref_file_count)
            &&& forall|i: int|
                0 <= i < dir.new_executes.len() ==> #[trigger] dir.new_executes[i]
                    <= ri.output_dir_count
            &&& forall|i: int|
                0 <= i < dir.same_pairs.len() ==> {
                    &&& (#[trigger] dir.same_pairs[i]).new_index <= ri.output_dir_count
                    &&& dir.same_pairs[i].old_index <= ri.input_dir_count
                }
        },
{
    let new_count = as_unsigned(ri.output_ref_file_count) as int;
    let pair_count = as_unsigned(ri.same_file_pair_count) as int;
    lemma_longs_len(rest, new_count);
    if let Ok((_, left)) = longs_of(rest, new_count) {
        law_pairs_bounded(left, pair_count, ri.output_dir_count, ri.input_dir_count);
        if let Ok((_, left)) = pairs_of(
            left,
            pair_count,
            ri.output_dir_count,
            ri.input_dir_count,
        ) {
            law_indices_bounded(
                left,
                as_unsigned(ri.new_execute_count as i64) as int,
                ri.output_dir_count,
            );
        }
    }
}

/// The bytes of the head of a directory patch.
pub open spec fn head_of(patch: Seq<u8>, comp_mode: CompressionMode, ri: DataReferenceInfo) -> Result<
    Seq<u8>,
    PatchError,
> {
    let padding = padding_of(comp_mode);
    clip_of(
        patch,
        comp_mode,
        padded(as_unsigned(ri.head_data_offset) as int, ri.head_data_compressed_size, padding),
        as_unsigned(ri.head_data_size) as int,
        head_comp_size(comp_mode, ri),
    )
}

/// How many bytes the head of a directory patch takes up where it is compressed.
pub open spec fn head_comp_size(comp_mode: CompressionMode, ri: DataReferenceInfo) -> int {
    if ri.head_data_compressed_size > 0 {
        less_padding(ri.head_data_compressed_size, padding_of(comp_mode))
    } else {
        as_unsigned(ri.head_data_compressed_size) as int
    }
}

/// The lists of a directory patch.
pub open spec fn dir_of(patch: Seq<u8>, comp_mode: CompressionMode, ri: DataReferenceInfo) -> Result<
    DirectoryModel,
    PatchError,
> {
    match head_of(patch, comp_mode, ri) {
        Err(e) => Err(e),
        Ok(head) => match lists_of(head, ri) {
            Err(e) => Err(e),
            Ok((dir, _)) => Ok(dir),
        },
    }
}

/// Whether a number is a place in a list of `len` items.
pub open spec fn is_place(v: i64, len: int) -> bool {
    0 <= v < len
}

/// The paths that some numbers point to, where each points to one.
pub open spec fn paths_at(paths: Seq<Seq<char>>, refs: Seq<i64>) -> Option<Seq<Seq<char>>> {
    if forall|i: int| 0 <= i < refs.len() ==> is_place(#[trigger] refs[i], paths.len() as int) {
        Some(Seq::new(refs.len(), |i: int| paths[refs[i] as int]))
    } else {
        None
    }
}

/// A new file that a patch makes.
pub struct NewFile {
    pub path: String,
    pub size: u64,
}

/// What comes of a directory patch.
pub struct DirOutput {
    /// What is to be done with the files that the patch does not make.
    pub actions: Vec<FileAction>,
    /// The bytes of the new files that it makes.
    pub files: Vec<Vec<u8>>,
    /// How much new data was passed on each time.
    pub reports: Vec<i64>,
}

/// What comes of a directory patch, as contracts speak of it.
pub struct DirOutputModel {
    pub actions: Seq<FileAction>,
    pub files: Seq<Seq<u8>>,
    pub reports: Seq<i64>,
}

impl DeepView for DirOutput {
    type V = DirOutputModel;

    open spec fn deep_view(&self) -> DirOutputModel {
        DirOutputModel {
            actions: self.actions@,
            files: self.files.deep_view(),
            reports: self.reports@,
        }
    }
}

/// The sizes of the new files that a patch makes.
pub open spec fn new_sizes_of(dir: DirectoryModel) -> Option<Seq<u64>> {
    if paths_at(dir.new_paths, dir.new_refs) is None || dir.new_refs.len()
        > dir.new_ref_sizes.len() {
        None
    } else {
        Some(Seq::new(dir.new_refs.len(), |i: int| as_unsigned(dir.new_ref_sizes[i])))
    }
}

/// What a directory patch is set up with, once its parts are open.
pub struct DirSetup {
    /// The header of the inner patch.
    pub header: HeaderModel,
    /// The sizes of the new files that the patch makes.
    pub sizes: Seq<u64>,
    /// The bytes of the old files, one behind the other.
    pub old_data: Seq<u8>,
    /// The streams of the inner patch.
    pub clips: ClipsModel,
}

/// What a directory patch leaves behind that is refused before its parts are open.
pub struct DirRefusal {
    /// Why it is refused.
    pub error: PatchError,
    /// What its header says then.
    pub header: HeaderModel,
    /// Its new files, where these have their sizes already.
    pub made: DirOutputModel,
    /// Whether a decoder is used before.
    pub decoding: bool,
}

/// No files at all.
pub open spec fn no_output() -> DirOutputModel {
    DirOutputModel { actions: Seq::empty(), files: Seq::empty(), reports: Seq::empty() }
}

/// New files of these sizes, filled with zeros.
pub open spec fn blank_output(sizes: Seq<u64>) -> DirOutputModel {
    DirOutputModel {
        actions: Seq::empty(),
        files: cut_up(Seq::empty(), sizes),
        reports: Seq::empty(),
    }
}

/// A refusal before the new files have their sizes.
pub open spec fn refused_early(error: PatchError, header: HeaderModel) -> DirRefusal {
    DirRefusal { error, header, made: no_output(), decoding: false }
}

/// What a directory patch is set up with, where its inner header is `header`, and
/// `sizes` are those of the new files. These get their sizes before the old files are
/// looked at.
pub open spec fn files_set_up(
    patch: Seq<u8>,
    header: HeaderModel,
    sizes: Seq<u64>,
    old_files: Seq<Vec<u8>>,
) -> Result<DirSetup, DirRefusal> {
    let old_data = joined(old_files, old_files.len() as int);
    let got = as_signed(old_data.len() as int);
    let padding = padding_of(header.comp_mode);
    if old_files.len() == 0 {
        Err(refused_early(PatchError::NoStreams, header))
    } else if old_data.len() > u64::MAX {
        Err(refused_early(PatchError::Malformed, header))
    } else if sizes.len() == 0 {
        Err(refused_early(PatchError::NoStreams, header))
    } else if !sizes_fit(sizes) {
        Err(refused_early(PatchError::Malformed, header))
    } else if got != header.old_data_size {
        Err(
            DirRefusal {
                error: PatchError::OldSizeMismatch { expected: header.old_data_size, got },
                header,
                made: blank_output(sizes),
                decoding: false,
            },
        )
    } else {
        match clips_of(patch, header.comp_mode, header.chunk_info, padding) {
            Err(error) => Err(
                DirRefusal {
                    error,
                    header,
                    made: blank_output(sizes),
                    decoding: decoder_used(patch, header.comp_mode, header.chunk_info, padding),
                },
            ),
            Ok(clips) => Ok(DirSetup { header, sizes, old_data, clips }),
        }
    }
}

/// What a directory patch is set up with, out of the header and the counts of
/// the patch, the lists in its head and the old files.
pub open spec fn dir_set_up(
    patch: Seq<u8>,
    header: HeaderModel,
    ri: DataReferenceInfo,
    dir: DirectoryModel,
    old_files: Seq<Vec<u8>>,
) -> Result<DirSetup, DirRefusal> {
    let offset = ri.hdiff_data_offset;
    match new_sizes_of(dir) {
        None => Err(refused_early(PatchError::Malformed, header)),
        Some(sizes) => if header.is_single_compressed_diff {
            Err(refused_early(PatchError::SingleCompressedDir, header))
        } else if offset < 0 {
            Err(refused_early(PatchError::InvalidSeek, header))
        } else {
            match header_of(patch, offset as int, ""@) {
                Err(e) => Err(refused_early(e, header_left(patch, offset as int, ""@).0)),
                Ok((_, inner, _, _)) => files_set_up(patch, inner, sizes, old_files),
            }
        },
    }
}

/// The new data that a directory patch makes, set up like this, and how much of it is
/// passed on each time.
pub open spec fn dir_data_of(setup: DirSetup) -> Result<(Seq<u8>, Seq<i64>), PatchError> {
    clips_patched(
        setup.clips,
        setup.header.chunk_info,
        setup.header.new_data_size,
        setup.old_data,
        setup.old_data.len() as int,
    )
}

/// What a directory patch with these lists makes, set up like this. What is to be done
/// with the other files is found before the new data is made.
pub open spec fn dir_patched(setup: DirSetup, dir: DirectoryModel) -> Result<
    DirOutputModel,
    PatchError,
> {
    match similar_files(dir) {
        None => Err(PatchError::Malformed),
        Some(actions) => match dir_data_of(setup) {
            Err(e) => Err(e),
            Ok((data, reports)) => if data.len() > sum_of(
                setup.sizes,
                setup.sizes.len() as int,
            ) {
                Err(PatchError::Malformed)
            } else {
                Ok(DirOutputModel { actions, files: cut_up(data, setup.sizes), reports })
            },
        },
    }
}

/// Whether `made` is what a directory patch, set up like this, can leave behind where it
/// fails: the new files at their sizes, with a front of the new data where there is such
/// data, and either nothing or all that is to be done with the others.
pub open spec fn dir_front(made: DirOutputModel, setup: DirSetup, dir: DirectoryModel) -> bool {
    &&& made.actions.len() == 0 || similar_files(dir) == Some(made.actions)
    &&& exists|data: Seq<u8>|
        made.files == #[trigger] cut_up(data, setup.sizes) && is_front(data, made.reports, setup)
}

/// Whether some data fits the new files, and it and some reports are fronts of those that
/// a directory patch makes, where it makes any.
pub open spec fn is_front(data: Seq<u8>, reports: Seq<i64>, setup: DirSetup) -> bool {
    &&& data.len() <= sum_of(setup.sizes, setup.sizes.len() as int)
    &&& dir_data_of(setup) matches Ok((all, all_reports)) ==> {
        &&& data.is_prefix_of(all)
        &&& reports.is_prefix_of(all_reports)
    }
}

/// A patch of a whole directory.
pub struct PatchDir {
    pub header_info: HeaderInfo,
    pub reference_info: DataReferenceInfo,
    pub patch_path: String,
}

impl PatchDir {
    /// The patch with this header, whose file is at `patch_path`.
    pub fn new(
        header_info: HeaderInfo,
        reference_info: DataReferenceInfo,
        patch_path: &str,
    ) -> (r: Self)
        ensures
            r.header_info == header_info,
            r.reference_info == reference_info,
            r.patch_path@ == patch_path@,
    {
        Self { header_info, reference_info, patch_path: patch_path.to_owned() }
    }

    /// Reads the lists in the head of the patch.
    pub fn init_dir_patcher<S: ByteSource>(&self, reader: &mut S) -> (r: Result<
        DirectoryReferencePair,
        PatchError,
    >)
        ensures
            reads(*old(reader), *final(reader), r, lists_of(old(reader).rest(), self.reference_info)),
    {
        let ri = &self.reference_info;
        let old_utf8_path_list = get_paths_from_stream(
            reader,
            to_unsigned(ri.input_sum_size),
            to_unsigned(ri.input_dir_count),
        )?;
        let new_utf8_path_list = get_paths_from_stream(
            reader,
            to_unsigned(ri.output_sum_size),
            to_unsigned(ri.output_dir_count),
        )?;
        let old_ref_list = get_longs_from_stream(
            reader,
            to_unsigned(ri.input_ref_file_count),
            Some(ri.input_dir_count),
        )?;
        let new_ref_list = get_longs_from_stream(
            reader,
            to_unsigned(ri.output_ref_file_count),
            Some(ri.output_dir_count),
        )?;
        let new_ref_size_list = get_longs_from_stream_absolute(
            reader,
            to_unsigned(ri.output_ref_file_count),
        )?;
        let data_same_pair_list = get_pair_index_reference_from_stream(
            reader,
            to_unsigned(ri.same_file_pair_count),
            ri.output_dir_count,
            ri.input_dir_count,
        )?;
        let new_execute_list = get_longs_from_stream(
            reader,
            to_unsigned(ri.new_execute_count as i64),
            Some(ri.output_dir_count),
        )?;
        proof {
            assert(old_ref_list.deep_view() =~= old_ref_list@);
            assert(new_ref_list.deep_view() =~= new_ref_list@);
            assert(new_ref_size_list.deep_view() =~= new_ref_size_list@);
            assert(data_same_pair_list.deep_view() =~= data_same_pair_list@);
            assert(new_execute_list.deep_view() =~= new_execute_list@);
        }
        Ok(
            DirectoryReferencePair {
                old_utf8_path_list,
                new_utf8_path_list,
                old_ref_list,
                new_ref_list,
                new_ref_size_list,
                data_same_pair_list,
                new_execute_list,
            },
        )
    }

    /// Opens the head of the patch and reads its lists. Only a compressed head
    /// can fail to be decompressed.
    pub fn read_head(&self, patch: &[u8]) -> (r: Result<DirectoryReferencePair, PatchError>)
        ensures
            ({
                let ri = self.reference_info;
                let comp_mode = self.header_info.comp_mode;
                let want = dir_of(patch@, comp_mode, ri);
                match r {
                    Ok(dir) => want == Ok::<DirectoryModel, PatchError>(dir.deep_view()),
                    Err(e) => {
                        ||| want == Err::<DirectoryModel, PatchError>(e)
                        ||| e == PatchError::Decoder && head_of(patch@, comp_mode, ri) is Ok
                            && !held_plain(comp_mode, head_comp_size(comp_mode, ri))
                    },
                }
            }),
    {
        let ri = &self.reference_info;
        let padding: u64 = if ri.head_data_compressed_size > 0 {
            padding_for(self.header_info.comp_mode)
        } else {
            0
        };
        let offset: u64 = match to_unsigned(ri.head_data_offset).checked_add(padding) {
            Some(offset) => offset,
            None => return Err(PatchError::Malformed),
        };
        let (clip, _) = get_clip_stream(
            patch,
            self.header_info.comp_mode,
            offset,
            to_unsigned(ri.head_data_size),
            to_unsigned(ri.head_data_compressed_size).saturating_sub(padding),
        )?;
        let mut head_stream = clip;
        self.init_dir_patcher(&mut head_stream)
    }

    /// The paths that some numbers point to.
    fn paths_of_refs(paths: &Vec<String>, refs: &Vec<i64>) -> (r: Result<Vec<String>, PatchError>)
        ensures
            match r {
                Ok(found) => paths_at(paths.deep_view(), refs@) == Some(found.deep_view()),
                Err(e) => e == PatchError::Malformed && paths_at(paths.deep_view(), refs@) is None,
            },
    {
        let ghost all = paths.deep_view();
        let mut found: Vec<String> = Vec::new();
        let mut i: usize = 0;
        let len = paths.len();
        while i < refs.len()
            invariant
                i <= refs@.len(),
                all == paths.deep_view(),
                len == all.len(),
                found@.len() == i,
                forall|j: int| 0 <= j < i ==> is_place(#[trigger] refs@[j], all.len() as int),
                forall|j: int|
                    0 <= j < i ==> (#[trigger] found@[j])@ == all[refs@[j] as int],
            decreases refs@.len() - i,
        {
            let at: i64 = refs[i];
            if at < 0 || at as u64 >= len as u64 {
                assert(!is_place(refs@[i as int], all.len() as int));
                return Err(PatchError::Malformed);
            }
            found.push(paths[at as usize].as_str().to_owned());
            i = i + 1;
        }
        assert(found.deep_view() =~= paths_at(all, refs@)->0);
        Ok(found)
    }

    /// The paths of the old files that the patch is made for, in order.
    pub fn get_ref_old_streams(dir_data: &DirectoryReferencePair) -> (r: Result<
        Vec<String>,
        PatchError,
    >)
        ensures
            ({
                let dir = dir_data.deep_view();
                let want = paths_at(dir.old_paths, dir.old_refs);
                match r {
                    Ok(paths) => want == Some(paths.deep_view()),
                    Err(e) => e == PatchError::Malformed && want is None,
                }
            }),
    {
        Self::paths_of_refs(&dir_data.old_utf8_path_list, &dir_data.old_ref_list)
    }

    /// The paths and sizes of the new files that the patch makes, in order.
    pub fn get_ref_new_streams(dir_data: &DirectoryReferencePair) -> (r: Result<
        Vec<NewFile>,
        PatchError,
    >)
        ensures
            ({
                let dir = dir_data.deep_view();
                let want = paths_at(dir.new_paths, dir.new_refs);
                match r {
                    Ok(files) => {
                        &&& want is Some && dir.new_refs.len() <= dir.new_ref_sizes.len()
                        &&& files@.len() == dir.new_refs.len()
                        &&& forall|i: int|
                            0 <= i < files@.len() ==> {
                                &&& (#[trigger] files@[i]).path@ == want->0[i]
                                &&& files@[i].size == as_unsigned(dir.new_ref_sizes[i])
                            }
                    },
                    Err(e) => e == PatchError::Malformed && (want is None || dir.new_refs.len()
                        > dir.new_ref_sizes.len()),
                }
            }),
    {
        let paths = Self::paths_of_refs(&dir_data.new_utf8_path_list, &dir_data.new_ref_list)?;
        let ghost want = paths.deep_view();
        let count = paths.len();
        assert(want.len() == count);
        if count > dir_data.new_ref_size_list.len() {
            return Err(PatchError::Malformed);
        }
        let mut files: Vec<NewFile> = Vec::new();
        let mut i: usize = 0;
        while i < count
            invariant
                i <= count,
                count == paths@.len(),
                count <= dir_data.new_ref_size_list@.len(),
                want == paths.deep_view(),
                files@.len() == i,
                forall|j: int|
                    0 <= j < i ==> {
                        &&& (#[trigger] files@[j]).path@ == want[j]
                        &&& files@[j].size == as_unsigned(dir_data.new_ref_size_list@[j])
                    },
            decreases count - i,
        {
            let path = paths[i].as_str().to_owned();
            files.push(NewFile { path, size: to_unsigned(dir_data.new_ref_size_list[i]) });
            i = i + 1;
        }
        Ok(files)
    }

    /// Makes the new files out of the bytes of the old ones, with the lists in
    /// the head of `patch`, and leaves them in `made`. The header is then that of the
    /// inner patch. Only a compressed part of it can fail to be decompressed. Where the
    /// patch fails, the header says what was read of it, and `made` holds the new files
    /// as far as they were made, or none where they did not have their sizes yet.
    pub fn patch(
        &mut self,
        patch: &[u8],
        dir_data: DirectoryReferencePair,
        old_files: Vec<Vec<u8>>,
        input: &str,
        output: &str,
        made: &mut DirOutput,
    ) -> (r: Result<(), PatchError>)
        ensures
            final(self).reference_info == old(self).reference_info,
            final(self).patch_path == old(self).patch_path,
            ({
                let dir = dir_data.deep_view();
                let left = final(made).deep_view();
                match dir_set_up(
                    patch@,
                    old(self).header_info.deep_view(),
                    old(self).reference_info,
                    dir,
                    old_files@,
                ) {
                    Err(refusal) => {
                        &&& final(self).header_info.deep_view() == refusal.header
                        &&& left == refusal.made
                        &&& r matches Err(e) && (e == refusal.error || e == PatchError::Decoder
                            && refusal.decoding)
                    },
                    Ok(setup) => {
                        &&& final(self).header_info.deep_view() == setup.header
                        &&& match r {
                            Ok(_) => dir_patched(setup, dir) == Ok::<_, PatchError>(left),
                            Err(e) => {
                                &&& dir_front(left, setup, dir)
                                &&& {
                                    ||| dir_patched(setup, dir) == Err::<
                                        DirOutputModel,
                                        PatchError,
                                    >(e)
                                    ||| e == PatchError::Decoder && decoder_used(
                                        patch@,
                                        setup.header.comp_mode,
                                        setup.header.chunk_info,
                                        padding_of(setup.header.comp_mode),
                                    )
                                }
                            },
                        }
                    },
                }
            }),
    {
        made.actions.clear();
        made.files.clear();
        made.reports.clear();
        assert(made.deep_view().files =~= Seq::empty());
        let new_files = Self::get_ref_new_streams(&dir_data)?;
        if self.header_info.is_single_compressed_diff {
            return Err(PatchError::SingleCompressedDir);
        }
        let mut inner = ByteStream::new(patch);
        inner.seek_start(to_unsigned(self.reference_info.hdiff_data_offset))?;
        let mut dummy_ref = DataReferenceInfo::default();
        Header::try_parse_header_info(&mut inner, "", &mut self.header_info, &mut dummy_ref)?;
        let mut old_combined = CombinedStream::new(old_files)?;
        if new_files.len() == 0 {
            return Err(PatchError::NoStreams);
        }
        let ghost dir = dir_data.deep_view();
        let sizes = Self::sizes_of(&new_files);
        assert(sizes@ =~= new_sizes_of(dir)->0);
        let room: u64 = match capacity_of(&sizes) {
            Some(room) => room,
            None => return Err(PatchError::Malformed),
        };
        let mut data: Vec<u8> = Vec::new();
        let got = to_signed(old_combined.length());
        if got != self.header_info.old_data_size {
            made.files = cut_files(data.as_slice(), &sizes);
            return Err(
                PatchError::OldSizeMismatch { expected: self.header_info.old_data_size, got },
            );
        }
        let mut core = PatchCoreImpl::new(
            self.header_info.new_data_size,
            input.to_owned(),
            output.to_owned(),
        );
        core.set_directory_reference_pair(dir_data);
        let mut patched = self.start_patch_routine(
            &mut old_combined,
            &mut data,
            &mut core,
            patch,
            padding_for(self.header_info.comp_mode),
            &mut made.actions,
        );
        made.reports = core.written;
        let ghost all = data@;
        if data.len() as u64 > room {
            data.truncate(room as usize);
            if patched.is_ok() {
                patched = Err(PatchError::Malformed);
            }
        }
        made.files = cut_files(data.as_slice(), &sizes);
        proof {
            let h = self.header_info;
            let padding = padding_of(h.comp_mode);
            assert(data@.is_prefix_of(all));
            if let Ok(clips) = clips_of(patch@, h.comp_mode, h.chunk_info, padding) {
                let setup = DirSetup {
                    header: h.deep_view(),
                    sizes: sizes@,
                    old_data: old_combined.bytes(),
                    clips,
                };
                assert(Seq::<u8>::empty() + all =~= all);
                if let Ok((whole, reports)) = dir_data_of(setup) {
                    assert(Seq::<u8>::empty() + whole =~= whole);
                    assert(Seq::<i64>::empty() + reports =~= reports);
                }
                assert(is_front(data@, made.reports@, setup));
                assert(made.deep_view().files == cut_up(data@, setup.sizes));
            }
        }
        patched
    }

    /// Opens the parts of the inner patch, finds what is to be done with the files that
    /// it does not make, and appends the new data to `data`.
    fn start_patch_routine(
        &self,
        old_stream: &mut CombinedStream,
        data: &mut Vec<u8>,
        core: &mut PatchCoreImpl,
        patch: &[u8],
        padding: u64,
        actions: &mut Vec<FileAction>,
    ) -> (r: Result<(), PatchError>)
        requires
            old(old_stream).valid(),
            old(core).dir_reference_pair is Some,
        ensures
            final(old_stream).valid(),
            final(old_stream).bytes() == old(old_stream).bytes(),
            ({
                let h = self.header_info;
                let decoding = decoder_used(patch@, h.comp_mode, h.chunk_info, padding as int);
                let similar = similar_files(old(core).dir_reference_pair->0.deep_view());
                match clips_of(patch@, h.comp_mode, h.chunk_info, padding as int) {
                    Err(error) => {
                        &&& r matches Err(e) && (e == error || e == PatchError::Decoder
                            && decoding)
                        &&& final(data)@ == old(data)@
                        &&& final(core).written@ == old(core).written@
                        &&& final(actions)@ == old(actions)@
                    },
                    Ok(clips) => {
                        let want = clips_patched(
                            clips,
                            h.chunk_info,
                            h.new_data_size,
                            old(old_stream).bytes(),
                            old(old_stream).bytes().len() as int,
                        );
                        match r {
                            Ok(_) => {
                                &&& similar == Some(final(actions)@)
                                &&& want matches Ok((all, reports)) && {
                                    &&& final(data)@ == old(data)@ + all
                                    &&& final(core).written@ == old(core).written@ + reports
                                }
                            },
                            Err(e) => {
                                &&& final(actions)@ == old(actions)@ || similar == Some(
                                    final(actions)@,
                                )
                                &&& holds_front(old(data)@, final(data)@, data_made(want))
                                &&& holds_front(
                                    old(core).written@,
                                    final(core).written@,
                                    reports_made(want),
                                )
                                &&& {
                                    ||| e == PatchError::Malformed && similar is None
                                    ||| similar is Some && want == Err::<
                                        (Seq<u8>, Seq<i64>),
                                        PatchError,
                                    >(e)
                                    ||| e == PatchError::Decoder && decoding
                                }
                            },
                        }
                    },
                }
            }),
    {
        proof {
            assert(forall|all: Seq<u8>| data@.is_prefix_of(#[trigger] (data@ + all)));
            assert(forall|all: Seq<i64>|
                core.written@.is_prefix_of(#[trigger] (core.written@ + all)));
        }
        let mut clips = open_clips(patch, &self.header_info, padding)?;
        let mut found = core.run_copy_similar_files_routine()?;
        actions.clear();
        actions.append(&mut found);
        assert(actions@ =~= similar_files(old(core).dir_reference_pair->0.deep_view())->0);
        core.uncover_buffer_clips_stream(&mut clips, old_stream, data, &self.header_info)
    }

    /// The sizes of some new files.
    fn sizes_of(files: &Vec<NewFile>) -> (r: Vec<u64>)
        ensures
            r@.len() == files@.len(),
            forall|i: int| 0 <= i < r@.len() ==> #[trigger] r@[i] == files@[i].size,
    {
        let mut sizes: Vec<u64> = Vec::new();
        let mut i: usize = 0;
        while i < files.len()
            invariant
                i <= files@.len(),
                sizes@.len() == i,
                forall|j: int| 0 <= j < i ==> #[trigger] sizes@[j] == files@[j].size,
            decreases files@.len() - i,
        {
            sizes.push(files[i].size);
            i = i + 1;
        }
        sizes
    }
}

} // verus!
