//! How the parts of a patch stand in its file, and the laws that a patch of one file
//! gives back the new data that it was written for.
use crate::clips::{clips_of, padding_of, part_at, part_comp_size, part_size, part_start};
use crate::compression_utils::{clip_of, zstd_decoded};
use crate::error::PatchError;
use crate::hdiff::{file_model, file_patched};
use crate::header::{header_of, signature_of};
use crate::patch_core::{patched, ClipsModel};
use crate::patch_sf::{piece_of, whole_clip, whole_patched, OldModel, SfStop};
use crate::patch_single::clips_patched;
use crate::streams::bytes_between;
use crate::structs::{
    CompressionMode, CoverHeader, DiffChunkInfo, DiffSingleChunkInfo, HeaderModel,
};
use crate::text::utf8_lossy;
use crate::written_header::{
    bytes_taken, file_numbers, law_file_header_read_back, law_header_by_signature, law_whole_header_read_back,
    whole_numbers,
};
use crate::written_lists::{no_zero, numbers_written};
use crate::written_patch::{
    agrees, can_cover, covers_written, difference, law_patch_restores, uncovered,
};
use crate::written_runs::{is_run, runs_bytes, runs_code, runs_ctrl, Run};
use crate::written_sf::{
    law_sf_patch_restores, steps_covers, steps_data, steps_fit, steps_written, SfStep,
};
use vstd::prelude::*;

verus! {

/// A part of a patch as it stands in the file: its bytes, the size that the header gives it,
/// and whether the bytes are compressed.
pub struct StoredPart {
    pub bytes: Seq<u8>,
    pub size: i64,
    pub is_compressed: bool,
}

impl StoredPart {
    /// Whether the size is that of the bytes, unless they are compressed, and then there
    /// are some.
    pub open spec fn valid(self) -> bool {
        if self.is_compressed {
            0 < self.bytes.len()
        } else {
            self.bytes.len() == self.size
        }
    }

    /// The compressed size that the header gives.
    pub open spec fn compressed_size(self) -> int {
        if self.is_compressed {
            self.bytes.len() as int
        } else {
            0
        }
    }

    /// What the part stands for in a mode. Only one mode decompresses.
    pub open spec fn clear(self, mode: CompressionMode) -> Result<Seq<u8>, PatchError> {
        if !self.is_compressed || mode is Nocomp {
            Ok(self.bytes)
        } else if mode is Zstd {
            Ok(zstd_decoded(self.bytes))
        } else {
            Err(PatchError::UnsupportedCompression)
        }
    }
}

/// A part is found at its place: as it stands there, or decompressed. Where the patch ends
/// within a part that is not compressed, the part ends there.
pub proof fn law_part_found(
    front: Seq<u8>,
    part: StoredPart,
    rest: Seq<u8>,
    mode: CompressionMode,
    missing: int,
)
    requires
        part.valid(),
        0 <= part.size,
        0 <= missing,
        front.len() + part.bytes.len() + missing <= i64::MAX,
    ensures
        clip_of(
            front + part.bytes + rest,
            mode,
            front.len() as int,
            part.size as int,
            part.compressed_size(),
        ) == part.clear(mode),
        clip_of(
            front + part.bytes,
            mode,
            front.len() as int,
            part.bytes.len() + missing,
            0,
        ) == Ok::<Seq<u8>, PatchError>(part.bytes),
{
    let (start, end) = (front.len() as int, (front.len() + part.bytes.len()) as int);
    let all = front + part.bytes + rest;
    assert(bytes_between(all, start, end) =~= part.bytes);
    assert(bytes_between(front + part.bytes, start, end + missing) =~= part.bytes);
}

/// The four parts of a patch as they stand in the file.
pub struct StoredParts {
    pub cover: StoredPart,
    pub rle_ctrl: StoredPart,
    pub rle_code: StoredPart,
    pub new_data_diff: StoredPart,
}

impl StoredParts {
    /// The bytes of the parts, one behind the other.
    pub open spec fn bytes(self) -> Seq<u8> {
        self.cover.bytes + self.rle_ctrl.bytes + self.rle_code.bytes + self.new_data_diff.bytes
    }

    /// Whether each part has a size that fits its bytes.
    pub open spec fn valid(self) -> bool {
        &&& self.cover.valid() && 0 <= self.cover.size
        &&& self.rle_ctrl.valid() && 0 <= self.rle_ctrl.size
        &&& self.rle_code.valid() && 0 <= self.rle_code.size
        &&& self.new_data_diff.valid() && 0 <= self.new_data_diff.size
    }

    /// Whether no part is compressed.
    pub open spec fn none_compressed(self) -> bool {
        &&& !self.cover.is_compressed
        &&& !self.rle_ctrl.is_compressed
        &&& !self.rle_code.is_compressed
        &&& !self.new_data_diff.is_compressed
    }

    /// Whether the parts stand for these bytes in a mode.
    pub open spec fn stand_for(self, mode: CompressionMode, clips: ClipsModel) -> bool {
        &&& self.cover.clear(mode) == Ok::<Seq<u8>, PatchError>(clips.cover)
        &&& self.rle_ctrl.clear(mode) == Ok::<Seq<u8>, PatchError>(clips.rle_ctrl)
        &&& self.rle_code.clear(mode) == Ok::<Seq<u8>, PatchError>(clips.rle_code)
        &&& self.new_data_diff.clear(mode) == Ok::<Seq<u8>, PatchError>(clips.new_data_diff)
    }

    /// Whether a header gives the sizes of the parts, and `start` as its end.
    pub open spec fn described(self, info: DiffChunkInfo, start: int) -> bool {
        &&& info.head_end_pos == start
        &&& info.cover_buf_size == self.cover.size
        &&& info.compress_cover_buf_size == self.cover.compressed_size()
        &&& info.rle_ctrl_buf_size == self.rle_ctrl.size
        &&& info.compress_rle_ctrl_buf_size == self.rle_ctrl.compressed_size()
        &&& info.rle_code_buf_size == self.rle_code.size
        &&& info.compress_rle_code_buf_size == self.rle_code.compressed_size()
        &&& info.new_data_diff_size == self.new_data_diff.size
        &&& info.compress_new_data_diff_size == self.new_data_diff.compressed_size()
    }
}

/// The four parts of a patch are found where they stand, one behind the other from the end
/// of the header on, and padding, which compressed parts have before them, has none else. The
/// patch is refused where a part cannot be decompressed.
#[verifier::rlimit(40)]
pub proof fn law_parts_found(
    front: Seq<u8>,
    parts: StoredParts,
    rest: Seq<u8>,
    mode: CompressionMode,
    info: DiffChunkInfo,
    padding: int,
)
    requires
        parts.valid(),
        parts.described(info, front.len() as int),
        0 <= padding,
        padding > 0 ==> parts.none_compressed(),
        front.len() + parts.bytes().len() <= i64::MAX,
    ensures
        ({
            let found = clips_of(front + parts.bytes() + rest, mode, info, padding);
            match (
                parts.cover.clear(mode),
                parts.rle_ctrl.clear(mode),
                parts.rle_code.clear(mode),
                parts.new_data_diff.clear(mode),
            ) {
                (Ok(cover), Ok(rle_ctrl), Ok(rle_code), Ok(new_data_diff)) => found == Ok::<
                    ClipsModel,
                    PatchError,
                >(ClipsModel { cover, rle_ctrl, rle_code, new_data_diff }),
                _ => found == Err::<ClipsModel, PatchError>(PatchError::UnsupportedCompression),
            }
        }),
{
    let all = front + parts.bytes() + rest;
    let (p0, p1, p2, p3) = (parts.cover, parts.rle_ctrl, parts.rle_code, parts.new_data_diff);
    let f1 = front + p0.bytes;
    let f2 = f1 + p1.bytes;
    let f3 = f2 + p2.bytes;
    let r2 = p3.bytes + rest;
    let r1 = p2.bytes + r2;
    let r0 = p1.bytes + r1;
    assert(all =~= f3 + p3.bytes + rest);
    assert(all =~= f2 + p2.bytes + r2);
    assert(all =~= f1 + p1.bytes + r1);
    assert(all =~= front + p0.bytes + r0);
    law_part_found(front, p0, r0, mode, 0);
    law_part_found(f1, p1, r1, mode, 0);
    law_part_found(f2, p2, r2, mode, 0);
    law_part_found(f3, p3, rest, mode, 0);
    reveal_with_fuel(part_start, 5);
    assert(part_start(info, 0) == front.len());
    assert(part_start(info, 1) == f1.len());
    assert(part_start(info, 2) == f2.len());
    assert(part_start(info, 3) == f3.len());
    assert(part_at(all, mode, info, padding, 0) == p0.clear(mode));
    assert(part_at(all, mode, info, padding, 1) == p1.clear(mode));
    assert(part_at(all, mode, info, padding, 2) == p2.clear(mode));
    assert(part_at(all, mode, info, padding, 3) == p3.clear(mode));
}

/// A compressed part is found behind the padding at its place. The compressed size of the last
/// of the four parts counts its padding, and that of the others does not.
pub proof fn law_padded_part_found(
    front: Seq<u8>,
    padding: Seq<u8>,
    part: StoredPart,
    rest: Seq<u8>,
    mode: CompressionMode,
    info: DiffChunkInfo,
    k: int,
)
    requires
        0 <= k <= 3,
        part.valid(),
        part.is_compressed,
        0 <= part.size,
        front.len() + padding.len() + part.bytes.len() <= i64::MAX,
        part_start(info, k) == front.len(),
        part_size(info, k) == part.size,
        part_comp_size(info, k) == part.bytes.len() + if k == 3 {
            padding.len() as int
        } else {
            0
        },
    ensures
        part_at(
            front + padding + part.bytes + rest,
            mode,
            info,
            padding.len() as int,
            k,
        ) == part.clear(mode),
{
    law_part_found(front + padding, part, rest, mode, 0);
}

/// The four parts are the covers, the control stream, the code stream and the new bytes, in
/// this order, and each stands where the one before it ends, as its header gives the sizes.
pub proof fn law_part_order(info: DiffChunkInfo)
    ensures
        part_size(info, 0) == info.cover_buf_size,
        part_comp_size(info, 0) == info.compress_cover_buf_size,
        part_size(info, 1) == info.rle_ctrl_buf_size,
        part_comp_size(info, 1) == info.compress_rle_ctrl_buf_size,
        part_size(info, 2) == info.rle_code_buf_size,
        part_comp_size(info, 2) == info.compress_rle_code_buf_size,
        part_size(info, 3) == info.new_data_diff_size,
        part_comp_size(info, 3) == info.compress_new_data_diff_size,
        0 <= info.head_end_pos ==> part_start(info, 0) == info.head_end_pos,
        forall|k: int|
            0 <= k < 3 && 0 <= part_size(info, k) && 0 <= part_comp_size(info, k)
                ==> #[trigger] part_start(info, k + 1) == part_start(info, k) + bytes_taken(
                part_size(info, k),
                part_comp_size(info, k),
            ),
{
    reveal_with_fuel(part_start, 5);
}

/// New data as a patch is written for it: what it takes over from old data, what it is made
/// of before the differences are added, the new data, and the runs of the differences.
pub struct Made {
    pub covers: Seq<CoverHeader>,
    pub base: Seq<u8>,
    pub wanted: Seq<u8>,
    pub runs: Seq<Run>,
}

impl Made {
    /// Whether the covers lie in the old data and the new, what the new data is made of holds
    /// the old data under them, and the runs are those of the differences.
    pub open spec fn valid(self, old: Seq<u8>) -> bool {
        &&& old.len() <= i64::MAX
        &&& self.wanted.len() <= i64::MAX
        &&& self.covers.len() <= i64::MAX
        &&& self.base.len() == self.wanted.len()
        &&& can_cover(self.covers, old.len() as int, self.base.len() as int)
        &&& forall|i: int|
            0 <= i < self.covers.len() ==> (#[trigger] self.covers[i]).next_cover_index
                == self.covers.len() - 1 - i
        &&& agrees(self.covers, old, self.base)
        &&& forall|i: int| 0 <= i < self.runs.len() ==> is_run(#[trigger] self.runs[i])
        &&& runs_bytes(self.runs) == difference(self.base, self.wanted)
    }

    /// The four streams.
    pub open spec fn clips(self) -> ClipsModel {
        ClipsModel {
            cover: covers_written(self.covers),
            rle_ctrl: runs_ctrl(self.runs),
            rle_code: runs_code(self.runs),
            new_data_diff: uncovered(self.covers, self.base),
        }
    }
}

/// The four streams of a patch give the new data back that they were written for.
pub proof fn lemma_clips_restore(made: Made, old: Seq<u8>, last_position: int)
    requires
        made.valid(old),
        old.len() <= last_position,
    ensures
        patched(
            made.clips(),
            old,
            last_position,
            made.covers.len() as int,
            covers_written(made.covers).len() as int,
            made.wanted.len() as int,
        ) == Some(made.wanted),
{
    let none = Seq::<u8>::empty();
    let clips = made.clips();
    law_patch_restores(
        made.covers,
        old,
        last_position,
        made.base,
        made.wanted,
        made.runs,
        ClipsModel { cover: none, rle_ctrl: none, rle_code: none, new_data_diff: none },
    );
    assert(clips.cover + none =~= clips.cover);
    assert(clips.rle_ctrl + none =~= clips.rle_ctrl);
    assert(clips.rle_code + none =~= clips.rle_code);
    assert(clips.new_data_diff + none =~= clips.new_data_diff);
}

/// The numbers in the header of a patch for some new data, with its parts as they stand in
/// the file.
pub open spec fn header_numbers(made: Made, old: Seq<u8>, parts: StoredParts) -> Seq<i64> {
    file_numbers(made.wanted.len() as i64, old.len() as i64, described_by(made, parts))
}

/// What a header says of the parts of a patch.
pub open spec fn described_by(made: Made, parts: StoredParts) -> DiffChunkInfo {
    DiffChunkInfo {
        cover_count: made.covers.len() as i64,
        cover_buf_size: parts.cover.size,
        compress_cover_buf_size: parts.cover.compressed_size() as i64,
        rle_ctrl_buf_size: parts.rle_ctrl.size,
        compress_rle_ctrl_buf_size: parts.rle_ctrl.compressed_size() as i64,
        rle_code_buf_size: parts.rle_code.size,
        compress_rle_code_buf_size: parts.rle_code.compressed_size() as i64,
        new_data_diff_size: parts.new_data_diff.size,
        compress_new_data_diff_size: parts.new_data_diff.compressed_size() as i64,
        ..DiffChunkInfo::zero()
    }
}

/// Whether a signature is one of a patch whose parts are compressed apart, and the parts
/// stand for the streams of some new data in the mode that it names.
pub open spec fn can_be_stored(line: Seq<u8>, made: Made, parts: StoredParts) -> bool {
    &&& no_zero(line)
    &&& parts.valid()
    &&& parts.cover.size == covers_written(made.covers).len()
    &&& signature_of(utf8_lossy(line)) matches Ok((is_dir, header)) && {
        &&& !is_dir
        &&& !header.is_single_compressed_diff
        &&& parts.stand_for(header.comp_mode, made.clips())
        &&& header.comp_mode is Zlib ==> parts.none_compressed()
    }
}

/// A patch as it stands in a file: a signature, a header and the four parts.
pub open spec fn patch_written(
    line: Seq<u8>,
    made: Made,
    old: Seq<u8>,
    parts: StoredParts,
) -> Seq<u8> {
    line.push(0) + numbers_written(header_numbers(made, old, parts)) + parts.bytes()
}

/// Bytes that are put together in another order of steps are the same.
proof fn lemma_put_together(a: Seq<u8>, b: Seq<u8>, c: Seq<u8>, d: Seq<u8>, e: Seq<u8>)
    ensures
        a + (b + c + d) + e == a + b + (c + (d + e)),
        a + (b + c + d) + e == (a + b + c) + d + e,
{
    assert(a + (b + c + d) + e =~= a + b + (c + (d + e)));
    assert(a + (b + c + d) + e =~= (a + b + c) + d + e);
}

/// The header of a patch that stands at any place of a file.
#[verifier::rlimit(40)]
proof fn lemma_header_opened(
    front: Seq<u8>,
    line: Seq<u8>,
    made: Made,
    old: Seq<u8>,
    parts: StoredParts,
    rest: Seq<u8>,
    path: Seq<char>,
)
    requires
        can_be_stored(line, made, parts),
        made.valid(old),
        front.len() + patch_written(line, made, old, parts).len() <= i64::MAX,
    ensures
        ({
            let numbers = numbers_written(header_numbers(made, old, parts));
            let data = front + line.push(0) + (numbers + (parts.bytes() + rest));
            header_of(data, front.len() as int, path) matches Ok((is_dir, header, _, _)) && {
                &&& !is_dir
                &&& !header.is_single_compressed_diff
                &&& header.comp_mode == (signature_of(utf8_lossy(line))->Ok_0).1.comp_mode
                &&& header.patch_path == path
                &&& header.new_data_size == made.wanted.len()
                &&& header.old_data_size == old.len()
                &&& header.chunk_info.cover_count == made.covers.len()
                &&& parts.described(
                    header.chunk_info,
                    (front.len() + line.len() + 1 + numbers.len()) as int,
                )
            }
        }),
{
    let behind = parts.bytes() + rest;
    let numbers = numbers_written(header_numbers(made, old, parts));
    let (_, signed_header) = signature_of(utf8_lossy(line))->Ok_0;
    law_header_by_signature(front, line, numbers + behind, path);
    assert(parts.bytes().len() == parts.cover.bytes.len() + parts.rle_ctrl.bytes.len()
        + parts.rle_code.bytes.len() + parts.new_data_diff.bytes.len());
    assert(patch_written(line, made, old, parts).len() == line.len() + 1 + numbers.len()
        + parts.bytes().len());
    law_file_header_read_back(
        made.wanted.len() as i64,
        old.len() as i64,
        described_by(made, parts),
        (front.len() + line.len() + 1) as int,
        path,
        signed_header,
        behind,
    );
}

/// Reading undoes writing for a patch that stands at any place of a file: its header gives
/// the sizes and the count of the covers, and leads to the four streams.
#[verifier::rlimit(40)]
pub proof fn law_patch_opened(
    front: Seq<u8>,
    line: Seq<u8>,
    made: Made,
    old: Seq<u8>,
    parts: StoredParts,
    rest: Seq<u8>,
    path: Seq<char>,
)
    requires
        can_be_stored(line, made, parts),
        made.valid(old),
        front.len() + patch_written(line, made, old, parts).len() <= i64::MAX,
    ensures
        ({
            let patch = front + patch_written(line, made, old, parts) + rest;
            header_of(patch, front.len() as int, path) matches Ok((is_dir, header, _, _)) && {
                &&& !is_dir
                &&& !header.is_single_compressed_diff
                &&& header.patch_path == path
                &&& header.new_data_size == made.wanted.len()
                &&& header.old_data_size == old.len()
                &&& header.chunk_info.cover_count == made.covers.len()
                &&& header.chunk_info.cover_buf_size == covers_written(made.covers).len()
                &&& clips_of(
                    patch,
                    header.comp_mode,
                    header.chunk_info,
                    padding_of(header.comp_mode),
                ) == Ok::<ClipsModel, PatchError>(made.clips())
            }
        }),
{
    let numbers = numbers_written(header_numbers(made, old, parts));
    let patch = front + patch_written(line, made, old, parts) + rest;
    let before = front + line.push(0) + numbers;
    lemma_put_together(front, line.push(0), numbers, parts.bytes(), rest);
    lemma_header_opened(front, line, made, old, parts, rest, path);
    let header = (header_of(patch, front.len() as int, path)->Ok_0).1;
    law_parts_found(
        before,
        parts,
        rest,
        header.comp_mode,
        header.chunk_info,
        padding_of(header.comp_mode),
    );
}

/// Patching undoes writing: a file that holds a signature, a header and the four parts of a
/// patch for some new data, as they are or compressed, makes just that new data out of the
/// old file.
pub proof fn law_file_restored(
    line: Seq<u8>,
    made: Made,
    old: Seq<u8>,
    parts: StoredParts,
    path: Seq<char>,
)
    requires
        can_be_stored(line, made, parts),
        made.valid(old),
        patch_written(line, made, old, parts).len() <= i64::MAX,
    ensures
        ({
            let patch = patch_written(line, made, old, parts);
            header_of(patch, 0, path) matches Ok((is_dir, header, _, _)) && {
                &&& !is_dir
                &&& file_patched(patch, header, old) == Ok::<Seq<u8>, PatchError>(made.wanted)
            }
        }),
{
    let none = Seq::<u8>::empty();
    let patch = patch_written(line, made, old, parts);
    law_patch_opened(none, line, made, old, parts, none, path);
    assert(none + patch + none =~= patch);
    lemma_clips_restore(made, old, i64::MAX as int);
}

/// The header of a patch that is compressed as a whole leads to what it stands for.
#[verifier::rlimit(40)]
proof fn lemma_whole_opened(
    line: Seq<u8>,
    steps: Seq<SfStep>,
    old: Seq<u8>,
    part: StoredPart,
    step: i64,
    path: Seq<char>,
)
    requires
        no_zero(line),
        old.len() <= i64::MAX,
        steps_data(steps).len() <= i64::MAX,
        0 <= steps_covers(steps) <= i64::MAX,
        part.valid(),
        0 <= part.size,
        signature_of(utf8_lossy(line)) matches Ok((is_dir, header)) && !is_dir
            && header.is_single_compressed_diff,
        line.len() + 1 + numbers_written(step_numbers(steps, old, part, step)).len()
            + part.bytes.len() <= i64::MAX,
    ensures
        ({
            let numbers = numbers_written(step_numbers(steps, old, part, step));
            let data = Seq::empty() + line.push(0) + (numbers + (part.bytes + Seq::empty()));
            header_of(data, 0, path) matches Ok((is_dir, header, _, _)) && {
                &&& !is_dir
                &&& header.is_single_compressed_diff
                &&& header.comp_mode == (signature_of(utf8_lossy(line))->Ok_0).1.comp_mode
                &&& header.step_mem_size == step
                &&& header.old_data_size == old.len()
                &&& header.chunk_info.cover_count == steps_covers(steps)
                &&& header.single_chunk_info.uncompressed_size == part.size
                &&& header.single_chunk_info.compressed_size == part.compressed_size()
                &&& header.single_chunk_info.diff_data_pos == line.len() + 1 + numbers.len()
            }
        }),
{
    let none = Seq::<u8>::empty();
    let numbers = numbers_written(step_numbers(steps, old, part, step));
    let (_, signed_header) = signature_of(utf8_lossy(line))->Ok_0;
    law_header_by_signature(none, line, numbers + (part.bytes + none), path);
    law_whole_header_read_back(
        steps_data(steps).len() as i64,
        old.len() as i64,
        steps_covers(steps) as i64,
        step,
        part.size,
        part.compressed_size() as i64,
        line.len() as int + 1,
        0,
        path,
        signed_header,
        part.bytes + none,
    );
}

/// Patching undoes writing for a patch that is compressed as a whole: a file that holds a
/// signature, a header and the steps of a patch, as they are or compressed, makes just the new
/// data of the steps out of the old file, however much is copied at once.
#[verifier::rlimit(40)]
pub proof fn law_whole_file_restored(
    line: Seq<u8>,
    steps: Seq<SfStep>,
    old: Seq<u8>,
    part: StoredPart,
    step: i64,
    path: Seq<char>,
)
    requires
        no_zero(line),
        old.len() <= i64::MAX,
        steps_data(steps).len() <= i64::MAX,
        0 <= steps_covers(steps) <= i64::MAX,
        steps_fit(0, 0, steps, old),
        part.valid(),
        0 <= part.size,
        signature_of(utf8_lossy(line)) matches Ok((is_dir, header)) && {
            &&& !is_dir
            &&& header.is_single_compressed_diff
            &&& part.clear(header.comp_mode) == Ok::<Seq<u8>, PatchError>(
                steps_written(0, 0, steps),
            )
        },
        line.len() + 1 + numbers_written(
            step_numbers(steps, old, part, step),
        ).len() + part.bytes.len() <= i64::MAX,
    ensures
        ({
            let patch = line.push(0) + numbers_written(step_numbers(steps, old, part, step))
                + part.bytes;
            header_of(patch, 0, path) matches Ok((is_dir, header, _, _)) && {
                &&& !is_dir
                &&& file_patched(patch, header, old) == Ok::<Seq<u8>, PatchError>(
                    steps_data(steps),
                )
            }
        }),
{
    let numbers = numbers_written(step_numbers(steps, old, part, step));
    let none = Seq::<u8>::empty();
    let patch = line.push(0) + numbers + part.bytes;
    assert(none + patch + none =~= patch);
    lemma_put_together(none, line.push(0), numbers, part.bytes, none);
    lemma_whole_opened(line, steps, old, part, step, path);
    let header = (header_of(patch, 0, path)->Ok_0).1;
    law_part_found(none + line.push(0) + numbers, part, none, header.comp_mode, 0);
    let diff = steps_written(0, 0, steps);
    let found = whole_clip(patch, header.comp_mode, header.single_chunk_info);
    assert(found == Ok::<Seq<u8>, PatchError>(diff));
    let model = file_model(old, piece_of(header.step_mem_size));
    law_sf_patch_restores(steps, model, none);
    assert(diff + none =~= diff);
}

/// The numbers in the header of a patch of some steps.
pub open spec fn step_numbers(
    steps: Seq<SfStep>,
    old: Seq<u8>,
    part: StoredPart,
    step: i64,
) -> Seq<i64> {
    whole_numbers(
        steps_data(steps).len() as i64,
        old.len() as i64,
        steps_covers(steps) as i64,
        step,
        part.size,
        part.compressed_size() as i64,
    )
}

/// A patch which is compressed as a whole in a way that cannot be decompressed makes nothing.
pub proof fn law_whole_part_refused(
    front: Seq<u8>,
    part: StoredPart,
    rest: Seq<u8>,
    mode: CompressionMode,
    cover_count: i64,
    old: OldModel,
)
    requires
        part.valid(),
        0 <= part.size,
        front.len() + part.bytes.len() <= i64::MAX,
        part.clear(mode) is Err,
    ensures
        whole_patched(
            front + part.bytes + rest,
            mode,
            DiffSingleChunkInfo {
                uncompressed_size: part.size,
                compressed_size: part.bytes.len() as i64,
                diff_data_pos: front.len() as i64,
            },
            cover_count,
            old,
        ) == Err::<(Seq<u8>, Seq<u8>), SfStop>(
            SfStop { error: PatchError::UnsupportedCompression, out: Seq::empty() },
        ),
{
    law_part_found(front, part, rest, mode, 0);
}

/// Where the streams of a patch make no new data, the patch is malformed.
pub proof fn law_no_data_made(
    clips: ClipsModel,
    info: DiffChunkInfo,
    new_data_size: i64,
    contents: Seq<u8>,
    last_position: int,
)
    ensures
        ({
            let data = patched(
                clips,
                contents,
                last_position,
                info.cover_count as int,
                info.cover_buf_size as int,
                new_data_size as int,
            );
            match clips_patched(clips, info, new_data_size, contents, last_position) {
                Ok((made, _)) => data == Some(made),
                Err(e) => data is None && e == PatchError::Malformed,
            }
        }),
{
}

/// A file of another size than the header gives is not patched.
pub proof fn law_size_must_match(patch: Seq<u8>, header: HeaderModel, old: Seq<u8>)
    requires
        old.len() <= i64::MAX,
    ensures
        old.len() != header.old_data_size ==> file_patched(patch, header, old) == Err::<
            Seq<u8>,
            PatchError,
        >(
            PatchError::OldSizeMismatch {
                expected: header.old_data_size,
                got: old.len() as i64,
            },
        ),
{
}

} // verus!
