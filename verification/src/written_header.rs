//! How the header of a patch is written, and the laws that reading it undoes writing
//! it.
use crate::error::PatchError;
use crate::header::{
    chunk_info_of, counts_of, dir_header_of, header_of, identified_of, inner_of, non_single_of,
    places_of, references_of, signature_of, single_of,
};
use crate::parser::{bytes_from, long_7bit_of, longs_of};
use crate::signature::parts_of;
use crate::structs::{
    compression_named, DataReferenceInfo, DiffChunkInfo, DiffSingleChunkInfo,
    HeaderModel,
};
use crate::text::{lowercase, utf8_lossy};
use crate::written::{
    is_tag, law_boolean_read_back, law_short_number_read_back, law_signed_number_read_back, number,
    room, unsigned,
};
use crate::written_lists::{law_numbers_read_back, law_text_read_back, no_zero, numbers_written};
use vstd::prelude::*;

verus! {

/// The numbers in the header of a patch whose parts are compressed apart: the sizes of the
/// new data and of the old, how many covers there are, and of the covers, the control and
/// the code stream of the differences and the new bytes the size and the compressed size.
pub open spec fn file_numbers(new_size: i64, old_size: i64, info: DiffChunkInfo) -> Seq<i64> {
    seq![
        new_size,
        old_size,
        info.cover_count,
        info.cover_buf_size,
        info.compress_cover_buf_size,
        info.rle_ctrl_buf_size,
        info.compress_rle_ctrl_buf_size,
        info.rle_code_buf_size,
        info.compress_rle_code_buf_size,
        info.new_data_diff_size,
        info.compress_new_data_diff_size,
    ]
}

/// How many bytes of a patch a part takes up.
pub open spec fn bytes_taken(size: i64, compressed: i64) -> int {
    if compressed > 0 {
        compressed as int
    } else {
        size as int
    }
}

/// One for a part that is compressed.
pub open spec fn counted(compressed: i64) -> int {
    if compressed >= 2 {
        1
    } else {
        0
    }
}

/// Numbers that are cut in two are written one list behind the other.
proof fn lemma_numbers_joined(first: Seq<i64>, second: Seq<i64>)
    ensures
        numbers_written(first + second) == numbers_written(first) + numbers_written(second),
    decreases second.len(),
{
    if second.len() == 0 {
        assert(first + second =~= first);
        assert(numbers_written(first) + Seq::<u8>::empty() =~= numbers_written(first));
    } else {
        let all = first + second;
        assert(all.drop_last() =~= first + second.drop_last());
        assert(all.last() == second.last());
        lemma_numbers_joined(first, second.drop_last());
        assert(numbers_written(all) =~= numbers_written(first) + numbers_written(second));
    }
}

/// Reading undoes writing for the header of a patch whose parts are compressed apart, at any
/// place: every number comes back in its field, the places are those where the header
/// starts, where its compressed sizes start, where it ends and where the covers end, and the
/// compressed parts are counted. A header whose covers end beyond all places is refused.
#[verifier::rlimit(40)]
pub proof fn law_file_header_read_back(
    new_size: i64,
    old_size: i64,
    info: DiffChunkInfo,
    pos: int,
    path: Seq<char>,
    header: HeaderModel,
    rest: Seq<u8>,
)
    requires
        0 <= pos,
        pos + numbers_written(file_numbers(new_size, old_size, info)).len() <= i64::MAX,
    ensures
        ({
            let numbers = file_numbers(new_size, old_size, info);
            let read = non_single_of(numbers_written(numbers) + rest, pos, path, header);
            let end = pos + numbers_written(numbers).len();
            let cover_end = end + bytes_taken(info.cover_buf_size, info.compress_cover_buf_size);
            if cover_end < -0x8000_0000_0000_0000 || cover_end > 0x7fff_ffff_ffff_ffff {
                read == Err::<(HeaderModel, Seq<u8>), PatchError>(PatchError::Malformed)
            } else {
                read matches Ok((found, left)) && {
                    &&& left == rest
                    &&& found.new_data_size == new_size
                    &&& found.old_data_size == old_size
                    &&& found.patch_path == path
                    &&& found.chunk_info == (DiffChunkInfo {
                        types_end_pos: pos as i64,
                        compress_size_begin_pos: (pos + numbers_written(
                            numbers.take(3),
                        ).len()) as i64,
                        head_end_pos: end as i64,
                        cover_end_pos: cover_end as i64,
                        ..info
                    })
                    &&& found.compressed_count == counted(info.compress_cover_buf_size) + counted(
                        info.compress_rle_ctrl_buf_size,
                    ) + counted(info.compress_rle_code_buf_size) + counted(
                        info.compress_new_data_diff_size,
                    )
                    &&& found == (HeaderModel {
                        new_data_size: found.new_data_size,
                        old_data_size: found.old_data_size,
                        patch_path: found.patch_path,
                        chunk_info: found.chunk_info,
                        compressed_count: found.compressed_count,
                        ..header
                    })
                }
            }
        }),
{
    let numbers = file_numbers(new_size, old_size, info);
    let sizes = seq![new_size, old_size];
    let count = seq![info.cover_count];
    let others = numbers.skip(3);
    let s3 = numbers_written(others) + rest;
    let s2 = numbers_written(count) + s3;
    let all = numbers_written(numbers) + rest;
    lemma_numbers_joined(sizes, count);
    lemma_numbers_joined(sizes + count, others);
    assert(sizes + count =~= numbers.take(3));
    assert(numbers =~= sizes + count + others);
    assert(all =~= numbers_written(sizes) + s2);
    law_numbers_read_back(sizes, s2);
    law_numbers_read_back(others, rest);
    law_signed_number_read_back(0, info.cover_count, s3);
    assert(numbers_written(count) =~= number(unsigned(info.cover_count as int))) by {
        reveal_with_fuel(numbers_written, 2);
        assert(count.drop_last() =~= Seq::empty());
    }
    assert(long_7bit_of(s2) == Ok::<(i64, Seq<u8>), PatchError>((info.cover_count, s3)));
    assert(longs_of(s3, 8) == Ok::<(Seq<i64>, Seq<u8>), PatchError>((others, rest)));
    assert(all.len() - s2.len() == numbers_written(sizes).len());
    assert(all.len() - s3.len() == numbers_written(numbers.take(3)).len());
    let read = chunk_info_of(s2, pos + all.len() - s2.len(), pos as i64);
}

/// The numbers in the header of a patch that is compressed as a whole: the sizes of the new
/// data and of the old, how many covers there are, how many bytes are copied at once, and
/// the size and the compressed size of the patch.
pub open spec fn whole_numbers(
    new_size: i64,
    old_size: i64,
    cover_count: i64,
    step: i64,
    size: i64,
    compressed: i64,
) -> Seq<i64> {
    seq![new_size, old_size, cover_count, step, size, compressed]
}

/// Reading undoes writing for the header of a patch that is compressed as a whole, which
/// starts at `start`: every number comes back in its field, and the place of the data is
/// that behind the header, counted from `start`.
#[verifier::rlimit(40)]
pub proof fn law_whole_header_read_back(
    new_size: i64,
    old_size: i64,
    cover_count: i64,
    step: i64,
    size: i64,
    compressed: i64,
    pos: int,
    start: i64,
    path: Seq<char>,
    header: HeaderModel,
    rest: Seq<u8>,
)
    requires
        0 <= start <= pos,
        pos + numbers_written(
            whole_numbers(new_size, old_size, cover_count, step, size, compressed),
        ).len() <= i64::MAX,
    ensures
        ({
            let numbers = whole_numbers(new_size, old_size, cover_count, step, size, compressed);
            let end = pos + numbers_written(numbers).len();
            single_of(numbers_written(numbers) + rest, pos, path, header, start) matches Ok(
                (found, left),
            ) && {
                &&& left == rest
                &&& found.new_data_size == new_size
                &&& found.old_data_size == old_size
                &&& found.patch_path == path
                &&& found.step_mem_size == step
                &&& found.chunk_info == (DiffChunkInfo { cover_count, ..header.chunk_info })
                &&& found.single_chunk_info == (DiffSingleChunkInfo {
                    uncompressed_size: size,
                    compressed_size: compressed,
                    diff_data_pos: (end - start) as i64,
                })
                &&& found.compressed_count == 1 <==> compressed > 0
                &&& found.compressed_count == 0 <==> compressed <= 0
                &&& found == (HeaderModel {
                    new_data_size: found.new_data_size,
                    old_data_size: found.old_data_size,
                    patch_path: found.patch_path,
                    step_mem_size: found.step_mem_size,
                    chunk_info: found.chunk_info,
                    single_chunk_info: found.single_chunk_info,
                    compressed_count: found.compressed_count,
                    ..header
                })
            }
        }),
{
    let numbers = whole_numbers(new_size, old_size, cover_count, step, size, compressed);
    law_numbers_read_back(numbers, rest);
}

/// The counts of a directory patch as they are written: ten numbers, the count of the
/// executable files, which is a short one, and three more numbers.
pub open spec fn counts_written(info: DataReferenceInfo) -> Seq<u8> {
    numbers_written(
        seq![
            info.input_dir_count,
            info.input_sum_size,
            info.output_dir_count,
            info.output_sum_size,
            info.input_ref_file_count,
            info.input_ref_file_size,
            info.output_ref_file_count,
            info.output_ref_file_size,
            info.same_file_pair_count,
            info.same_file_size,
        ],
    ) + (number(info.new_execute_count as int) + numbers_written(
        seq![
            info.private_reserved_data_size,
            info.private_extern_data_size,
            info.extern_data_size,
        ],
    ))
}

/// Reading undoes writing for the counts of a directory patch: each comes back in its field,
/// and nothing else changes.
#[verifier::rlimit(40)]
pub proof fn law_counts_read_back(
    info: DataReferenceInfo,
    before: DataReferenceInfo,
    rest: Seq<u8>,
)
    requires
        0 <= info.new_execute_count < 65536,
    ensures
        counts_of(counts_written(info) + rest, before) == Ok::<
            (DataReferenceInfo, Seq<u8>),
            PatchError,
        >(
            (
                DataReferenceInfo {
                    private_extern_data_offset: before.private_extern_data_offset,
                    extern_data_offset: before.extern_data_offset,
                    compress_size_begin_pos: before.compress_size_begin_pos,
                    checksum_byte_size: before.checksum_byte_size,
                    checksum_offset: before.checksum_offset,
                    head_data_size: before.head_data_size,
                    head_data_offset: before.head_data_offset,
                    head_data_compressed_size: before.head_data_compressed_size,
                    hdiff_data_offset: before.hdiff_data_offset,
                    hdiff_data_size: before.hdiff_data_size,
                    ..info
                },
                rest,
            ),
        ),
{
    let first = seq![
        info.input_dir_count,
        info.input_sum_size,
        info.output_dir_count,
        info.output_sum_size,
        info.input_ref_file_count,
        info.input_ref_file_size,
        info.output_ref_file_count,
        info.output_ref_file_size,
        info.same_file_pair_count,
        info.same_file_size,
    ];
    let last = seq![
        info.private_reserved_data_size,
        info.private_extern_data_size,
        info.extern_data_size,
    ];
    let s3 = numbers_written(last) + rest;
    let s2 = number(info.new_execute_count as int) + s3;
    assert(counts_written(info) + rest =~= numbers_written(first) + s2);
    law_numbers_read_back(first, s2);
    lemma_no_tag();
    law_short_number_read_back(0, 0, info.new_execute_count as int, s3);
    law_numbers_read_back(last, rest);
}

/// A number can be written without a tag.
pub proof fn lemma_no_tag()
    ensures
        is_tag(0, 0),
{
    reveal_with_fuel(room, 2);
}

/// What stands between the signature of a directory patch and its checksums, as it is
/// written: whether the old data and the new are directories, the counts, and the size and
/// the compressed size of the head and the size of a checksum.
pub open spec fn references_written(
    is_input_dir: bool,
    is_output_dir: bool,
    info: DataReferenceInfo,
) -> Seq<u8> {
    seq![if is_input_dir { 1u8 } else { 0u8 }, if is_output_dir { 1u8 } else { 0u8 }] + (
    counts_written(info) + head_sizes_written(info))
}

/// The sizes of the head of a directory patch and of its checksums, as they are written.
pub open spec fn head_sizes_written(info: DataReferenceInfo) -> Seq<u8> {
    numbers_written(
        seq![
            info.head_data_size,
            info.head_data_compressed_size,
            info.checksum_byte_size as i64,
        ],
    )
}

/// Reading undoes writing for what stands between the signature of a directory patch and its
/// checksums: each number comes back in its field, the places are those where the sizes of
/// the head start and where the checksums do, and nothing else changes.
#[verifier::rlimit(40)]
pub proof fn law_references_read_back(
    is_input_dir: bool,
    is_output_dir: bool,
    info: DataReferenceInfo,
    pos: int,
    header: HeaderModel,
    before: DataReferenceInfo,
    rest: Seq<u8>,
)
    requires
        0 <= info.new_execute_count < 65536,
        0 <= pos,
        pos + references_written(is_input_dir, is_output_dir, info).len() <= i64::MAX,
    ensures
        ({
            let written = references_written(is_input_dir, is_output_dir, info);
            let end = pos + written.len();
            references_of(written + rest, pos, header, before) == Ok::<
                ((HeaderModel, DataReferenceInfo), Seq<u8>),
                PatchError,
            >(
                (
                    (
                        HeaderModel {
                            is_input_dir,
                            is_output_dir,
                            dir_data_is_compressed: info.head_data_compressed_size > 0,
                            ..header
                        },
                        DataReferenceInfo {
                            private_extern_data_offset: before.private_extern_data_offset,
                            extern_data_offset: before.extern_data_offset,
                            compress_size_begin_pos: (pos + 2 + counts_written(
                                info,
                            ).len()) as i64,
                            checksum_offset: end as i64,
                            head_data_offset: before.head_data_offset,
                            hdiff_data_offset: before.hdiff_data_offset,
                            hdiff_data_size: before.hdiff_data_size,
                            ..info
                        },
                    ),
                    rest,
                ),
            )
        }),
{
    let written = references_written(is_input_dir, is_output_dir, info);
    let one = if is_input_dir {
        1u8
    } else {
        0u8
    };
    let two = if is_output_dir {
        1u8
    } else {
        0u8
    };
    let sizes = seq![
        info.head_data_size,
        info.head_data_compressed_size,
        info.checksum_byte_size as i64,
    ];
    let s4 = head_sizes_written(info) + rest;
    let s3 = counts_written(info) + s4;
    let s2 = seq![two] + s3;
    assert(written + rest =~= seq![one] + s2);
    law_boolean_read_back(one, s2);
    law_boolean_read_back(two, s3);
    law_counts_read_back(info, before, s4);
    law_numbers_read_back(sizes, rest);
}

/// The header of the patch inside of a directory patch goes by the first part of its
/// signature: `HDIFFSF20` stands for one that is compressed as a whole, with the compression
/// of the directory patch. Any other is one whose parts are compressed apart, in the way that
/// the second part names, or as the directory patch where it names none.
pub proof fn law_inner_header(
    line: Seq<char>,
    rest: Seq<u8>,
    pos: int,
    path: Seq<char>,
    header: HeaderModel,
    start: i64,
)
    ensures
        ({
            let parts = parts_of(line);
            let read = inner_of(line, rest, pos, path, header, start);
            let named = parts.len() >= 2 && parts[1].len() > 0;
            if parts[0] == "HDIFFSF20"@ {
                &&& read == single_of(
                    rest,
                    pos,
                    path,
                    HeaderModel { is_single_compressed_diff: true, ..header },
                    start,
                )
                &&& read matches Ok((found, _)) ==> {
                    &&& found.is_single_compressed_diff
                    &&& found.comp_mode == header.comp_mode
                }
            } else if named && compression_named(lowercase(parts[1])) is None {
                read == Err::<(HeaderModel, Seq<u8>), PatchError>(PatchError::UnknownCompression)
            } else {
                &&& read == non_single_of(
                    rest,
                    pos,
                    path,
                    HeaderModel {
                        is_single_compressed_diff: false,
                        header_magic: parts[0],
                        comp_mode: if named {
                            compression_named(lowercase(parts[1]))->0
                        } else {
                            header.comp_mode
                        },
                        ..header
                    },
                )
                &&& read matches Ok((found, _)) ==> {
                    &&& !found.is_single_compressed_diff
                    &&& found.header_magic == parts[0]
                    &&& named ==> Some(found.comp_mode) == compression_named(lowercase(parts[1]))
                    &&& !named ==> found.comp_mode == header.comp_mode
                }
            }
        }),
{
}

/// A directory patch as it is written: what stands before its references, the references,
/// the checksums, the head, the private and the public bytes of others, and the patch inside
/// of it, which is a signature and what follows.
pub struct DirPatch {
    pub front: Seq<u8>,
    pub is_input_dir: bool,
    pub is_output_dir: bool,
    pub info: DataReferenceInfo,
    pub checksums: Seq<u8>,
    pub head: Seq<u8>,
    pub private_data: Seq<u8>,
    pub other_data: Seq<u8>,
    pub line: Seq<u8>,
    pub inner: Seq<u8>,
}

impl DirPatch {
    /// What stands before the head.
    pub open spec fn before_head(self) -> Seq<u8> {
        self.front + references_written(self.is_input_dir, self.is_output_dir, self.info)
            + self.checksums
    }

    /// What stands before the patch inside.
    pub open spec fn before_inner(self) -> Seq<u8> {
        self.before_head() + self.head + self.private_data + self.other_data
    }

    /// All the bytes.
    pub open spec fn bytes(self) -> Seq<u8> {
        self.before_inner() + self.line.push(0) + self.inner
    }

    /// Whether the sizes are those of the parts.
    pub open spec fn valid(self) -> bool {
        &&& 0 <= self.info.new_execute_count < 65536
        &&& self.checksums.len() == 4 * self.info.checksum_byte_size
        &&& self.head.len() == bytes_taken(
            self.info.head_data_size,
            self.info.head_data_compressed_size,
        )
        &&& self.private_data.len() == self.info.private_extern_data_size
        &&& self.other_data.len() == self.info.extern_data_size
        &&& no_zero(self.line)
        &&& self.bytes().len() <= i64::MAX
    }
}

/// Where the parts of a directory patch stand.
#[verifier::rlimit(40)]
proof fn lemma_parts_in_place(d: DirPatch)
    ensures
        ({
            let refs = references_written(d.is_input_dir, d.is_output_dir, d.info);
            let behind = d.bytes().skip((d.front.len() + refs.len()) as int);
            &&& bytes_from(d.bytes(), d.front.len() as int) == refs + behind
            &&& bytes_from(d.bytes(), d.before_inner().len() as int) == d.line.push(0) + d.inner
            &&& d.before_head().len() == d.front.len() + refs.len() + d.checksums.len()
            &&& d.before_inner().len() == d.before_head().len() + d.head.len()
                + d.private_data.len() + d.other_data.len()
            &&& d.bytes().len() == d.before_inner().len() + d.line.len() + 1 + d.inner.len()
        }),
{
    let refs = references_written(d.is_input_dir, d.is_output_dir, d.info);
    let all = d.bytes();
    let more = d.checksums + d.head + d.private_data + d.other_data + d.line.push(0) + d.inner;
    assert(all =~= d.front + refs + more);
    assert(all.skip((d.front.len() + refs.len()) as int) =~= more);
    assert(bytes_from(all, d.front.len() as int) =~= refs + more);
    assert(bytes_from(all, d.before_inner().len() as int) =~= d.line.push(0) + d.inner);
}

/// The places that a directory patch gives its parts.
proof fn lemma_places(info: DataReferenceInfo, pos: int, total: int)
    requires
        0 <= pos <= total <= i64::MAX,
        0 <= bytes_taken(info.head_data_size, info.head_data_compressed_size),
        0 <= info.private_extern_data_size,
        0 <= info.extern_data_size,
        pos + bytes_taken(info.head_data_size, info.head_data_compressed_size)
            + info.private_extern_data_size + info.extern_data_size <= total,
    ensures
        ({
            let private_place = pos + bytes_taken(
                info.head_data_size,
                info.head_data_compressed_size,
            );
            let other_place = private_place + info.private_extern_data_size;
            let inner_place = other_place + info.extern_data_size;
            places_of(info, pos, total) == Ok::<DataReferenceInfo, PatchError>(
                DataReferenceInfo {
                    head_data_offset: pos as i64,
                    private_extern_data_offset: private_place as i64,
                    extern_data_offset: other_place as i64,
                    hdiff_data_offset: inner_place as i64,
                    hdiff_data_size: (total - inner_place) as i64,
                    ..info
                },
            )
        }),
{
}

/// The patch inside is told by the signature that stands where it starts.
proof fn lemma_inner_found(
    data: Seq<u8>,
    line: Seq<u8>,
    inner: Seq<u8>,
    path: Seq<char>,
    header: HeaderModel,
    start: i64,
)
    requires
        0 <= start,
        no_zero(line),
        bytes_from(data, start as int) == line.push(0) + inner,
        data.len() == start + line.len() + 1 + inner.len(),
    ensures
        ({
            let read = inner_of(
                utf8_lossy(line),
                inner,
                start + line.len() + 1,
                path,
                header,
                start,
            );
            match identified_of(data, path, header, start) {
                Ok((found, end)) => read matches Ok((same, left)) && same == found && end
                    == data.len() - left.len(),
                Err(e) => read == Err::<(HeaderModel, Seq<u8>), PatchError>(e),
            }
        }),
{
    law_text_read_back(line, inner);
}

/// Reading undoes writing for the header of a directory patch: the references come back, and
/// the places are those where the parts stand that the sizes are of. The header inside is read
/// where the patch inside starts.
#[verifier::rlimit(40)]
pub proof fn law_dir_header_read_back(d: DirPatch, path: Seq<char>, header: HeaderModel)
    requires
        d.valid(),
    ensures
        ({
            let inner_start = d.before_inner().len() as int;
            let inner = inner_of(
                utf8_lossy(d.line),
                d.inner,
                inner_start + d.line.len() + 1,
                path,
                HeaderModel {
                    is_input_dir: d.is_input_dir,
                    is_output_dir: d.is_output_dir,
                    dir_data_is_compressed: d.info.head_data_compressed_size > 0,
                    ..header
                },
                inner_start as i64,
            );
            match dir_header_of(d.bytes(), d.front.len() as int, path, header) {
                Err(e) => inner == Err::<(HeaderModel, Seq<u8>), PatchError>(e),
                Ok((found, info, end)) => {
                    &&& inner matches Ok((same, left)) && same == found && end == d.bytes().len()
                        - left.len()
                    &&& info.head_data_offset == d.before_head().len()
                    &&& info.private_extern_data_offset == d.before_head().len() + d.head.len()
                    &&& info.extern_data_offset == d.before_head().len() + d.head.len()
                        + d.private_data.len()
                    &&& info.hdiff_data_offset == inner_start
                    &&& info.hdiff_data_size == d.line.len() + 1 + d.inner.len()
                    &&& info.checksum_offset == d.before_head().len() - d.checksums.len()
                    &&& info == (DataReferenceInfo {
                        head_data_offset: info.head_data_offset,
                        private_extern_data_offset: info.private_extern_data_offset,
                        extern_data_offset: info.extern_data_offset,
                        hdiff_data_offset: info.hdiff_data_offset,
                        hdiff_data_size: info.hdiff_data_size,
                        checksum_offset: info.checksum_offset,
                        compress_size_begin_pos: info.compress_size_begin_pos,
                        ..d.info
                    })
                },
            }
        }),
{
    let refs = references_written(d.is_input_dir, d.is_output_dir, d.info);
    let data = d.bytes();
    let (pos, head_pos) = (d.front.len() as int, d.before_head().len() as int);
    let behind = data.skip(pos + refs.len());
    lemma_parts_in_place(d);
    law_references_read_back(
        d.is_input_dir,
        d.is_output_dir,
        d.info,
        pos,
        header,
        DataReferenceInfo::zero(),
        behind,
    );
    let ((mid, info), _) = references_of(
        refs + behind,
        pos,
        header,
        DataReferenceInfo::zero(),
    )->Ok_0;
    lemma_places(info, head_pos, data.len() as int);
    lemma_inner_found(data, d.line, d.inner, path, mid, d.before_inner().len() as i64);
}

/// The header of a patch is read behind its signature, as that says: as that of a directory
/// patch, as that of a patch which is compressed as a whole, or as that of one whose parts are
/// compressed apart. What the signature is refused with is the answer.
#[verifier::rlimit(40)]
pub proof fn law_header_by_signature(
    front: Seq<u8>,
    line: Seq<u8>,
    rest: Seq<u8>,
    path: Seq<char>,
)
    requires
        no_zero(line),
    ensures
        ({
            let pos = front.len() as int;
            let data = front + line.push(0) + rest;
            let behind = pos + line.len() + 1;
            let read = header_of(data, pos, path);
            match signature_of(utf8_lossy(line)) {
                Err(e) => read == Err::<
                    (bool, HeaderModel, DataReferenceInfo, int),
                    PatchError,
                >(e),
                Ok((true, header)) => match dir_header_of(data, behind, path, header) {
                    Err(e) => read is Err && read->Err_0 == e,
                    Ok((found, info, end)) => read is Ok && read->Ok_0 == (true, found, info, end),
                },
                Ok((false, header)) => match if header.is_single_compressed_diff {
                    single_of(rest, behind, path, header, 0)
                } else {
                    non_single_of(rest, behind, path, header)
                } {
                    Err(e) => read is Err && read->Err_0 == e,
                    Ok((found, left)) => read is Ok && read->Ok_0 == (
                        false,
                        found,
                        DataReferenceInfo::zero(),
                        data.len() - left.len(),
                    ),
                },
            }
        }),
{
    let pos = front.len() as int;
    let data = front + line.push(0) + rest;
    assert(bytes_from(data, pos) =~= line.push(0) + rest);
    law_text_read_back(line, rest);
}

} // verus!
