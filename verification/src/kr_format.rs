//! The two headers of a KrDiff patch, and what stands between them.
use crate::compression_utils::{clip_len, zstd_decoded, ZstdStream};
use crate::error::PatchError;
use crate::parser::{
    boolean_of, byte_of, bytes_from, delimited_of, get_longs_from_stream_absolute, lemma_longs_len,
    long_7bit_tagged_of, longs_of, read_boolean, read_byte, read_delim, read_long_7bit,
    read_long_7bit_tagged, reads, ByteSource, ByteStream,
};
use crate::streams::{bytes_between, slice_between};
use crate::structs::{compression_named, CompressionMode};
use crate::text::{lowercase, same_text};
use crate::varint::{as_signed, as_unsigned, to_signed, to_unsigned};
use vstd::prelude::*;

verus! {

/// The longest path that a patch can hold, in bytes.
pub const PATH_LIMIT: usize = 255;

/// A file that a patch reads or makes, and its size.
pub struct KrFileEntry {
    pub path: String,
    pub size: u64,
}

/// A file as contracts speak of it.
pub struct KrFileModel {
    pub path: Seq<char>,
    pub size: u64,
}

impl DeepView for KrFileEntry {
    type V = KrFileModel;

    open spec fn deep_view(&self) -> KrFileModel {
        KrFileModel { path: self.path@, size: self.size }
    }
}

/// Where the file at `k` of a list stands among the paths. Its number says how
/// many directories stand between it and the file before.
pub open spec fn file_place(offsets: Seq<u64>, k: int) -> int
    decreases k,
{
    if k <= 0 {
        offsets[0] as int
    } else {
        file_place(offsets, k - 1) + offsets[k] + 1
    }
}

/// The size at `k` of a list, or zero where the list is shorter.
pub open spec fn size_at(sizes: Seq<u64>, k: int) -> u64 {
    if k < sizes.len() {
        sizes[k]
    } else {
        0
    }
}

/// Whether the path at `i` is the next file, behind `found` others.
pub open spec fn is_next_file(offsets: Seq<u64>, found: int, i: int) -> bool {
    found < offsets.len() && file_place(offsets, found) == i
}

/// The files and the directories among the first `n` paths.
pub open spec fn split_of(
    paths: Seq<Seq<char>>,
    offsets: Seq<u64>,
    sizes: Seq<u64>,
    n: int,
) -> (Seq<KrFileModel>, Seq<Seq<char>>)
    decreases n,
{
    if n <= 0 {
        (Seq::empty(), Seq::empty())
    } else {
        let (files, dirs) = split_of(paths, offsets, sizes, n - 1);
        let path = paths[n - 1];
        if is_next_file(offsets, files.len() as int, n - 1) {
            (files.push(KrFileModel { path, size: size_at(sizes, files.len() as int) }), dirs)
        } else {
            (files, dirs.push(path))
        }
    }
}

/// Every path is a file or a directory, and the files are those at the places
/// that the list gives, in order.
pub proof fn law_split_by_place(
    paths: Seq<Seq<char>>,
    offsets: Seq<u64>,
    sizes: Seq<u64>,
    n: int,
)
    requires
        0 <= n <= paths.len(),
    ensures
        ({
            let (files, dirs) = split_of(paths, offsets, sizes, n);
            &&& files.len() + dirs.len() == n
            &&& files.len() <= offsets.len()
            &&& forall|k: int|
                0 <= k < offsets.len() ==> (k < files.len() <==> #[trigger] file_place(offsets, k)
                    < n)
            &&& forall|k: int|
                0 <= k < files.len() ==> {
                    &&& (#[trigger] files[k]).path == paths[file_place(offsets, k)]
                    &&& files[k].size == size_at(sizes, k)
                }
        }),
    decreases n,
{
    if n > 0 {
        law_split_by_place(paths, offsets, sizes, n - 1);
        let (files, dirs) = split_of(paths, offsets, sizes, n - 1);
        let found = files.len() as int;
        assert forall|k: int| 0 <= k < offsets.len() implies ((#[trigger] file_place(offsets, k)
            < n) <==> (file_place(offsets, k) < n - 1 || (k == found && is_next_file(
            offsets,
            found,
            n - 1,
        )))) by {
            if k > found {
                lemma_places_ascend(offsets, found, k);
            }
        }
    } else {
        assert forall|k: int| 0 <= k < offsets.len() implies #[trigger] file_place(offsets, k)
            >= 0 by {
            lemma_places_ascend(offsets, 0, k);
        }
    }
}

/// Each file stands behind those before it.
proof fn lemma_places_ascend(offsets: Seq<u64>, i: int, k: int)
    requires
        0 <= i <= k < offsets.len(),
    ensures
        file_place(offsets, k) >= file_place(offsets, i) + (k - i),
        file_place(offsets, i) >= 0,
    decreases k,
{
    if i < k {
        lemma_places_ascend(offsets, i, k - 1);
    } else if k > 0 {
        lemma_places_ascend(offsets, i - 1, k - 1);
    }
}

/// Tells the files from the directories among some paths.
pub fn split_paths_with_offsets(paths: &Vec<String>, offsets: &Vec<u64>, sizes: &Vec<u64>) -> (r: (
    Vec<KrFileEntry>,
    Vec<String>,
))
    ensures
        (r.0.deep_view(), r.1.deep_view()) == split_of(
            paths.deep_view(),
            offsets@,
            sizes@,
            paths@.len() as int,
        ),
{
    let ghost all = paths.deep_view();
    let mut files: Vec<KrFileEntry> = Vec::new();
    let mut dirs: Vec<String> = Vec::new();
    let offset_count = offsets.len();
    // Where the next file stands, unless there is none or its place is beyond
    // all counting.
    let mut next: Option<u64> = None;
    if offset_count > 0 {
        next = Some(offsets[0]);
    }
    let mut i: usize = 0;
    proof {
        assert(files.deep_view() =~= Seq::empty());
        assert(dirs.deep_view() =~= Seq::empty());
    }
    while i < paths.len()
        invariant
            i <= paths@.len(),
            all == paths.deep_view(),
            offset_count == offsets@.len(),
            (files.deep_view(), dirs.deep_view()) == split_of(all, offsets@, sizes@, i as int),
            files@.len() <= i,
            files@.len() <= offset_count,
            match next {
                Some(place) => files@.len() < offset_count && place == file_place(
                    offsets@,
                    files@.len() as int,
                ),
                None => files@.len() == offset_count || file_place(offsets@, files@.len() as int)
                    > u64::MAX,
            },
        decreases paths@.len() - i,
    {
        let path = paths[i].as_str().to_owned();
        let ghost files0 = files.deep_view();
        let ghost dirs0 = dirs.deep_view();
        assert(path@ == all[i as int]);
        assert(files0.len() == files@.len());
        let is_file = match next {
            Some(place) => place == i as u64,
            None => false,
        };
        if is_file {
            let found = files.len();
            let size: u64 = if found < sizes.len() {
                sizes[found]
            } else {
                0
            };
            files.push(KrFileEntry { path, size });
            assert(files.deep_view() =~= files0.push(KrFileModel { path: path@, size }));
            next = None;
            if found + 1 < offset_count {
                let between: u64 = offsets[found + 1];
                if between < u64::MAX {
                    next = (i as u64).checked_add(between + 1);
                }
            }
        } else {
            dirs.push(path);
            assert(dirs.deep_view() =~= dirs0.push(path@));
        }
        i = i + 1;
    }
    (files, dirs)
}

/// Some numbers without a sign.
pub open spec fn unsigned_of(numbers: Seq<i64>) -> Seq<u64> {
    Seq::new(numbers.len(), |i: int| as_unsigned(numbers[i]))
}

fn unsigned(numbers: &Vec<i64>) -> (r: Vec<u64>)
    ensures
        r@ == unsigned_of(numbers@),
{
    let mut out: Vec<u64> = Vec::new();
    let mut i: usize = 0;
    while i < numbers.len()
        invariant
            i <= numbers@.len(),
            out@ == unsigned_of(numbers@).take(i as int),
        decreases numbers@.len() - i,
    {
        out.push(to_unsigned(numbers[i]));
        i = i + 1;
        assert(out@ =~= unsigned_of(numbers@).take(i as int));
    }
    assert(out@ =~= unsigned_of(numbers@));
    out
}

/// The `n` paths at the front of `rest`, each closed by a zero byte.
pub open spec fn null_strings_of(rest: Seq<u8>, n: int) -> Result<
    (Seq<Seq<char>>, Seq<u8>),
    PatchError,
>
    decreases n,
{
    if n <= 0 {
        Ok((Seq::empty(), rest))
    } else {
        match null_strings_of(rest, n - 1) {
            Err(e) => Err(e),
            Ok((texts, left)) => match delimited_of(left, 0, PATH_LIMIT as int) {
                Err(e) => Err(e),
                Ok((text, left)) => Ok((texts.push(text), left)),
            },
        }
    }
}

proof fn lemma_null_strings_err(rest: Seq<u8>, i: int, n: int)
    requires
        i <= n,
        null_strings_of(rest, i) is Err,
    ensures
        null_strings_of(rest, n) == null_strings_of(rest, i),
    decreases n,
{
    if i < n {
        lemma_null_strings_err(rest, i, n - 1);
    }
}

/// Reads a path.
fn read_null_str<S: ByteSource>(src: &mut S) -> (r: Result<String, PatchError>)
    ensures
        reads(*old(src), *final(src), r, delimited_of(old(src).rest(), 0, PATH_LIMIT as int)),
{
    read_delim(src, 0, PATH_LIMIT)
}

/// Reads `count` paths.
fn read_null_strings<S: ByteSource>(src: &mut S, count: u64) -> (r: Result<
    Vec<String>,
    PatchError,
>)
    ensures
        reads(*old(src), *final(src), r, null_strings_of(old(src).rest(), count as int)),
{
    let ghost rest = src.rest();
    let mut out: Vec<String> = Vec::new();
    let mut i: u64 = 0;
    assert(out.deep_view() =~= Seq::empty());
    while i < count
        invariant
            i <= count,
            rest == old(src).rest(),
            src.base() == old(src).base(),
            src.fallible() == old(src).fallible(),
            src.position() == old(src).position() + rest.len() - src.rest().len(),
            null_strings_of(rest, i as int) == Ok::<(Seq<Seq<char>>, Seq<u8>), PatchError>(
                (out.deep_view(), src.rest()),
            ),
        decreases count - i,
    {
        let ghost before = out.deep_view();
        proof {
            if null_strings_of(rest, i + 1) is Err {
                lemma_null_strings_err(rest, i + 1, count as int);
            }
        }
        let text = read_null_str(src)?;
        out.push(text);
        assert(out.deep_view() =~= before.push(text@));
        i = i + 1;
    }
    Ok(out)
}

/// What the head of a patch lists.
pub struct KrHead {
    pub old_files: Vec<KrFileEntry>,
    pub new_files: Vec<KrFileEntry>,
    pub new_directories: Vec<String>,
}

/// The head as contracts speak of it.
pub struct KrHeadModel {
    pub old_files: Seq<KrFileModel>,
    pub new_files: Seq<KrFileModel>,
    pub new_directories: Seq<Seq<char>>,
}

impl DeepView for KrHead {
    type V = KrHeadModel;

    open spec fn deep_view(&self) -> KrHeadModel {
        KrHeadModel {
            old_files: self.old_files.deep_view(),
            new_files: self.new_files.deep_view(),
            new_directories: self.new_directories.deep_view(),
        }
    }
}

/// The lists of numbers in the head: the places and the sizes of the old files
/// and of the new.
pub struct KrNumbers {
    pub old_offsets: Seq<u64>,
    pub new_offsets: Seq<u64>,
    pub old_sizes: Seq<u64>,
    pub new_sizes: Seq<u64>,
}

/// The lists of numbers in the head of a patch. Behind them stands one more number
/// for each new file, which says nothing.
pub open spec fn head_numbers_of(rest: Seq<u8>, old_count: int, new_count: int) -> Result<
    (KrNumbers, Seq<u8>),
    PatchError,
> {
    match longs_of(rest, old_count) {
        Err(e) => Err(e),
        Ok((old_offsets, left)) => match longs_of(left, new_count) {
            Err(e) => Err(e),
            Ok((new_offsets, left)) => match longs_of(left, old_count) {
                Err(e) => Err(e),
                Ok((old_sizes, left)) => match longs_of(left, new_count) {
                    Err(e) => Err(e),
                    Ok((new_sizes, left)) => match longs_of(left, new_count) {
                        Err(e) => Err(e),
                        Ok((_, left)) => Ok(
                            (
                                KrNumbers {
                                    old_offsets: unsigned_of(old_offsets),
                                    new_offsets: unsigned_of(new_offsets),
                                    old_sizes: unsigned_of(old_sizes),
                                    new_sizes: unsigned_of(new_sizes),
                                },
                                left,
                            ),
                        ),
                    },
                },
            },
        },
    }
}

/// The counts in the first header of a patch that its head depends on.
#[derive(Debug, Clone, Copy, PartialEq, Eq, Structural)]
pub struct KrCounts {
    pub old_paths: u64,
    pub new_paths: u64,
    pub old_refs: u64,
    pub new_refs: u64,
}

/// The head of a patch with these counts.
pub open spec fn head_data_of(rest: Seq<u8>, counts: KrCounts) -> Result<
    (KrHeadModel, Seq<u8>),
    PatchError,
> {
    match null_strings_of(rest, counts.old_paths as int) {
        Err(e) => Err(e),
        Ok((old_paths, left)) => match null_strings_of(left, counts.new_paths as int) {
            Err(e) => Err(e),
            Ok((new_paths, left)) => match head_numbers_of(
                left,
                counts.old_refs as int,
                counts.new_refs as int,
            ) {
                Err(e) => Err(e),
                Ok((n, left)) => {
                    let (old_files, _) = split_of(
                        old_paths,
                        n.old_offsets,
                        n.old_sizes,
                        old_paths.len() as int,
                    );
                    let (new_files, new_directories) = split_of(
                        new_paths,
                        n.new_offsets,
                        n.new_sizes,
                        new_paths.len() as int,
                    );
                    Ok((KrHeadModel { old_files, new_files, new_directories }, left))
                },
            },
        },
    }
}

/// Reads the head of a patch.
pub fn parse_head_data_seq<S: ByteSource>(reader: &mut S, counts: KrCounts) -> (r: Result<
    KrHead,
    PatchError,
>)
    ensures
        reads(*old(reader), *final(reader), r, head_data_of(old(reader).rest(), counts)),
{
    let old_paths = read_null_strings(reader, counts.old_paths)?;
    let new_paths = read_null_strings(reader, counts.new_paths)?;
    let old_offsets = get_longs_from_stream_absolute(reader, counts.old_refs)?;
    let new_offsets = get_longs_from_stream_absolute(reader, counts.new_refs)?;
    let old_sizes = get_longs_from_stream_absolute(reader, counts.old_refs)?;
    let new_sizes = get_longs_from_stream_absolute(reader, counts.new_refs)?;
    let _unknown = get_longs_from_stream_absolute(reader, counts.new_refs)?;
    proof {
        assert(old_offsets.deep_view() =~= old_offsets@);
        assert(new_offsets.deep_view() =~= new_offsets@);
        assert(old_sizes.deep_view() =~= old_sizes@);
        assert(new_sizes.deep_view() =~= new_sizes@);
    }
    let (old_files, _old_dirs) = split_paths_with_offsets(
        &old_paths,
        &unsigned(&old_offsets),
        &unsigned(&old_sizes),
    );
    let (new_files, new_directories) = split_paths_with_offsets(
        &new_paths,
        &unsigned(&new_offsets),
        &unsigned(&new_sizes),
    );
    Ok(KrHead { old_files, new_files, new_directories })
}

/// A stretch of old data that the new data takes over: how far it starts from
/// where the last one ends in the old data, how much new data goes before it,
/// and its length.
#[derive(Debug, Clone, Copy, PartialEq, Eq, Structural)]
pub struct KrCover {
    pub old_pos_delta: i64,
    pub new_pos_gap: u64,
    pub length: u64,
}

impl DeepView for KrCover {
    type V = KrCover;

    open spec fn deep_view(&self) -> KrCover {
        *self
    }
}

/// The cover at the front of `rest`. There is none where its distance has no
/// opposite.
pub open spec fn kr_cover_of(rest: Seq<u8>) -> Result<(KrCover, Seq<u8>), PatchError> {
    match byte_of(rest) {
        Err(e) => Err(e),
        Ok((sign, left)) => match long_7bit_tagged_of(1, sign, left) {
            Err(e) => Err(e),
            Ok((distance, left)) => if sign >= 128 && distance == i64::MIN {
                Err(PatchError::Malformed)
            } else {
                match longs_of(left, 2) {
                    Err(e) => Err(e),
                    Ok((n, left)) => Ok(
                        (
                            KrCover {
                                old_pos_delta: if sign >= 128 {
                                    (-distance) as i64
                                } else {
                                    distance
                                },
                                new_pos_gap: as_unsigned(n[0]),
                                length: as_unsigned(n[1]),
                            },
                            left,
                        ),
                    ),
                }
            },
        },
    }
}

/// The `n` covers at the front of `rest`.
pub open spec fn kr_covers_of(rest: Seq<u8>, n: int) -> Result<(Seq<KrCover>, Seq<u8>), PatchError>
    decreases n,
{
    if n <= 0 {
        Ok((Seq::empty(), rest))
    } else {
        match kr_covers_of(rest, n - 1) {
            Err(e) => Err(e),
            Ok((covers, left)) => match kr_cover_of(left) {
                Err(e) => Err(e),
                Ok((cover, left)) => Ok((covers.push(cover), left)),
            },
        }
    }
}

proof fn lemma_kr_covers_err(rest: Seq<u8>, i: int, n: int)
    requires
        i <= n,
        kr_covers_of(rest, i) is Err,
    ensures
        kr_covers_of(rest, n) == kr_covers_of(rest, i),
    decreases n,
{
    if i < n {
        lemma_kr_covers_err(rest, i, n - 1);
    }
}

/// Reads one cover.
fn read_kr_cover<S: ByteSource>(reader: &mut S) -> (r: Result<KrCover, PatchError>)
    ensures
        reads(*old(reader), *final(reader), r, kr_cover_of(old(reader).rest())),
{
    proof {
        reveal_with_fuel(longs_of, 3);
    }
    let p_sign = read_byte(reader)?;
    let abs_val = read_long_7bit_tagged(reader, 1, p_sign)?;
    let old_pos_delta: i64 = if p_sign >= 128 {
        if abs_val == i64::MIN {
            return Err(PatchError::Malformed);
        }
        -abs_val
    } else {
        abs_val
    };
    let new_pos_gap = to_unsigned(read_long_7bit(reader)?);
    let length = to_unsigned(read_long_7bit(reader)?);
    Ok(KrCover { old_pos_delta, new_pos_gap, length })
}

/// Reads `cover_count` covers.
pub fn parse_covers_seq<S: ByteSource>(reader: &mut S, cover_count: u64) -> (r: Result<
    Vec<KrCover>,
    PatchError,
>)
    ensures
        reads(*old(reader), *final(reader), r, kr_covers_of(old(reader).rest(), cover_count as int)),
{
    let ghost rest = reader.rest();
    let mut covers: Vec<KrCover> = Vec::new();
    let mut i: u64 = 0;
    while i < cover_count
        invariant
            i <= cover_count,
            rest == old(reader).rest(),
            reader.base() == old(reader).base(),
            reader.fallible() == old(reader).fallible(),
            reader.position() == old(reader).position() + rest.len() - reader.rest().len(),
            kr_covers_of(rest, i as int) == Ok::<(Seq<KrCover>, Seq<u8>), PatchError>(
                (covers@, reader.rest()),
            ),
        decreases cover_count - i,
    {
        proof {
            if kr_covers_of(rest, i + 1) is Err {
                lemma_kr_covers_err(rest, i + 1, cover_count as int);
            }
        }
        let cover = read_kr_cover(reader)?;
        covers.push(cover);
        i = i + 1;
    }
    assert(covers.deep_view() =~= covers@);
    Ok(covers)
}

/// The position `n` bytes behind `pos`. The distance is counted as an `i64`, and
/// a position that no file can have is refused.
pub open spec fn skipped(pos: int, n: u64) -> Result<int, PatchError> {
    if n == 0 {
        Ok(pos)
    } else if 0 <= pos + as_signed(n as int) <= i64::MAX {
        Ok(pos + as_signed(n as int))
    } else {
        Err(PatchError::InvalidSeek)
    }
}

/// Passes over `n` bytes.
fn skip_bytes(reader: &mut ByteStream, n: u64) -> (r: Result<(), PatchError>)
    ensures
        final(reader).data@ == old(reader).data@,
        match r {
            Ok(_) => skipped(old(reader).pos as int, n) == Ok::<int, PatchError>(
                final(reader).position(),
            ),
            Err(e) => skipped(old(reader).pos as int, n) == Err::<int, PatchError>(e),
        },
{
    if n > 0 {
        reader.seek_current(to_signed(n))?;
    }
    Ok(())
}

/// The bytes of a section at `pos` of a patch, of `size` bytes, or of `comp_size`
/// bytes compressed.
pub open spec fn section_of(data: Seq<u8>, pos: int, size: u64, comp_size: u64) -> Seq<u8> {
    let held = bytes_between(data, pos, pos + clip_len(size as int, comp_size as int));
    if comp_size > 0 {
        zstd_decoded(held)
    } else {
        held
    }
}

/// The bytes that a section takes up, where the stream stands.
fn section_slice<'a>(reader: &ByteStream<'a>, size: u64, comp_size: u64) -> (r: &'a [u8])
    ensures
        r@ == bytes_between(
            reader.data@,
            reader.pos as int,
            reader.pos + clip_len(size as int, comp_size as int),
        ),
{
    assert(reader.data@.len() == reader.data.len());
    let file_bytes = if comp_size > 0 {
        comp_size
    } else {
        size
    };
    slice_between(reader.data, reader.pos, reader.pos.saturating_add(file_bytes))
}

/// The first header of a patch up to its checksums: the name of its compression
/// mode and its numbers.
pub open spec fn lead_of(rest: Seq<u8>) -> Result<((Seq<char>, Seq<i64>), Seq<u8>), PatchError> {
    match delimited_of(rest, '&' as u8, 10) {
        Err(e) => Err(e),
        Ok((chunk_type, left)) => if chunk_type != "HDIFF19"@ {
            Err(PatchError::ExpectedHdiff19)
        } else {
            match delimited_of(left, '&' as u8, 10) {
                Err(e) => Err(e),
                Ok((comp_name, left)) => match delimited_of(left, 0, 15) {
                    Err(e) => Err(e),
                    Ok((_, left)) => match boolean_of(left) {
                        Err(e) => Err(e),
                        Ok((_, left)) => match boolean_of(left) {
                            Err(e) => Err(e),
                            Ok((_, left)) => match longs_of(left, 17) {
                                Err(e) => Err(e),
                                Ok((n, left)) => Ok(((comp_name, n), left)),
                            },
                        },
                    },
                },
            }
        },
    }
}

/// Reads the first header of a patch up to its checksums.
fn read_lead(reader: &mut ByteStream) -> (r: Result<(String, Vec<i64>), PatchError>)
    ensures
        reads(*old(reader), *final(reader), r, lead_of(old(reader).rest())),
{
    let chunk_type = read_delim(reader, '&' as u8, 10)?;
    if !same_text(chunk_type.as_str(), "HDIFF19") {
        return Err(PatchError::ExpectedHdiff19);
    }
    let comp_name = read_delim(reader, '&' as u8, 10)?;
    let _checksum_type = read_delim(reader, 0, 15)?;
    let _old_is_dir = read_boolean(reader)?;
    let _new_is_dir = read_boolean(reader)?;
    let n = get_longs_from_stream_absolute(reader, 17)?;
    Ok((comp_name, n))
}

/// What the first header of a patch says.
pub struct KrHd19 {
    pub comp_mode: CompressionMode,
    pub old_ref_size: u64,
    pub new_ref_size: u64,
    pub head: KrHead,
}

/// The first header as contracts speak of it.
pub struct KrHd19Model {
    pub comp_mode: CompressionMode,
    pub old_ref_size: u64,
    pub new_ref_size: u64,
    pub head: KrHeadModel,
}

impl DeepView for KrHd19 {
    type V = KrHd19Model;

    open spec fn deep_view(&self) -> KrHd19Model {
        KrHd19Model {
            comp_mode: self.comp_mode,
            old_ref_size: self.old_ref_size,
            new_ref_size: self.new_ref_size,
            head: self.head.deep_view(),
        }
    }
}

/// The numbers of the first header that say where its parts stand.
pub struct KrLead {
    pub comp_name: Seq<char>,
    pub counts: KrCounts,
    pub old_ref_size: u64,
    pub new_ref_size: u64,
    pub private_extern_size: u64,
    pub extern_size: u64,
    pub head_size: u64,
    pub head_comp_size: u64,
    /// Where the head stands.
    pub head_pos: int,
}

/// The first header of a patch at `pos`, up to its head.
pub open spec fn head_lead_of(data: Seq<u8>, pos: int) -> Result<KrLead, PatchError> {
    let rest = bytes_from(data, pos);
    match lead_of(rest) {
        Err(e) => Err(e),
        Ok(((comp_name, n), left)) => {
            let checksums = as_unsigned(n[16]) * 4;
            if checksums > u64::MAX {
                Err(PatchError::Malformed)
            } else {
                match skipped(pos + rest.len() - left.len(), checksums as u64) {
                    Err(e) => Err(e),
                    Ok(head_pos) => Ok(
                        KrLead {
                            comp_name,
                            counts: KrCounts {
                                old_paths: as_unsigned(n[0]),
                                new_paths: as_unsigned(n[2]),
                                old_refs: as_unsigned(n[4]),
                                new_refs: as_unsigned(n[6]),
                            },
                            old_ref_size: as_unsigned(n[5]),
                            new_ref_size: as_unsigned(n[7]),
                            private_extern_size: as_unsigned(n[12]),
                            extern_size: as_unsigned(n[13]),
                            head_size: as_unsigned(n[14]),
                            head_comp_size: as_unsigned(n[15]),
                            head_pos,
                        },
                    ),
                }
            }
        },
    }
}

/// The head that the first header leads to, and where it ends.
pub open spec fn head_at(data: Seq<u8>, lead: KrLead) -> Result<(KrHeadModel, int), PatchError> {
    let end = lead.head_pos + clip_len(lead.head_size as int, lead.head_comp_size as int);
    match head_data_of(
        section_of(data, lead.head_pos, lead.head_size, lead.head_comp_size),
        lead.counts,
    ) {
        Err(e) => Err(e),
        Ok((head, _)) => if end > u64::MAX {
            Err(PatchError::Malformed)
        } else if end > i64::MAX {
            Err(PatchError::InvalidSeek)
        } else {
            Ok((head, end))
        },
    }
}

/// What the first header says and its head lists, and where the second header
/// stands.
pub open spec fn hd19_of(data: Seq<u8>, lead: KrLead) -> Result<(KrHd19Model, int), PatchError> {
    match head_at(data, lead) {
        Err(e) => Err(e),
        Ok((head, end)) => match skipped(end, lead.private_extern_size) {
            Err(e) => Err(e),
            Ok(pos) => match skipped(pos, lead.extern_size) {
                Err(e) => Err(e),
                Ok(pos) => match compression_named(lowercase(lead.comp_name)) {
                    None => Err(PatchError::UnknownCompression),
                    Some(comp_mode) => Ok(
                        (
                            KrHd19Model {
                                comp_mode,
                                old_ref_size: lead.old_ref_size,
                                new_ref_size: lead.new_ref_size,
                                head,
                            },
                            pos,
                        ),
                    ),
                },
            },
        },
    }
}

/// Reads the head of a patch where the stream stands, and moves behind it. Only a
/// compressed head can fail to be decompressed.
pub fn parse_hd19_head(
    reader: &mut ByteStream,
    counts: KrCounts,
    head_data_size: u64,
    head_data_comp_size: u64,
) -> (r: Result<KrHead, PatchError>)
    ensures
        final(reader).data@ == old(reader).data@,
        ({
            let pos = old(reader).pos as int;
            let want = head_data_of(
                section_of(old(reader).data@, pos, head_data_size, head_data_comp_size),
                counts,
            );
            let end = pos + clip_len(head_data_size as int, head_data_comp_size as int);
            match r {
                Ok(head) => {
                    &&& want matches Ok((want_head, _)) && head.deep_view() == want_head
                    &&& final(reader).pos == end && end <= i64::MAX
                },
                Err(e) => {
                    ||| want matches Err(want_e) && e == want_e
                    ||| want is Ok && end > u64::MAX && e == PatchError::Malformed
                    ||| want is Ok && i64::MAX < end <= u64::MAX && e == PatchError::InvalidSeek
                    ||| head_data_comp_size > 0 && e == PatchError::Decoder
                },
            }
        }),
{
    let section_start = reader.pos;
    let section = section_slice(reader, head_data_size, head_data_comp_size);
    let head = if head_data_comp_size > 0 {
        let mut dec = ZstdStream::new(section)?;
        parse_head_data_seq(&mut dec, counts)?
    } else {
        let mut limited = ByteStream::new(section);
        assert(section@.skip(0) =~= section@);
        parse_head_data_seq(&mut limited, counts)?
    };
    let file_bytes = if head_data_comp_size > 0 {
        head_data_comp_size
    } else {
        head_data_size
    };
    match section_start.checked_add(file_bytes) {
        Some(end) => {
            reader.seek_start(end)?;
        },
        None => return Err(PatchError::Malformed),
    }
    Ok(head)
}

/// Reads the first header of a patch and its head. Only a compressed head can
/// fail to be decompressed.
pub fn parse_hd19(reader: &mut ByteStream) -> (r: Result<KrHd19, PatchError>)
    ensures
        final(reader).data@ == old(reader).data@,
        match (head_lead_of(old(reader).data@, old(reader).pos as int), r) {
            (Err(want_e), Err(e)) => e == want_e,
            (Err(_), Ok(_)) => false,
            (Ok(lead), Ok(hd19)) => hd19_of(old(reader).data@, lead) == Ok::<_, PatchError>(
                (hd19.deep_view(), final(reader).position()),
            ),
            (Ok(lead), Err(e)) => {
                ||| hd19_of(old(reader).data@, lead) == Err::<(KrHd19Model, int), PatchError>(e)
                ||| lead.head_comp_size > 0 && e == PatchError::Decoder
            },
        },
{
    let ghost rest = reader.rest();
    let (comp_name, n) = read_lead(reader)?;
    proof {
        assert(n.deep_view() =~= n@);
        lemma_lead_len(rest);
    }
    let checksum_byte_size = to_unsigned(n[16]);
    match checksum_byte_size.checked_mul(4) {
        Some(size) => {
            skip_bytes(reader, size)?;
        },
        None => return Err(PatchError::Malformed),
    }
    let counts = KrCounts {
        old_paths: to_unsigned(n[0]),
        new_paths: to_unsigned(n[2]),
        old_refs: to_unsigned(n[4]),
        new_refs: to_unsigned(n[6]),
    };
    let head = parse_hd19_head(reader, counts, to_unsigned(n[14]), to_unsigned(n[15]))?;
    skip_bytes(reader, to_unsigned(n[12]))?;
    skip_bytes(reader, to_unsigned(n[13]))?;
    let comp_mode = match CompressionMode::from_str(comp_name.as_str()) {
        Ok(mode) => mode,
        Err(_) => return Err(PatchError::UnknownCompression),
    };
    Ok(
        KrHd19 {
            comp_mode,
            old_ref_size: to_unsigned(n[5]),
            new_ref_size: to_unsigned(n[7]),
            head,
        },
    )
}

/// The first header has all its numbers.
proof fn lemma_lead_len(rest: Seq<u8>)
    ensures
        lead_of(rest) matches Ok(((_, n), _)) ==> n.len() == 17,
{
    if let Ok((_, left)) = delimited_of(rest, '&' as u8, 10) {
        if let Ok((_, left)) = delimited_of(left, '&' as u8, 10) {
            if let Ok((_, left)) = delimited_of(left, 0, 15) {
                if let Ok((_, left)) = boolean_of(left) {
                    if let Ok((_, left)) = boolean_of(left) {
                        lemma_longs_len(left, 17);
                    }
                }
            }
        }
    }
}

/// The second header of a patch up to its covers: the name of its compression
/// mode and its numbers.
pub open spec fn second_lead_of(rest: Seq<u8>) -> Result<
    ((Seq<char>, Seq<i64>), Seq<u8>),
    PatchError,
> {
    match delimited_of(rest, '&' as u8, 10) {
        Err(e) => Err(e),
        Ok((chunk_type, left)) => if chunk_type != "HDIFF13"@ {
            Err(PatchError::ExpectedHdiff13)
        } else {
            match delimited_of(left, 0, 10) {
                Err(e) => Err(e),
                Ok((comp_name, left)) => match longs_of(left, 11) {
                    Err(e) => Err(e),
                    Ok((n, left)) => Ok(((comp_name, n), left)),
                },
            }
        },
    }
}

/// What the second header of a patch says, and its covers.
pub struct KrHd13 {
    pub covers: Vec<KrCover>,
    pub new_data_size: u64,
    pub new_data_diff_offset: u64,
    pub new_data_diff_size: u64,
    pub new_data_diff_comp_size: u64,
    pub comp_mode: CompressionMode,
}

/// The second header as contracts speak of it.
pub struct KrHd13Model {
    pub covers: Seq<KrCover>,
    pub new_data_size: u64,
    pub new_data_diff_offset: u64,
    pub new_data_diff_size: u64,
    pub new_data_diff_comp_size: u64,
    pub comp_mode: CompressionMode,
}

impl DeepView for KrHd13 {
    type V = KrHd13Model;

    open spec fn deep_view(&self) -> KrHd13Model {
        KrHd13Model {
            covers: self.covers@,
            new_data_size: self.new_data_size,
            new_data_diff_offset: self.new_data_diff_offset,
            new_data_diff_size: self.new_data_diff_size,
            new_data_diff_comp_size: self.new_data_diff_comp_size,
            comp_mode: self.comp_mode,
        }
    }
}

/// How many bytes a part takes up, out of its size and its compressed size.
pub open spec fn part_len(size: i64, comp_size: i64) -> int {
    clip_len(as_unsigned(size) as int, as_unsigned(comp_size) as int)
}

/// What the second header says, with these numbers and covers at `pos`.
pub open spec fn hd13_with(
    comp_name: Seq<char>,
    n: Seq<i64>,
    covers: Seq<KrCover>,
    pos: int,
) -> Result<KrHd13Model, PatchError> {
    let offset = pos + part_len(n[3], n[4]) + part_len(n[5], n[6]) + part_len(n[7], n[8]);
    if offset > u64::MAX {
        Err(PatchError::Malformed)
    } else {
        match compression_named(lowercase(comp_name)) {
            None => Err(PatchError::UnknownCompression),
            Some(comp_mode) => Ok(
                KrHd13Model {
                    covers,
                    new_data_size: as_unsigned(n[0]),
                    new_data_diff_offset: offset as u64,
                    new_data_diff_size: as_unsigned(n[9]),
                    new_data_diff_comp_size: as_unsigned(n[10]),
                    comp_mode,
                },
            ),
        }
    }
}

/// What the second header at `pos` of a patch says.
pub open spec fn hd13_of(data: Seq<u8>, pos: int) -> Result<KrHd13Model, PatchError> {
    let rest = bytes_from(data, pos);
    match second_lead_of(rest) {
        Err(e) => Err(e),
        Ok(((comp_name, n), left)) => {
            let covers_pos = pos + rest.len() - left.len();
            match kr_covers_of(
                section_of(data, covers_pos, as_unsigned(n[3]), as_unsigned(n[4])),
                as_unsigned(n[2]) as int,
            ) {
                Err(e) => Err(e),
                Ok((covers, _)) => hd13_with(comp_name, n, covers, covers_pos),
            }
        },
    }
}

/// Whether the covers of the second header at `pos` are compressed.
pub open spec fn covers_compressed(data: Seq<u8>, pos: int) -> bool {
    second_lead_of(bytes_from(data, pos)) matches Ok(((_, n), _)) && as_unsigned(n[4]) > 0
}

/// Reads the covers of a patch where the stream stands. Only compressed covers
/// can fail to be decompressed.
pub fn read_covers(
    reader: &ByteStream,
    cover_count: u64,
    cover_buf_size: u64,
    comp_cover_buf_size: u64,
) -> (r: Result<Vec<KrCover>, PatchError>)
    ensures
        ({
            let want = kr_covers_of(
                section_of(
                    reader.data@,
                    reader.pos as int,
                    cover_buf_size,
                    comp_cover_buf_size,
                ),
                cover_count as int,
            );
            match r {
                Ok(covers) => want matches Ok((want_covers, _)) && covers@ == want_covers,
                Err(e) => {
                    ||| want matches Err(want_e) && e == want_e
                    ||| comp_cover_buf_size > 0 && e == PatchError::Decoder
                },
            }
        }),
{
    let section = section_slice(reader, cover_buf_size, comp_cover_buf_size);
    if comp_cover_buf_size > 0 {
        let mut dec = ZstdStream::new(section)?;
        let covers = parse_covers_seq(&mut dec, cover_count)?;
        assert(covers.deep_view() =~= covers@);
        Ok(covers)
    } else {
        let mut limited = ByteStream::new(section);
        assert(section@.skip(0) =~= section@);
        let covers = parse_covers_seq(&mut limited, cover_count)?;
        assert(covers.deep_view() =~= covers@);
        Ok(covers)
    }
}

/// How many bytes a part takes up.
fn len_of_part(size: i64, comp_size: i64) -> (r: u64)
    ensures
        r == part_len(size, comp_size),
{
    if to_unsigned(comp_size) > 0 {
        to_unsigned(comp_size)
    } else {
        to_unsigned(size)
    }
}

/// Reads the second header of a patch and its covers. Only compressed covers can
/// fail to be decompressed.
pub fn parse_hd13(reader: &mut ByteStream) -> (r: Result<KrHd13, PatchError>)
    ensures
        final(reader).data@ == old(reader).data@,
        ({
            let want = hd13_of(old(reader).data@, old(reader).pos as int);
            match r {
                Ok(hd13) => want == Ok::<KrHd13Model, PatchError>(hd13.deep_view()),
                Err(e) => {
                    ||| want == Err::<KrHd13Model, PatchError>(e)
                    ||| e == PatchError::Decoder && covers_compressed(
                        old(reader).data@,
                        old(reader).pos as int,
                    )
                },
            }
        }),
{
    let chunk_type = read_delim(reader, '&' as u8, 10)?;
    if !same_text(chunk_type.as_str(), "HDIFF13") {
        return Err(PatchError::ExpectedHdiff13);
    }
    let comp_name = read_delim(reader, 0, 10)?;
    let ghost rest = reader.rest();
    let n = get_longs_from_stream_absolute(reader, 11)?;
    proof {
        assert(n.deep_view() =~= n@);
        lemma_longs_len(rest, 11);
    }
    let covers = read_covers(
        reader,
        to_unsigned(n[2]),
        to_unsigned(n[3]),
        to_unsigned(n[4]),
    )?;
    let offset: u128 = reader.pos as u128 + len_of_part(n[3], n[4]) as u128 + len_of_part(
        n[5],
        n[6],
    ) as u128 + len_of_part(n[7], n[8]) as u128;
    if offset > u64::MAX as u128 {
        return Err(PatchError::Malformed);
    }
    let comp_mode = match CompressionMode::from_str(comp_name.as_str()) {
        Ok(mode) => mode,
        Err(_) => return Err(PatchError::UnknownCompression),
    };
    Ok(
        KrHd13 {
            covers,
            new_data_size: to_unsigned(n[0]),
            new_data_diff_offset: offset as u64,
            new_data_diff_size: to_unsigned(n[9]),
            new_data_diff_comp_size: to_unsigned(n[10]),
            comp_mode,
        },
    )
}

} // verus!
