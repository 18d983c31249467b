use hdiffpatch::error::PatchError;
use hdiffpatch::hdiff::HdiffPatch;
use hdiffpatch::parser::ByteStream;
use hdiffpatch::patch_core::{Clips, PatchCoreImpl};
use hdiffpatch::patch_sf::{copy_n, decode_cover, PatchSF, SfCover};
use hdiffpatch::patch_single::PatchSingle;
use hdiffpatch::rle0::{rle_varint, Rle0Decoder};
use hdiffpatch::structs::{CompressionMode, CoverHeader, DiffChunkInfo, HeaderInfo, RleRefClip};

/// A number behind a tag of `bits` bits.
fn tagged(tag: u8, bits: u32, v: u64) -> Vec<u8> {
    let first_span = 1u64 << (7 - bits);
    let mut digits = Vec::new();
    let mut rest = v;
    while rest >= first_span {
        let more = if digits.is_empty() { 0 } else { 128 };
        digits.push((rest % 128) as u8 + more);
        rest /= 128;
    }
    let more = if digits.is_empty() { 0 } else { first_span };
    let tag_part = if bits == 0 { 0 } else { (tag as u64) << (8 - bits) };
    digits.push((tag_part + more + rest) as u8);
    digits.reverse();
    digits
}

fn number(v: u64) -> Vec<u8> {
    tagged(0, 0, v)
}

/// A cover: its place in the old data, its place in the new and its length.
type Cover = (u64, u64, u64);

/// The covers as a patch holds them.
fn cover_bytes(covers: &[Cover]) -> Vec<u8> {
    let mut out = Vec::new();
    let (mut old_end, mut new_end) = (0u64, 0u64);
    for &(old_pos, new_pos, length) in covers {
        if old_pos >= old_end {
            out.extend(tagged(0, 1, old_pos - old_end));
        } else {
            out.extend(tagged(1, 1, old_end - old_pos));
        }
        out.extend(number(new_pos - new_end));
        out.extend(number(length));
        old_end = old_pos + length;
        new_end = new_pos + length;
    }
    out
}

/// The bytes of the gaps, and what the new data differs by from old data and
/// gaps.
fn gaps_and_differences(old: &[u8], new: &[u8], covers: &[Cover]) -> (Vec<u8>, Vec<u8>) {
    let mut gaps = Vec::new();
    let mut differences = vec![0u8; new.len()];
    let mut end = 0usize;
    for &(old_pos, new_pos, length) in covers {
        gaps.extend_from_slice(&new[end..new_pos as usize]);
        for i in 0..length as usize {
            let at = new_pos as usize + i;
            differences[at] = new[at].wrapping_sub(old[old_pos as usize + i]);
        }
        end = (new_pos + length) as usize;
    }
    gaps.extend_from_slice(&new[end..]);
    (gaps, differences)
}

/// The differences as runs: the control and the code stream.
fn runs(differences: &[u8]) -> (Vec<u8>, Vec<u8>) {
    let (mut ctrl, mut code) = (Vec::new(), Vec::new());
    let mut i = 0;
    while i < differences.len() {
        let value = differences[i];
        let mut n = 1;
        while i + n < differences.len() && differences[i + n] == value {
            n += 1;
        }
        if value == 0 {
            ctrl.extend(tagged(0, 2, n as u64 - 1));
        } else if value == 255 {
            ctrl.extend(tagged(1, 2, n as u64 - 1));
        } else if n > 1 {
            ctrl.extend(tagged(2, 2, n as u64 - 1));
            code.push(value);
        } else {
            ctrl.extend(tagged(3, 2, 0));
            code.push(value);
        }
        i += n;
    }
    (ctrl, code)
}

/// A part as it stands in a patch, and its compressed size.
fn stored(part: &[u8], compress: bool) -> (Vec<u8>, u64) {
    if compress {
        let bytes = zstd::bulk::compress(part, 3).unwrap();
        let len = bytes.len() as u64;
        (bytes, len)
    } else {
        (part.to_vec(), 0)
    }
}

fn hdiff13(old: &[u8], new: &[u8], covers: &[Cover], mode: &str, compress: bool) -> Vec<u8> {
    let cover_buf = cover_bytes(covers);
    let (gaps, differences) = gaps_and_differences(old, new, covers);
    let (ctrl, code) = runs(&differences);
    let mut patch = format!("HDIFF13&{}\0", mode).into_bytes();
    patch.extend(number(new.len() as u64));
    patch.extend(number(old.len() as u64));
    patch.extend(number(covers.len() as u64));
    let mut parts = Vec::new();
    for part in [&cover_buf, &ctrl, &code, &gaps] {
        let (bytes, comp_size) = stored(part, compress);
        patch.extend(number(part.len() as u64));
        patch.extend(number(comp_size));
        parts.extend(bytes);
    }
    patch.extend(parts);
    patch
}

fn rle0(differences: &[u8]) -> Vec<u8> {
    let mut out = Vec::new();
    let mut i = 0;
    while i < differences.len() {
        let zeros = differences[i..].iter().take_while(|b| **b == 0).count();
        i += zeros;
        let values = differences[i..].iter().take_while(|b| **b != 0).count();
        out.extend(number(zeros as u64));
        out.extend(number(values as u64));
        out.extend_from_slice(&differences[i..i + values]);
        i += values;
    }
    out
}

/// A single-compressed patch with `per_step` covers in each step. The last cover
/// must end with the new data.
fn hdiffsf20(
    old: &[u8],
    new: &[u8],
    covers: &[Cover],
    per_step: usize,
    mode: &str,
    compress: bool,
) -> Vec<u8> {
    let all = cover_bytes(covers);
    let mut diff = Vec::new();
    let mut done = 0usize;
    let mut new_end = 0u64;
    for step in covers.chunks(per_step) {
        let from = cover_bytes(&covers[..done]).len();
        let to = cover_bytes(&covers[..done + step.len()]).len();
        let (_, differences) = gaps_and_differences(old, new, covers);
        let mut covered = Vec::new();
        let mut gaps = Vec::new();
        for &(_, new_pos, length) in step {
            gaps.extend_from_slice(&new[new_end as usize..new_pos as usize]);
            new_end = new_pos + length;
            covered.extend_from_slice(&differences[new_pos as usize..new_end as usize]);
        }
        let rle = rle0(&covered);
        diff.extend(number((to - from) as u64));
        diff.extend(number(rle.len() as u64));
        diff.extend_from_slice(&all[from..to]);
        diff.extend(rle);
        diff.extend(gaps);
        done += step.len();
    }
    let mut patch = format!("HDIFFSF20&{}\0", mode).into_bytes();
    let (bytes, comp_size) = stored(&diff, compress);
    for n in [
        new.len() as u64,
        old.len() as u64,
        covers.len() as u64,
        256,
        diff.len() as u64,
        comp_size,
    ] {
        patch.extend(number(n));
    }
    patch.extend(bytes);
    patch
}

fn apply(patch: &[u8], old: &[u8]) -> Result<Vec<u8>, PatchError> {
    let mut out = Vec::new();
    HdiffPatch::open(patch, "patch.hdiff")?.patch_file(patch, old, &mut out)?;
    Ok(out)
}

const OLD: &[u8] = b"the quick brown fox jumps over the lazy dog, and then some more of it";
const NEW: &[u8] = b"The quick brown cat!! jumps over the lazy dog, and then no more of that";

/// Three covers, with a gap before the second and one before the third.
fn covers() -> Vec<Cover> {
    vec![(0, 0, 19), (19, 21, 35), (59, 57, 9)]
}

#[test]
fn plain_patches() {
    let patch = hdiff13(OLD, NEW, &covers(), "", false);
    assert_eq!(apply(&patch, OLD), Ok(NEW.to_vec()));
}

#[test]
fn compressed_patches() {
    let patch = hdiff13(OLD, NEW, &covers(), "zstd", true);
    assert_eq!(apply(&patch, OLD), Ok(NEW.to_vec()));
}

#[test]
fn patches_that_go_back_in_the_old_data() {
    let old: Vec<u8> = (0..200u8).collect();
    let mut new = old[100..200].to_vec();
    new.extend_from_slice(&old[0..100]);
    let patch = hdiff13(&old, &new, &[(100, 0, 100), (0, 100, 100)], "nocomp", false);
    assert_eq!(apply(&patch, &old), Ok(new));
}

#[test]
fn patches_without_covers() {
    let patch = hdiff13(b"", b"all new", &[], "", false);
    assert_eq!(apply(&patch, b""), Ok(b"all new".to_vec()));
    let patch = hdiff13(b"old", b"", &[], "", false);
    assert_eq!(apply(&patch, b"old"), Ok(vec![]));
}

#[test]
fn differences_of_every_kind() {
    let old = [10u8; 40];
    let mut new = [10u8; 40];
    for b in new[5..15].iter_mut() {
        *b = 9;
    }
    for b in new[20..30].iter_mut() {
        *b = 77;
    }
    new[35] = 1;
    new[36] = 200;
    let patch = hdiff13(&old, &new, &[(0, 0, 40)], "", false);
    assert_eq!(apply(&patch, &old), Ok(new.to_vec()));
}

#[test]
fn old_data_of_another_size() {
    let patch = hdiff13(OLD, NEW, &covers(), "", false);
    assert_eq!(
        apply(&patch, &OLD[1..]),
        Err(PatchError::OldSizeMismatch { expected: OLD.len() as i64, got: OLD.len() as i64 - 1 })
    );
}

#[test]
fn a_patch_that_is_cut_off() {
    let patch = hdiff13(OLD, NEW, &covers(), "", false);
    assert_eq!(apply(&patch[..patch.len() - 1], OLD), Err(PatchError::Malformed));
}

#[test]
fn compressed_data_that_is_faulty() {
    let mut patch = hdiff13(OLD, NEW, &covers(), "zstd", true);
    let last = patch.len() - 1;
    patch.truncate(last);
    assert_eq!(apply(&patch, OLD), Err(PatchError::Decoder));
}

#[test]
fn ways_to_compress_that_are_not_known_here() {
    let patch = hdiff13(OLD, NEW, &covers(), "lzma", true);
    assert_eq!(apply(&patch, OLD), Err(PatchError::UnsupportedCompression));
    // Parts that are not compressed are read whatever the mode is.
    let patch = hdiff13(OLD, NEW, &covers(), "lzma", false);
    assert_eq!(apply(&patch, OLD), Ok(NEW.to_vec()));
    let patch = hdiff13(OLD, NEW, &covers(), "zlib", false);
    assert_eq!(apply(&patch, OLD), Ok(NEW.to_vec()));
}

#[test]
fn what_is_passed_on_adds_up() {
    let patch = hdiff13(OLD, NEW, &covers(), "", false);
    let opened = HdiffPatch::open(&patch, "p").unwrap();
    assert_eq!(opened.header_info.patch_path, "p");
    let single = PatchSingle::new(opened.header_info);
    let mut out = vec![7u8];
    let reports = single.patch(&mut ByteStream::new(OLD), &mut out, &patch).unwrap();
    // Up to the last cover, and then the rest.
    assert_eq!(reports, vec![66, NEW.len() as i64 - 66]);
    assert_eq!(&out[1..], NEW);
    assert_eq!(out[0], 7);
}

#[test]
fn more_than_the_limit_is_passed_on_at_once() {
    // Two covers of more than the limit each: one report for each.
    let size = 0xa0_0001u64;
    let old = vec![3u8; size as usize];
    let new = vec![3u8; 2 * size as usize];
    let covers = [(0, 0, size), (0, size, size)];
    let patch = hdiff13(&old, &new, &covers, "", false);
    let opened = HdiffPatch::open(&patch, "").unwrap();
    let mut out = Vec::new();
    let reports = PatchSingle::new(opened.header_info)
        .patch(&mut ByteStream::new(&old), &mut out, &patch)
        .unwrap();
    assert_eq!(reports, vec![size as i64, size as i64]);
    assert!(out == new);
}

#[test]
fn the_core_on_streams_at_hand() {
    let cover = cover_bytes(&[(1, 2, 3)]);
    let (rle_ctrl, rle_code) = runs(&[0, 0, 1, 0, 0, 0]);
    let mut clips = Clips {
        cover: ByteStream::new(&cover),
        rle_ctrl: ByteStream::new(&rle_ctrl),
        rle_code: ByteStream::new(&rle_code),
        new_data_diff: ByteStream::new(&[50, 51, 52]),
    };
    let mut header = HeaderInfo::default();
    header.chunk_info.cover_count = 1;
    header.chunk_info.cover_buf_size = cover.len() as i64;
    header.new_data_size = 6;
    let mut core = PatchCoreImpl::new(6, "in".to_string(), "out".to_string());
    let mut out = Vec::new();
    let old = [10u8, 20, 30, 40];
    core.uncover_buffer_clips_stream(&mut clips, &mut ByteStream::new(&old), &mut out, &header)
        .unwrap();
    assert_eq!(out, vec![50, 51, 21, 30, 40, 52]);
    assert_eq!(core.written, vec![5, 1]);
    assert_eq!(core.path_input, "in");
    core.set_size_to_be_patched(9, 4);
    assert_eq!((core.size_to_be_patched, core.size_patched), (9, 4));
}

#[test]
fn covers_one_by_one() {
    let bytes = cover_bytes(&[(5, 1, 4), (2, 10, 3)]);
    let want = vec![
        CoverHeader { old_pos: 5, new_pos: 1, cover_length: 4, next_cover_index: 1 },
        CoverHeader { old_pos: 2, new_pos: 10, cover_length: 3, next_cover_index: 0 },
    ];
    let size = bytes.len() as i64;
    assert_eq!(
        PatchCoreImpl::enumerate_cover_headers(&mut ByteStream::new(&bytes), size, 2),
        want
    );
    // A large stream of covers is read as it goes on.
    assert_eq!(
        PatchCoreImpl::enumerate_cover_headers(&mut ByteStream::new(&bytes), 7 << 20, 2),
        want
    );
}

#[test]
fn a_run_of_one_value_goes_on_in_the_next_bytes() {
    let mut rle = RleRefClip { mem_copy_length: 0, mem_set_length: 5, mem_set_value: 2 };
    let mut cache = vec![1u8, 1, 1, 1];
    let mut pos = 1usize;
    let mut left = 2i64;
    PatchCoreImpl::tbytes_set_rle_single(&mut rle, &mut cache, &mut pos, &mut left);
    assert_eq!(cache, vec![1, 3, 3, 1]);
    assert_eq!((pos, left, rle.mem_set_length), (3, 0, 3));
}

#[test]
fn differences_in_one_go_or_in_two() {
    let (ctrl, code) = runs(&[0, 5, 5, 5, 255, 255, 9, 0]);
    for split in 0..=8usize {
        let mut rle = RleRefClip::default();
        let mut ctrl_stream = ByteStream::new(&ctrl);
        let mut code_stream = ByteStream::new(&code);
        let mut cache = vec![1u8; 8];
        let mut shared = Vec::new();
        for (pos, len) in [(0, split as i64), (split, 8 - split as i64)] {
            PatchCoreImpl::tbytes_determine_rle_type(
                &mut rle,
                &mut cache,
                pos,
                len,
                &mut shared,
                &mut ctrl_stream,
                &mut code_stream,
            )
            .unwrap();
        }
        assert_eq!(cache, vec![1, 6, 6, 6, 0, 0, 10, 1]);
    }
}

#[test]
fn paths_of_directories() {
    assert!(PatchCoreImpl::is_path_a_dir(""));
    assert!(PatchCoreImpl::is_path_a_dir("a/"));
    assert!(!PatchCoreImpl::is_path_a_dir("a/b"));
}

#[test]
fn single_compressed_patches() {
    let mut covers = covers();
    covers.push((0, NEW.len() as u64, 0));
    for per_step in 1..=4 {
        for compress in [false, true] {
            let patch = hdiffsf20(OLD, NEW, &covers, per_step, "zstd", compress);
            assert_eq!(apply(&patch, OLD), Ok(NEW.to_vec()));
        }
    }
}

#[test]
fn a_single_compressed_patch_ends_with_its_last_cover() {
    // What stands behind the last cover is not copied.
    let patch = hdiffsf20(OLD, NEW, &covers(), 2, "", false);
    assert_eq!(apply(&patch, OLD), Ok(NEW[..66].to_vec()));
}

#[test]
fn faults_of_single_compressed_patches() {
    let patch = hdiffsf20(OLD, NEW, &covers(), 4, "", false);
    // The patch ends in its first gap.
    assert_eq!(apply(&patch[..patch.len() - 2], OLD), Err(PatchError::UnexpectedEof));
    let mut sf = HeaderInfo::default();
    sf.chunk_info.cover_count = 1;
    sf.single_chunk_info.uncompressed_size = 100;
    let run = |diff: &[u8]| {
        PatchSF::new(clone_of(&sf)).patch(&mut ByteStream::new(b"abc"), &mut Vec::new(), diff)
    };
    // A cover at 1, of length 2, with no differences at all.
    assert_eq!(run(&[3, 0, 1, 0, 2]), Err(PatchError::Malformed));
    // The same with one run of two zeros.
    assert_eq!(run(&[3, 1, 1, 0, 2, 2]), Ok(()));
    // A cover behind the old data.
    assert_eq!(run(&[3, 1, 2, 0, 2, 2]), Err(PatchError::UnexpectedEof));
    // A cover whose place lies before the old data.
    assert_eq!(run(&[3, 1, 0x81, 0, 2, 2]), Err(PatchError::InvalidSeek));
    // A cover that is cut off.
    assert_eq!(run(&[2, 0, 1, 0]), Err(PatchError::UnexpectedEof));
    // Sizes whose sum leaves the range.
    let mut huge = number(u64::MAX);
    huge.extend(number(5));
    assert_eq!(run(&huge), Err(PatchError::Malformed));
}

fn clone_of(header: &HeaderInfo) -> HeaderInfo {
    header.clone()
}

#[test]
fn lengths_of_runs() {
    let mut pos = 0usize;
    let bytes = [0x05u8, 0x81, 0x00, 0x80];
    assert_eq!(rle_varint(&bytes, &mut pos), Some(5));
    assert_eq!(rle_varint(&bytes, &mut pos), Some(128));
    assert_eq!(pos, 3);
    assert_eq!(rle_varint(&bytes, &mut pos), None);
    // Bits that leave the range are lost.
    let long = [0xFFu8, 0xFF, 0xFF, 0xFF, 0xFF, 0xFF, 0xFF, 0xFF, 0xFF, 0x7F];
    let mut pos = 0usize;
    assert_eq!(rle_varint(&long, &mut pos), Some(u64::MAX));
}

#[test]
fn runs_of_zeros_and_of_bytes_in_turn() {
    let bytes = [2u8, 2, 10, 20, 0, 1, 30];
    for split in 0..=5usize {
        let mut decoder = Rle0Decoder::new(&bytes);
        let mut first = vec![1u8; split];
        let mut second = vec![1u8; 5 - split];
        assert_eq!(decoder.add(&mut first, 0), Ok(()));
        assert_eq!(decoder.add(&mut second, 0), Ok(()));
        first.extend(second);
        assert_eq!(first, vec![1, 1, 11, 21, 31]);
        let mut more = vec![0u8; 1];
        assert_eq!(decoder.add(&mut more, 0), Err(PatchError::Malformed));
    }
}

#[test]
fn a_header_without_parts_makes_nothing() {
    let header = HeaderInfo::default();
    assert_eq!(header.comp_mode, CompressionMode::Nocomp);
    assert_eq!(header.chunk_info, DiffChunkInfo::default());
    let mut out = Vec::new();
    let reports = PatchSingle::new(header).patch(&mut ByteStream::new(b""), &mut out, b"");
    assert_eq!(reports, Ok(vec![]));
    assert!(out.is_empty());
}

#[test]
fn a_single_compressed_patch_leaves_what_it_made() {
    // Pieces of four bytes: of a gap of six bytes, of which five are there, one piece
    // is written.
    let mut header = HeaderInfo::default();
    header.chunk_info.cover_count = 1;
    header.single_chunk_info.uncompressed_size = 100;
    header.step_mem_size = 4;
    let patcher = PatchSF::new(header);
    let mut out = vec![9u8];
    let gap_cut = [vec![3, 0, 0, 6, 0], b"abcde".to_vec()].concat();
    let r = patcher.patch(&mut ByteStream::new(b"0123456789"), &mut out, &gap_cut);
    assert_eq!(r, Err(PatchError::UnexpectedEof));
    assert_eq!(out, [vec![9], b"abcd".to_vec()].concat());
    // A gap of one byte, and a cover of eleven bytes, of which ten are there: two
    // pieces of it are written.
    let mut out = Vec::new();
    let cover_cut = [vec![3, 2, 0, 1, 11, 11, 0], b"x".to_vec()].concat();
    let r = patcher.patch(&mut ByteStream::new(b"0123456789"), &mut out, &cover_cut);
    assert_eq!(r, Err(PatchError::UnexpectedEof));
    assert_eq!(out, b"x01234567");
}

#[test]
fn copying_stops_behind_whole_pieces() {
    for len in 0..10u64 {
        let data = vec![1u8; len as usize];
        let mut out = vec![7u8];
        let r = copy_n(&mut ByteStream::new(&data), &mut out, 10, 3);
        assert_eq!(r, Err(PatchError::UnexpectedEof));
        assert_eq!(out.len() as u64, 1 + len / 3 * 3);
    }
    let mut out = Vec::new();
    let mut src = ByteStream::new(b"abcdefghijk");
    assert_eq!(copy_n(&mut src, &mut out, 10, 3), Ok(()));
    assert_eq!(out, b"abcdefghij");
    assert_eq!(src.pos, 10);
}

#[test]
fn a_cover_that_is_cut_off_moves_no_ends() {
    for len in 0..3usize {
        let bytes = [1u8, 2, 3];
        let (mut old_end, mut new_end) = (10u64, 20u64);
        let r = decode_cover(&mut ByteStream::new(&bytes[..len]), &mut old_end, &mut new_end);
        assert_eq!(r, Err(PatchError::UnexpectedEof));
        assert_eq!((old_end, new_end), (10, 20));
    }
    let (mut old_end, mut new_end) = (10u64, 20u64);
    let cover = decode_cover(&mut ByteStream::new(&[1, 2, 3]), &mut old_end, &mut new_end);
    assert_eq!(cover, Ok(SfCover { old_pos: 11, new_pos: 22, length: 3 }));
    assert_eq!((old_end, new_end), (14, 25));
}

#[test]
fn covers_leave_what_stands_behind_them() {
    let mut bytes = cover_bytes(&[(5, 1, 4)]);
    let len = bytes.len() as i64;
    bytes.extend_from_slice(&[7, 7, 7]);
    let mut src = ByteStream::new(&bytes);
    PatchCoreImpl::enumerate_cover_headers(&mut src, len + 1, 1);
    assert_eq!(src.pos as i64, len + 1);
    let mut src = ByteStream::new(&bytes);
    PatchCoreImpl::enumerate_cover_headers(&mut src, 7 << 20, 1);
    assert_eq!(src.pos as i64, len);
}

#[test]
fn a_short_run_in_a_short_cache() {
    let mut rle = RleRefClip { mem_copy_length: 0, mem_set_length: 2, mem_set_value: 5 };
    let mut cache = vec![1u8, 1, 1];
    let (mut pos, mut left) = (1usize, 100i64);
    PatchCoreImpl::tbytes_set_rle_single(&mut rle, &mut cache, &mut pos, &mut left);
    assert_eq!(cache, vec![1, 6, 6]);
    assert_eq!((pos, left, rle.mem_set_length), (3, 98, 0));
}

#[test]
fn the_padding_of_a_zlib_part_is_not_looked_at() {
    let mut one = hdiff13(OLD, NEW, &covers(), "zlib", true);
    let at = HdiffPatch::open(&one, "").unwrap().header_info.chunk_info.head_end_pos as usize;
    let mut out = vec![1u8];
    let first = HdiffPatch::open(&one, "").unwrap().patch_file(&one, OLD, &mut out);
    one[at] ^= 0xFF;
    let second = HdiffPatch::open(&one, "").unwrap().patch_file(&one, OLD, &mut out);
    assert_eq!(first, Err(PatchError::UnsupportedCompression));
    assert_eq!(first, second);
    assert_eq!(out, vec![1]);
}

#[test]
fn adding_in_pieces_leaves_an_equal_reader() {
    let bytes = [2u8, 2, 10, 20, 0, 1, 30];
    let mut at_once = Rle0Decoder::new(&bytes);
    let mut whole = vec![1u8; 4];
    at_once.add(&mut whole, 0).unwrap();
    let mut in_two = Rle0Decoder::new(&bytes);
    let (mut first, mut second) = (vec![1u8; 3], vec![1u8; 1]);
    in_two.add(&mut first, 0).unwrap();
    in_two.add(&mut second, 0).unwrap();
    assert_eq!([first, second].concat(), whole);
    assert_eq!(
        (in_two.buf, in_two.pos, in_two.len0, in_two.lenv, in_two.need_decode0),
        (at_once.buf, at_once.pos, at_once.len0, at_once.lenv, at_once.need_decode0)
    );
}

#[test]
fn the_size_of_the_pieces_does_not_show() {
    let mut covers = covers();
    covers.push((0, NEW.len() as u64, 0));
    let patch = hdiffsf20(OLD, NEW, &covers, 2, "", false);
    for piece in [1i64, 2, 3, 7, 64, 1 << 40] {
        let mut header = HdiffPatch::open(&patch, "").unwrap().header_info;
        header.step_mem_size = piece;
        let mut out = Vec::new();
        let r = PatchSF::new(header).patch(&mut ByteStream::new(OLD), &mut out, &patch);
        assert_eq!(r, Ok(()));
        assert_eq!(out, NEW);
    }
}
