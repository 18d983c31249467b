use hdiffpatch::combined::CombinedStream;
use hdiffpatch::error::PatchError;
use hdiffpatch::kr_format::{
    parse_covers_seq, split_paths_with_offsets, KrCover, KrFileEntry, KrHd13, KrHd19,
};
use hdiffpatch::parser::ByteStream;
use hdiffpatch::patch_krdir::{apply_covers, apply_patch, copy_n, KrOutput, KrPatchDir};
use hdiffpatch::structs::CompressionMode;

fn number(v: u64) -> Vec<u8> {
    let mut digits = vec![(v % 128) as u8];
    let mut rest = v / 128;
    while rest > 0 {
        digits.push((rest % 128) as u8 + 128);
        rest /= 128;
    }
    digits.reverse();
    digits
}

fn numbers(list: &[u64]) -> Vec<u8> {
    list.iter().flat_map(|n| number(*n)).collect()
}

/// A part as it stands in a patch, and its compressed size.
fn stored(part: &[u8], compress: bool) -> (Vec<u8>, u64) {
    if compress {
        let bytes = zstd::bulk::compress(part, 3).unwrap();
        let len = bytes.len() as u64;
        (bytes, len)
    } else {
        (part.to_vec(), 0)
    }
}

/// Old files "a" and "b" of three bytes each; new paths "d//", "x" and "y", of
/// which "x" has four bytes and "y" five.
fn head() -> Vec<u8> {
    let mut out = b"a\0b\0d//\0x\0y\0".to_vec();
    out.extend(numbers(&[0, 0]));
    out.extend(numbers(&[1, 0]));
    out.extend(numbers(&[3, 3]));
    out.extend(numbers(&[4, 5]));
    out.extend(numbers(&[77, 78]));
    out
}

/// New data "N", then the old bytes 4 and 5, then the old bytes 1 to 3, and then
/// "EW!".
fn covers() -> Vec<u8> {
    // The second cover starts five bytes before the end of the first.
    [number(4), number(1), number(2), vec![0x80 + 5], number(0), number(3)].concat()
}

struct Options<'a> {
    compress: bool,
    first: &'a [u8],
    second: &'a [u8],
    checksum: u64,
    private_extern: u64,
    new_bytes: &'a [u8],
}

fn plain() -> Options<'static> {
    Options {
        compress: false,
        first: b"HDIFF19&zstd&fadler64\0",
        second: b"HDIFF13&zstd\0",
        checksum: 0,
        private_extern: 0,
        new_bytes: b"NEW!",
    }
}

fn kr_patch(options: &Options) -> Vec<u8> {
    let head = head();
    let (head_bytes, head_comp) = stored(&head, options.compress);
    let mut out = options.first.to_vec();
    out.extend_from_slice(&[1, 1]);
    out.extend(numbers(&[2, 4, 3, 8, 2, 6, 2, 9, 0, 0, 0, 0, options.private_extern, 2]));
    out.extend(numbers(&[head.len() as u64, head_comp, options.checksum]));
    out.resize(out.len() + 4 * options.checksum as usize, 0xEE);
    out.extend(head_bytes);
    out.resize(out.len() + options.private_extern as usize + 2, 0xDD);
    let covers = covers();
    let (cover_bytes, cover_comp) = stored(&covers, options.compress);
    let (new_bytes, new_comp) = stored(options.new_bytes, options.compress);
    out.extend_from_slice(options.second);
    out.extend(numbers(&[9, 6, 2, covers.len() as u64, cover_comp]));
    // The differences are passed over.
    out.extend(numbers(&[3, 0, 9, 2]));
    out.extend(numbers(&[options.new_bytes.len() as u64, new_comp]));
    out.extend(cover_bytes);
    out.extend_from_slice(&[0xCC; 5]);
    out.extend(new_bytes);
    out
}

fn old_files() -> Vec<Vec<u8>> {
    vec![vec![10, 11, 12], vec![13, 14, 15]]
}

/// What a patch leaves behind, and how it ends.
fn run(
    patch: &[u8],
    hd19: &KrHd19,
    hd13: &KrHd13,
    old: Vec<Vec<u8>>,
) -> (Result<(), PatchError>, KrOutput) {
    let mut made = KrOutput { files: vec![vec![1]], reports: vec![1] };
    let r = KrPatchDir::new("").patch(patch, hd19, hd13, old, &mut made);
    (r, made)
}

fn error_of(options: &Options) -> Option<PatchError> {
    KrPatchDir::parse(&kr_patch(options)).err()
}

#[test]
fn a_directory_is_made_anew() {
    for compress in [false, true] {
        for (checksum, private_extern) in [(0, 0), (8, 3)] {
            let patch = kr_patch(&Options { compress, checksum, private_extern, ..plain() });
            let (hd19, hd13) = KrPatchDir::parse(&patch).ok().unwrap();
            assert_eq!(hd19.comp_mode, CompressionMode::Zstd);
            assert_eq!((hd19.old_ref_size, hd19.new_ref_size), (6, 9));
            let listed = |files: &Vec<KrFileEntry>| {
                files.iter().map(|f| (f.path.clone(), f.size)).collect::<Vec<_>>()
            };
            assert_eq!(listed(&hd19.head.old_files), vec![("a".into(), 3), ("b".into(), 3)]);
            assert_eq!(listed(&hd19.head.new_files), vec![("x".into(), 4), ("y".into(), 5)]);
            assert_eq!(hd19.head.new_directories, vec!["d//"]);
            assert_eq!(KrPatchDir::directories(&hd19), vec!["d"]);
            assert_eq!(hd13.new_data_size, 9);
            assert_eq!(KrPatchDir::new("k.krdiff").patch_path, "k.krdiff");
            let (r, made) = run(&patch, &hd19, &hd13, old_files());
            assert_eq!(r, Ok(()));
            assert_eq!(made.files, vec![vec![b'N', 14, 15, 11], vec![12, 13, b'E', b'W', b'!']]);
            assert_eq!(made.reports, vec![3, 6]);
        }
    }
}

#[test]
fn headers_that_are_not_those_of_a_krdiff() {
    assert_eq!(
        error_of(&Options { first: b"HDIFF13&zstd&\0", ..plain() }),
        Some(PatchError::ExpectedHdiff19)
    );
    assert_eq!(
        error_of(&Options { second: b"HDIFF19&zstd\0", ..plain() }),
        Some(PatchError::ExpectedHdiff13)
    );
    assert_eq!(
        error_of(&Options { first: b"HDIFF19&what&\0", ..plain() }),
        Some(PatchError::UnknownCompression)
    );
    assert_eq!(
        error_of(&Options { second: b"HDIFF13&what\0", ..plain() }),
        Some(PatchError::UnknownCompression)
    );
    assert_eq!(KrPatchDir::parse(b"HDIFF19&").err(), Some(PatchError::UnexpectedEof));
}

#[test]
fn a_krdiff_that_is_cut_off_or_faulty() {
    let patch = kr_patch(&plain());
    for len in 0..patch.len() - 9 {
        assert!(KrPatchDir::parse(&patch[..len]).is_err());
    }
    let (hd19, hd13) = KrPatchDir::parse(&patch).ok().unwrap();
    let (r, made) = run(&patch[..patch.len() - 1], &hd19, &hd13, old_files());
    assert_eq!(r, Err(PatchError::UnexpectedEof));
    // All up to the last piece of new bytes is there.
    assert_eq!(made.files, vec![vec![b'N', 14, 15, 11], vec![12, 13, 0, 0, 0]]);
    assert_eq!(made.reports, vec![3, 6]);
    let patch = kr_patch(&Options { compress: true, ..plain() });
    let (hd19, hd13) = KrPatchDir::parse(&patch).ok().unwrap();
    let (r, made) = run(&patch[..patch.len() - 1], &hd19, &hd13, old_files());
    assert_eq!(r, Err(PatchError::Decoder));
    assert_eq!((made.files[0].len(), made.files[1].len()), (4, 5));
}

#[test]
fn old_files_are_there_and_have_their_sizes() {
    let files = vec![
        KrFileEntry { path: "a".into(), size: 3 },
        KrFileEntry { path: "b".into(), size: 4 },
    ];
    let check = |actual: Vec<Option<u64>>| KrPatchDir::check_old_files(&files, &actual);
    assert_eq!(check(vec![Some(3), Some(4)]), Ok(()));
    assert_eq!(check(vec![Some(3), None]), Err(PatchError::OldFileNotFound { at: 1 }));
    assert_eq!(check(vec![Some(3)]), Err(PatchError::OldFileNotFound { at: 1 }));
    assert_eq!(
        check(vec![Some(2), None]),
        Err(PatchError::OldFileSizeMismatch { at: 0, recorded: 3, actual: 2 })
    );
}

#[test]
fn without_old_files_the_new_ones_are_blank() {
    let patch = kr_patch(&plain());
    let (mut hd19, hd13) = KrPatchDir::parse(&patch).ok().unwrap();
    let (r, made) = run(&patch, &hd19, &hd13, vec![]);
    assert_eq!(r, Err(PatchError::NoStreams));
    assert!(made.files.is_empty() && made.reports.is_empty());
    hd19.head.old_files.clear();
    let (r, made) = run(&patch, &hd19, &hd13, vec![]);
    assert_eq!(r, Ok(()));
    assert_eq!(made.files, vec![vec![0; 4], vec![0; 5]]);
    assert!(made.reports.is_empty());
    hd19.head.new_files.clear();
    let (r, made) = run(&patch, &hd19, &hd13, vec![]);
    assert_eq!(r, Ok(()));
    assert!(made.files.is_empty());
}

#[test]
fn files_and_directories_by_place() {
    let paths: Vec<String> = ["p", "q", "r", "s", "t"].iter().map(|p| p.to_string()).collect();
    let (files, dirs) = split_paths_with_offsets(&paths, &vec![1, 1], &vec![7]);
    let listed: Vec<(&str, u64)> = files.iter().map(|f| (f.path.as_str(), f.size)).collect();
    assert_eq!(listed, vec![("q", 7), ("s", 0)]);
    assert_eq!(dirs, vec!["p", "r", "t"]);
    let (files, dirs) = split_paths_with_offsets(&paths, &vec![], &vec![7]);
    assert!(files.is_empty());
    assert_eq!(dirs, paths);
    let (files, dirs) = split_paths_with_offsets(&paths, &vec![0, u64::MAX], &vec![]);
    assert_eq!(files.len(), 1);
    assert_eq!(dirs.len(), 4);
}

#[test]
fn covers_with_signs() {
    let bytes = covers();
    assert_eq!(
        parse_covers_seq(&mut ByteStream::new(&bytes), 2),
        Ok(vec![
            KrCover { old_pos_delta: 4, new_pos_gap: 1, length: 2 },
            KrCover { old_pos_delta: -5, new_pos_gap: 0, length: 3 },
        ])
    );
    assert_eq!(
        parse_covers_seq(&mut ByteStream::new(&bytes), 3),
        Err(PatchError::UnexpectedEof)
    );
}

/// What some covers leave behind, and how they end.
fn left_by(
    covers: Vec<KrCover>,
    old_ref_size: u64,
    capacity: u64,
) -> (Result<(), PatchError>, Vec<u8>, Vec<i64>) {
    let mut old = CombinedStream::new(old_files()).ok().unwrap();
    let mut new_data = ByteStream::new(b"abc");
    let (mut out, mut reports) = (vec![1u8], vec![1i64]);
    let r = apply_covers(
        &covers,
        old_ref_size,
        0,
        &mut old,
        &mut new_data,
        capacity,
        &mut out,
        &mut reports,
    );
    (r, out, reports)
}

fn made_of(covers: Vec<KrCover>, old_ref_size: u64, capacity: u64) -> Result<Vec<u8>, PatchError> {
    let (r, out, _) = left_by(covers, old_ref_size, capacity);
    r.map(|_| out)
}

fn cover(old_pos_delta: i64, new_pos_gap: u64, length: u64) -> KrCover {
    KrCover { old_pos_delta, new_pos_gap, length }
}

#[test]
fn places_wrap_round_the_old_data() {
    assert_eq!(made_of(vec![cover(8, 0, 1)], 6, 9), Ok(vec![12]));
    assert_eq!(made_of(vec![cover(-1, 0, 1)], 6, 9), Ok(vec![15]));
    assert_eq!(made_of(vec![cover(-13, 0, 1)], 6, 9), Ok(vec![15]));
    // The end itself is a place, from which nothing can be read.
    assert_eq!(made_of(vec![cover(6, 0, 1)], 6, 9), Err(PatchError::UnexpectedEof));
    assert_eq!(made_of(vec![cover(12, 0, 0)], 6, 9), Ok(vec![]));
    // Where the patch gives no size, places do not wrap.
    assert_eq!(made_of(vec![cover(8, 0, 1)], 0, 9), Err(PatchError::SeekBeyondEnd));
    assert_eq!(made_of(vec![cover(-1, 0, 1)], 0, 9), Err(PatchError::SeekBeyondEnd));
    assert_eq!(made_of(vec![cover(1, 0, 1)], u64::MAX, 9), Err(PatchError::Malformed));
}

#[test]
fn new_data_that_has_no_room() {
    assert_eq!(made_of(vec![cover(0, 2, 2)], 6, 4), Ok(vec![b'a', b'b', 10, 11]));
    assert_eq!(made_of(vec![cover(0, 2, 2)], 6, 3), Err(PatchError::WriteZero));
    assert_eq!(made_of(vec![cover(0, 2, 2)], 6, 1), Err(PatchError::WriteZero));
    assert_eq!(made_of(vec![cover(0, 4, 0)], 6, 1), Err(PatchError::UnexpectedEof));
}

#[test]
fn what_is_made_up_to_a_failure_stays() {
    // The first cover is whole, and of the second as much as there is room for.
    assert_eq!(
        left_by(vec![cover(0, 1, 1), cover(0, 1, 2)], 6, 4),
        (Err(PatchError::WriteZero), vec![b'a', 10, b'b', 11], vec![2])
    );
    // The second cover lies behind the old data.
    assert_eq!(
        left_by(vec![cover(0, 1, 1), cover(9, 1, 2)], 0, 9),
        (Err(PatchError::SeekBeyondEnd), vec![b'a', 10, b'b'], vec![2])
    );
    // The new bytes end.
    assert_eq!(
        left_by(vec![cover(0, 1, 1), cover(0, 5, 2)], 6, 9),
        (Err(PatchError::UnexpectedEof), vec![b'a', 10], vec![2])
    );
}

#[test]
fn copying_goes_piece_by_piece() {
    let data = vec![1u8; 100_000];
    let mut out = Vec::new();
    assert_eq!(copy_n(&mut ByteStream::new(&data), &mut out, 100_000, 100_000), Ok(()));
    assert_eq!(out.len(), 100_000);
    // The first piece has no room, before the second has no bytes.
    let mut out = Vec::new();
    assert_eq!(
        copy_n(&mut ByteStream::new(&data), &mut out, 200_000, 60_000),
        Err(PatchError::WriteZero)
    );
    assert_eq!(out.len(), 60_000);
    // The second piece has no bytes, before the third has no room.
    let mut out = Vec::new();
    assert_eq!(
        copy_n(&mut ByteStream::new(&data), &mut out, 200_000, 140_000),
        Err(PatchError::UnexpectedEof)
    );
    assert_eq!(out.len(), 65_536);
}

#[test]
fn new_bytes_that_cannot_be_opened() {
    let hd13 = |comp_mode, offset, comp_size| KrHd13 {
        covers: vec![],
        new_data_size: 0,
        new_data_diff_offset: offset,
        new_data_diff_size: 3,
        new_data_diff_comp_size: comp_size,
        comp_mode,
    };
    let run = |hd13: &KrHd13| {
        let mut old = CombinedStream::new(old_files()).ok().unwrap();
        let (mut out, mut reports) = (Vec::new(), Vec::new());
        apply_patch(hd13, 6, 2, &mut old, b"xyz", 9, &mut out, &mut reports)
            .map(|_| (out, reports))
    };
    assert_eq!(run(&hd13(CompressionMode::Lzma, 1, 0)), Ok((b"yz".to_vec(), vec![])));
    assert_eq!(
        run(&hd13(CompressionMode::Lzma, 1, 2)),
        Err(PatchError::UnsupportedCompression)
    );
    assert_eq!(run(&hd13(CompressionMode::Nocomp, 2, 0)), Err(PatchError::UnexpectedEof));
    assert_eq!(run(&hd13(CompressionMode::Nocomp, 1 << 63, 0)), Err(PatchError::InvalidSeek));
    assert_eq!(run(&hd13(CompressionMode::Nocomp, u64::MAX, 0)), Err(PatchError::Malformed));
    assert_eq!(run(&hd13(CompressionMode::Zstd, 0, 3)), Err(PatchError::Decoder));
}

#[test]
fn windows_of_the_largest_size_that_is_allowed() {
    // A frame of unknown size whose window is larger than decoders allow by
    // themselves.
    let mut encoder = zstd::stream::write::Encoder::new(Vec::new(), 1).unwrap();
    encoder.window_log(28).unwrap();
    std::io::Write::write_all(&mut encoder, b"new bytes").unwrap();
    let bytes = encoder.finish().unwrap();
    let mut one = [0u8; 1];
    let mut narrow = zstd::stream::read::Decoder::new(&bytes[..]).unwrap();
    assert!(std::io::Read::read(&mut narrow, &mut one).is_err());
    let hd13 = KrHd13 {
        covers: vec![],
        new_data_size: 9,
        new_data_diff_offset: 0,
        new_data_diff_size: 9,
        new_data_diff_comp_size: bytes.len() as u64,
        comp_mode: CompressionMode::Zstd,
    };
    let mut old = CombinedStream::new(old_files()).ok().unwrap();
    let (mut out, mut reports) = (Vec::new(), Vec::new());
    assert_eq!(
        apply_patch(&hd13, 6, 9, &mut old, &bytes, 9, &mut out, &mut reports),
        Ok(())
    );
    assert_eq!(out, b"new bytes");
}
