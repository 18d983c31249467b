use hdiffpatch::error::PatchError;
use hdiffpatch::hdiff::HdiffPatch;
use hdiffpatch::parser::ByteStream;
use hdiffpatch::patch_core::PatchCoreImpl;
use hdiffpatch::patch_dir::{DirOutput, PatchDir};
use hdiffpatch::similar_files::FileAction;
use hdiffpatch::structs::{DirectoryReferencePair, PairIndexReference};

fn number(v: u64) -> Vec<u8> {
    let mut digits = vec![(v % 128) as u8];
    let mut rest = v / 128;
    while rest > 0 {
        digits.push((rest % 128) as u8 + 128);
        rest /= 128;
    }
    digits.reverse();
    digits
}

fn numbers(list: &[u64]) -> Vec<u8> {
    list.iter().flat_map(|n| number(*n)).collect()
}

/// The inner patch: the new data is "AB", then the last four bytes of the old
/// data, then the first two of them raised by one, then "!".
fn inner_patch(old_size: u64, new_size: u64) -> Vec<u8> {
    let covers = [number(4), number(2), number(4), vec![0x80 + 8], number(0), number(2)].concat();
    let gaps = b"AB!";
    // Six zeros, two ones, one zero.
    let ctrl = [5u8, 0x80 + 1, 0];
    let code = [1u8];
    let mut out = b"HDIFF13&\0".to_vec();
    out.extend(numbers(&[
        new_size,
        old_size,
        2,
        covers.len() as u64,
        0,
        ctrl.len() as u64,
        0,
        code.len() as u64,
        0,
        gaps.len() as u64,
        0,
    ]));
    out.extend(covers);
    out.extend(ctrl);
    out.extend(code);
    out.extend(gaps);
    out
}

/// The lists of the patch: old files "a" and "s/b", of which both are old data;
/// new paths "", "n/", "x", "y", "z", of which "x" and "y" are made by the patch
/// with five and four bytes, and "z" is a copy of "a".
fn head() -> Vec<u8> {
    let mut out = b"\0a\0s/b\0".to_vec();
    out.extend_from_slice(b"\0n/\0x\0y\0z\0");
    out.extend(numbers(&[1, 0]));
    out.extend(numbers(&[2, 0]));
    out.extend(numbers(&[5, 4]));
    out.extend(numbers(&[4, 1]));
    out.extend(numbers(&[2]));
    out
}

fn dir_patch(compress: bool, inner: &[u8]) -> Vec<u8> {
    let head = head();
    let (stored, comp_size) = if compress {
        let bytes = zstd::bulk::compress(&head, 3).unwrap();
        let len = bytes.len() as u64;
        (bytes, len)
    } else {
        (head.clone(), 0)
    };
    let mut out = b"HDIFF19&zstd&\0\x01\x01".to_vec();
    out.extend(numbers(&[3, 7, 5, 10, 2, 8, 2, 9, 1, 4, 1, 0, 0, 0]));
    out.extend(numbers(&[head.len() as u64, comp_size, 0]));
    out.extend(stored);
    out.extend_from_slice(inner);
    out
}

fn open(patch: &[u8]) -> PatchDir {
    let opened = HdiffPatch::open(patch, "d.hdiff").unwrap();
    assert!(opened.patches_dir);
    PatchDir::new(opened.header_info, opened.reference_info, "d.hdiff")
}

/// What a directory patch leaves behind, and how it ends.
fn run(
    patcher: &mut PatchDir,
    patch: &[u8],
    dir: DirectoryReferencePair,
    files: Vec<Vec<u8>>,
) -> (Result<(), PatchError>, DirOutput) {
    let mut made = DirOutput {
        actions: vec![FileAction::CreateDir { dir_index: 9 }],
        files: vec![vec![1]],
        reports: vec![1],
    };
    let r = patcher.patch(patch, dir, files, "old", "new", &mut made);
    (r, made)
}

fn old_files() -> Vec<Vec<u8>> {
    vec![b"abcd".to_vec(), b"efgh".to_vec()]
}

#[test]
fn the_lists_of_a_directory_patch() {
    for compress in [false, true] {
        let patch = dir_patch(compress, &inner_patch(8, 9));
        let dir = open(&patch).read_head(&patch).unwrap();
        assert_eq!(dir.old_utf8_path_list, vec!["", "a", "s/b"]);
        assert_eq!(dir.new_utf8_path_list, vec!["", "n/", "x", "y", "z"]);
        assert_eq!(dir.old_ref_list, vec![1, 2]);
        assert_eq!(dir.new_ref_list, vec![2, 3]);
        assert_eq!(dir.new_ref_size_list, vec![5, 4]);
        assert_eq!(
            dir.data_same_pair_list,
            vec![PairIndexReference { new_index: 4, old_index: 1 }]
        );
        assert_eq!(dir.new_execute_list, vec![2]);
        assert_eq!(PatchDir::get_ref_old_streams(&dir), Ok(vec!["a".into(), "s/b".into()]));
        let new_files = PatchDir::get_ref_new_streams(&dir).ok().unwrap();
        let listed: Vec<(&str, u64)> =
            new_files.iter().map(|f| (f.path.as_str(), f.size)).collect();
        assert_eq!(listed, vec![("x", 5), ("y", 4)]);
    }
}

#[test]
fn a_directory_is_patched() {
    for compress in [false, true] {
        let patch = dir_patch(compress, &inner_patch(8, 9));
        let mut patcher = open(&patch);
        let dir = patcher.read_head(&patch).unwrap();
        let (r, made) = run(&mut patcher, &patch, dir, old_files());
        assert_eq!(r, Ok(()));
        assert_eq!(made.files, vec![b"ABefg".to_vec(), b"hbc!".to_vec()]);
        assert_eq!(made.reports, vec![8, 1]);
        assert_eq!(
            made.actions,
            vec![
                FileAction::Copy { old_index: 1, new_index: 4 },
                FileAction::CreateDir { dir_index: 1 },
                FileAction::CreateFile { file_index: 2 },
                FileAction::CreateFile { file_index: 3 },
            ]
        );
        assert_eq!(patcher.header_info.new_data_size, 9);
        assert_eq!(patcher.header_info.patch_path, "");
        assert_eq!(patcher.patch_path, "d.hdiff");
    }
}

#[test]
fn files_that_the_data_does_not_fill() {
    // Without the last byte the second file ends in a zero.
    let patch = dir_patch(false, &inner_patch(8, 8));
    let mut patcher = open(&patch);
    let dir = patcher.read_head(&patch).unwrap();
    let (r, made) = run(&mut patcher, &patch, dir, old_files());
    assert_eq!(r, Ok(()));
    assert_eq!(made.files, vec![b"ABefg".to_vec(), b"hbc\0".to_vec()]);
}

fn error_with(inner: &[u8], files: Vec<Vec<u8>>) -> Option<PatchError> {
    let patch = dir_patch(false, inner);
    let mut patcher = open(&patch);
    let dir = patcher.read_head(&patch).unwrap();
    run(&mut patcher, &patch, dir, files).0.err()
}

#[test]
fn what_a_refused_directory_patch_leaves() {
    let blank = vec![vec![0u8; 5], vec![0u8; 4]];
    // Refused before the new files have their sizes: the header is the outer one, or what
    // was read of the inner one.
    let single = [b"HDIFFSF20&zstd\0".to_vec(), numbers(&[9, 8, 0, 64, 0, 0])].concat();
    let patch = dir_patch(false, &single);
    let mut patcher = open(&patch);
    let dir = patcher.read_head(&patch).unwrap();
    let (r, made) = run(&mut patcher, &patch, dir, old_files());
    assert_eq!(r, Err(PatchError::SingleCompressedDir));
    assert!(made.files.is_empty() && made.actions.is_empty() && made.reports.is_empty());
    assert_eq!(patcher.header_info.step_mem_size, 64);
    assert!(patcher.header_info.is_input_dir);

    let inner = [b"HDIFF13\0".to_vec(), numbers(&[0; 11])].concat();
    let patch = dir_patch(false, &inner);
    let mut patcher = open(&patch);
    let dir = patcher.read_head(&patch).unwrap();
    let (r, made) = run(&mut patcher, &patch, dir, old_files());
    assert_eq!(r, Err(PatchError::IncompleteHeader { parts: 1 }));
    assert!(made.files.is_empty());
    assert!(!patcher.header_info.is_input_dir);

    // Refused on the old files.
    let patch = dir_patch(false, &inner_patch(8, 9));
    let mut patcher = open(&patch);
    let dir = patcher.read_head(&patch).unwrap();
    let (r, made) = run(&mut patcher, &patch, dir, vec![vec![1]]);
    assert_eq!(r, Err(PatchError::OldSizeMismatch { expected: 8, got: 1 }));
    assert_eq!(made.files, blank);
    assert_eq!(patcher.header_info.old_data_size, 8);
}

#[test]
fn the_parts_are_opened_before_the_pairs_are_walked() {
    // A part that cannot be decompressed, and a pair that points outside.
    let mut inner = b"HDIFF13&lzma\0".to_vec();
    inner.extend(numbers(&[9, 8, 0, 4, 4, 0, 0, 0, 0, 0, 0]));
    let patch = dir_patch(false, &inner);
    let mut patcher = open(&patch);
    let mut dir = patcher.read_head(&patch).unwrap();
    dir.data_same_pair_list = vec![PairIndexReference { new_index: 99, old_index: 0 }];
    let (r, made) = run(&mut patcher, &patch, dir, old_files());
    assert_eq!(r, Err(PatchError::UnsupportedCompression));
    assert_eq!(made.files, vec![vec![0u8; 5], vec![0u8; 4]]);
    assert!(made.actions.is_empty());
    // With parts that can be opened, the pair is the reason.
    let patch = dir_patch(false, &inner_patch(8, 9));
    let mut patcher = open(&patch);
    let mut dir = patcher.read_head(&patch).unwrap();
    dir.data_same_pair_list = vec![PairIndexReference { new_index: 99, old_index: 0 }];
    let (r, made) = run(&mut patcher, &patch, dir, old_files());
    assert_eq!(r, Err(PatchError::Malformed));
    assert_eq!(made.files, vec![vec![0u8; 5], vec![0u8; 4]]);
}

#[test]
fn new_data_that_the_files_do_not_hold() {
    let patch = dir_patch(false, &inner_patch(8, 9));
    let mut patcher = open(&patch);
    let mut dir = patcher.read_head(&patch).unwrap();
    dir.new_ref_size_list = vec![5, 2];
    let (r, made) = run(&mut patcher, &patch, dir, old_files());
    assert_eq!(r, Err(PatchError::Malformed));
    assert_eq!(made.files, vec![b"ABefg".to_vec(), b"hb".to_vec()]);
}

#[test]
fn directory_patches_that_are_refused() {
    assert_eq!(error_with(&inner_patch(8, 9), vec![]), Some(PatchError::NoStreams));
    assert_eq!(
        error_with(&inner_patch(8, 9), vec![b"abc".to_vec()]),
        Some(PatchError::OldSizeMismatch { expected: 8, got: 3 })
    );
    let mut cut = inner_patch(8, 9);
    cut.truncate(cut.len() - 1);
    assert_eq!(error_with(&cut, old_files()), Some(PatchError::Malformed));
    let single = [b"HDIFFSF20&\0".to_vec(), numbers(&[9, 8, 0, 0, 0, 0])].concat();
    assert_eq!(error_with(&single, old_files()), Some(PatchError::SingleCompressedDir));
}

#[test]
fn an_inner_patch_without_a_mode_has_no_header_of_its_own() {
    // The outer header takes it, and reading it again does not.
    let inner = [b"HDIFF13\0".to_vec(), numbers(&[0; 11])].concat();
    assert_eq!(
        error_with(&inner, old_files()),
        Some(PatchError::IncompleteHeader { parts: 1 })
    );
}

#[test]
fn a_faulty_head() {
    let patch = dir_patch(true, &inner_patch(8, 9));
    let opened = HdiffPatch::open(&patch, "").unwrap();
    let mut info = opened.reference_info;
    info.head_data_compressed_size -= 1;
    let patcher = PatchDir::new(opened.header_info, info, "");
    assert_eq!(patcher.read_head(&patch).err(), Some(PatchError::Decoder));
}

#[test]
fn lists_that_point_outside() {
    let patch = dir_patch(false, &inner_patch(8, 9));
    let patcher = open(&patch);
    let mut info = patcher.reference_info;
    info.output_dir_count = 2;
    let narrow = PatchDir::new(patcher.header_info, info, "");
    assert_eq!(
        narrow.init_dir_patcher(&mut ByteStream::new(&head())).err(),
        Some(PatchError::InvalidIndex { at: 1, max: 2 })
    );
}

fn lists() -> DirectoryReferencePair {
    DirectoryReferencePair {
        old_utf8_path_list: vec!["o".into()],
        new_utf8_path_list: vec!["d/".into(), "f".into(), "".into()],
        old_ref_list: vec![],
        new_ref_list: vec![],
        new_ref_size_list: vec![],
        data_same_pair_list: vec![],
        new_execute_list: vec![],
    }
}

#[test]
fn files_beside_those_that_are_made() {
    let mut dir = lists();
    assert_eq!(
        PatchCoreImpl::copy_old_similar_to_new_files(&dir),
        Ok(vec![FileAction::CreateDir { dir_index: 0 }, FileAction::CreateFile { file_index: 1 }])
    );
    // A pair for a directory asks for no copy, but the directory is passed over.
    dir.data_same_pair_list = vec![PairIndexReference { new_index: 0, old_index: 9 }];
    assert_eq!(
        PatchCoreImpl::copy_old_similar_to_new_files(&dir),
        Ok(vec![FileAction::CreateFile { file_index: 1 }])
    );
    dir.data_same_pair_list = vec![PairIndexReference { new_index: 1, old_index: 1 }];
    assert_eq!(
        PatchCoreImpl::copy_old_similar_to_new_files(&dir),
        Err(PatchError::Malformed)
    );
    dir.data_same_pair_list = vec![PairIndexReference { new_index: 3, old_index: 0 }];
    assert_eq!(
        PatchCoreImpl::copy_old_similar_to_new_files(&dir),
        Err(PatchError::Malformed)
    );
}

#[test]
fn a_patch_of_one_file_has_no_files_beside() {
    let core = PatchCoreImpl::new(0, String::new(), String::new());
    assert_eq!(core.run_copy_similar_files_routine(), Ok(vec![]));
}

#[test]
fn references_outside_the_paths() {
    let mut dir = lists();
    dir.old_ref_list = vec![1];
    assert_eq!(PatchDir::get_ref_old_streams(&dir), Err(PatchError::Malformed));
    dir.new_ref_list = vec![1];
    assert_eq!(PatchDir::get_ref_new_streams(&dir).err(), Some(PatchError::Malformed));
}
