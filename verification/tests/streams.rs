use hdiffpatch::combined::{write_new_files, CombinedStream, NewFileCombinedStream};
use hdiffpatch::error::PatchError;
use hdiffpatch::parser::{read_exact, ByteSource, ByteStream};
use hdiffpatch::streams::{ChunkStream, SeekFrom, SeekableRead};

fn three_files() -> CombinedStream {
    CombinedStream::new(vec![vec![1, 2, 3], vec![], vec![4, 5]]).unwrap()
}

#[test]
fn a_chunk_is_a_stream_of_its_own() {
    let data = [0u8, 1, 2, 3, 4, 5];
    let mut chunk = ChunkStream::new(ByteStream::new(&data), 2, 5).unwrap();
    assert_eq!(read_exact(&mut chunk, 3), Ok(vec![2, 3, 4]));
    assert_eq!(chunk.next_byte(), Ok(None));
    assert_eq!(chunk.seek(SeekFrom::Start(1)), Ok(1));
    assert_eq!(chunk.next_byte(), Ok(Some(3)));
    assert_eq!(chunk.seek(SeekFrom::End(-1)), Ok(2));
    assert_eq!(chunk.next_byte(), Ok(Some(4)));
    assert_eq!(chunk.seek(SeekFrom::Current(-3)), Ok(0));
    assert_eq!(chunk.next_byte(), Ok(Some(2)));
}

#[test]
fn a_chunk_keeps_to_its_bounds() {
    let data = [0u8, 1, 2, 3, 4, 5];
    assert_eq!(
        ChunkStream::new(ByteStream::new(&data), 3, 2).err(),
        Some(PatchError::EndBeforeStart)
    );
    assert_eq!(
        ChunkStream::new(ByteStream::new(&data), u64::MAX, u64::MAX).err(),
        Some(PatchError::InvalidSeek)
    );
    let mut chunk = ChunkStream::new(ByteStream::new(&data), 2, 5).unwrap();
    assert_eq!(chunk.seek(SeekFrom::Current(-1)), Err(PatchError::SeekBeforeStart));
    assert_eq!(chunk.seek(SeekFrom::End(-4)), Err(PatchError::SeekBeforeStart));
    assert_eq!(chunk.seek(SeekFrom::Start(4)), Err(PatchError::SeekBeyondEnd));
    assert_eq!(chunk.seek(SeekFrom::Start(3)), Ok(3));
    // A chunk that reaches behind the data ends with it.
    let mut chunk = ChunkStream::new(ByteStream::new(&data), 4, 9).unwrap();
    assert_eq!(read_exact(&mut chunk, 2), Ok(vec![4, 5]));
    assert_eq!(chunk.next_byte(), Ok(None));
}

#[test]
fn files_are_read_as_one_stream() {
    let mut stream = three_files();
    assert_eq!(stream.length(), 5);
    let mut out = Vec::new();
    assert_eq!(stream.read(4, &mut out), 4);
    assert_eq!(out, vec![1, 2, 3, 4]);
    assert_eq!(stream.get_position(), 4);
    assert_eq!(stream.read(4, &mut out), 1);
    assert_eq!(out, vec![1, 2, 3, 4, 5]);
    assert_eq!(stream.read(4, &mut out), 0);
}

#[test]
fn files_are_read_from_any_place() {
    let mut stream = three_files();
    for start in 0..=5u64 {
        assert_eq!(stream.seek(SeekFrom::Start(start)), Ok(start));
        let mut out = Vec::new();
        let n = stream.read(10, &mut out);
        assert_eq!(n as u64, 5 - start);
        assert_eq!(out, [1u8, 2, 3, 4, 5][start as usize..].to_vec());
    }
    assert_eq!(stream.seek(SeekFrom::End(-2)), Ok(3));
    assert_eq!(stream.seek(SeekFrom::Current(-1)), Ok(2));
    assert_eq!(stream.seek(SeekFrom::Current(-3)), Err(PatchError::SeekBeforeStart));
    assert_eq!(stream.seek(SeekFrom::Start(6)), Err(PatchError::SeekBeyondEnd));
    assert_eq!(stream.get_position(), 2);
}

#[test]
fn what_is_written_is_read_back() {
    let mut stream = three_files();
    stream.seek(SeekFrom::Start(2)).unwrap();
    assert_eq!(stream.write(&[9, 8]), 2);
    stream.flush();
    assert_eq!(stream.streams, vec![vec![1, 2, 9], vec![], vec![8, 5]]);
    stream.seek(SeekFrom::Start(2)).unwrap();
    let mut out = Vec::new();
    stream.read(2, &mut out);
    assert_eq!(out, vec![9, 8]);
}

#[test]
fn no_file_grows() {
    let mut stream = three_files();
    stream.seek(SeekFrom::Start(4)).unwrap();
    assert_eq!(stream.write(&[7, 7, 7]), 1);
    assert_eq!(stream.streams, vec![vec![1, 2, 3], vec![], vec![4, 7]]);
}

#[test]
fn ranges_of_files() {
    let mut stream = three_files();
    let mut out = vec![0u8];
    assert_eq!(stream.read_range_onto(2, 3, &mut out), Ok(()));
    assert_eq!(out, vec![0, 3, 4, 5]);
    assert_eq!(stream.read_range_onto(2, 4, &mut out), Err(PatchError::UnexpectedEof));
    assert_eq!(stream.read_range_onto(6, 0, &mut out), Err(PatchError::SeekBeyondEnd));
}

#[test]
fn ranges_of_one_file() {
    let data = [1u8, 2, 3];
    let mut stream = ByteStream::new(&data);
    let mut out = Vec::new();
    assert_eq!(stream.read_range_onto(1, 2, &mut out), Ok(()));
    assert_eq!(out, vec![2, 3]);
    assert_eq!(stream.read_range_onto(7, 1, &mut out), Err(PatchError::UnexpectedEof));
    assert_eq!(stream.read_range_onto(7, 0, &mut out), Ok(()));
    assert_eq!(stream.read_range_onto(1 << 63, 0, &mut out), Err(PatchError::InvalidSeek));
}

#[test]
fn a_stream_of_no_files() {
    assert_eq!(CombinedStream::new(vec![]).err(), Some(PatchError::NoStreams));
    assert_eq!(CombinedStream::from_new_files(vec![]).err(), Some(PatchError::NoStreams));
}

#[test]
fn new_files_have_their_sizes() {
    let stream = CombinedStream::from_new_files(vec![
        NewFileCombinedStream { file: vec![], size: 2 },
        NewFileCombinedStream { file: vec![1, 2, 3], size: 1 },
    ])
    .unwrap();
    assert_eq!(stream.streams, vec![vec![0, 0], vec![1]]);
    assert_eq!(stream.length(), 3);
    let huge = CombinedStream::from_new_files(vec![NewFileCombinedStream {
        file: vec![],
        size: u64::MAX,
    }]);
    assert_eq!(huge.err(), Some(PatchError::Malformed));
}

#[test]
fn data_is_cut_into_new_files() {
    assert_eq!(
        write_new_files(&[1, 2, 3, 4], &vec![3, 0, 2]),
        Ok(vec![vec![1, 2, 3], vec![], vec![4, 0]])
    );
    assert_eq!(write_new_files(&[1, 2], &vec![1]), Err(PatchError::WriteZero));
    assert_eq!(write_new_files(&[], &vec![]), Err(PatchError::NoStreams));
}

#[test]
fn a_move_in_a_chunk_moves_the_stream_below() {
    let data = [0u8, 1, 2, 3, 4, 5];
    let mut chunk = ChunkStream::new(ByteStream::new(&data), 2, 5).unwrap();
    assert_eq!(chunk.inner.pos, 2);
    assert_eq!(chunk.seek(SeekFrom::End(-1)), Ok(2));
    assert_eq!(chunk.inner.pos, 4);
    assert_eq!(chunk.seek(SeekFrom::Start(4)), Err(PatchError::SeekBeyondEnd));
    assert_eq!((chunk.cur_pos, chunk.inner.pos), (2, 4));
    // A place that the stream below refuses.
    let mut chunk = ChunkStream::new(ByteStream::new(&data), 2, u64::MAX).unwrap();
    assert_eq!(chunk.seek(SeekFrom::Start(1 << 63)), Err(PatchError::InvalidSeek));
    assert_eq!((chunk.cur_pos, chunk.inner.pos), (1 << 63, 2));
}

#[test]
fn a_move_finds_the_file() {
    let mut stream = three_files();
    for (place, index) in [(0u64, 0usize), (2, 0), (3, 2), (4, 2), (5, 2), (1, 0)] {
        assert_eq!(stream.seek(SeekFrom::Start(place)), Ok(place));
        assert_eq!(stream.index, index);
    }
    stream.seek(SeekFrom::Start(4)).unwrap();
    assert_eq!(stream.seek(SeekFrom::Start(6)), Err(PatchError::SeekBeyondEnd));
    assert_eq!((stream.position, stream.index), (4, 2));
}
