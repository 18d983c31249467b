//! The laws on files that are read and written as one stream, and on places in streams.
use crate::combined::{cut_up, joined, new_files_of, resized, sizes_fit, sum_of, CombinedStream};
use crate::error::PatchError;
use crate::parser::{bytes_from, bytes_of, ByteSource};
use crate::streams::{bytes_between, range_of, seek_target, ChunkStream, SeekFrom};
use vstd::prelude::*;

verus! {

/// The bytes of files, one file behind the other.
pub open spec fn all_of(files: Seq<Seq<u8>>) -> Seq<u8>
    decreases files.len(),
{
    if files.len() == 0 {
        Seq::empty()
    } else {
        all_of(files.drop_last()) + files[files.len() - 1]
    }
}

/// The stream of files holds their bytes, one file behind the other.
pub proof fn law_joined(streams: Seq<Vec<u8>>, n: int)
    requires
        0 <= n <= streams.len(),
    ensures
        joined(streams, n) == all_of(Seq::new(n as nat, |i: int| streams[i]@)),
    decreases n,
{
    let files = Seq::new(n as nat, |i: int| streams[i]@);
    if n > 0 {
        law_joined(streams, n - 1);
        assert(files.drop_last() =~= Seq::new((n - 1) as nat, |i: int| streams[i]@));
    }
}

/// Whether sizes are those of files.
pub open spec fn are_sizes(sizes: Seq<u64>, files: Seq<Seq<u8>>) -> bool {
    &&& sizes.len() == files.len()
    &&& forall|i: int| 0 <= i < files.len() ==> #[trigger] sizes[i] == files[i].len()
}

/// The first files take up the sum of the first sizes.
proof fn lemma_sum_of(sizes: Seq<u64>, files: Seq<Seq<u8>>, n: int)
    requires
        are_sizes(sizes, files),
        0 <= n <= files.len(),
    ensures
        sum_of(sizes, n) == all_of(files.take(n)).len(),
        all_of(files.take(n)).len() <= all_of(files).len(),
        all_of(files).take(all_of(files.take(n)).len() as int) == all_of(files.take(n)),
    decreases files.len() - n, n,
{
    if n > 0 {
        lemma_sum(sizes, files, n);
    }
    lemma_front(files, n);
}

proof fn lemma_sum(sizes: Seq<u64>, files: Seq<Seq<u8>>, n: int)
    requires
        are_sizes(sizes, files),
        0 <= n <= files.len(),
    ensures
        sum_of(sizes, n) == all_of(files.take(n)).len(),
    decreases n,
{
    if n > 0 {
        lemma_sum(sizes, files, n - 1);
        assert(files.take(n).drop_last() =~= files.take(n - 1));
        assert(sizes[n - 1] == files[n - 1].len());
    }
}

proof fn lemma_front(files: Seq<Seq<u8>>, n: int)
    requires
        0 <= n <= files.len(),
    ensures
        all_of(files.take(n)).len() <= all_of(files).len(),
        all_of(files).take(all_of(files.take(n)).len() as int) == all_of(files.take(n)),
    decreases files.len(),
{
    let front = all_of(files.take(n));
    if n == files.len() {
        assert(files.take(n) =~= files);
        assert(all_of(files).take(front.len() as int) =~= front);
    } else {
        let fewer = files.drop_last();
        lemma_front(fewer, n);
        assert(fewer.take(n) =~= files.take(n));
        assert(all_of(files).take(front.len() as int) =~= all_of(fewer).take(front.len() as int));
    }
}

/// Cutting undoes putting together: the bytes of files, cut up by their sizes, are the files
/// again.
pub proof fn law_cut_up_again(files: Seq<Seq<u8>>, sizes: Seq<u64>)
    requires
        are_sizes(sizes, files),
    ensures
        cut_up(all_of(files), sizes) == files,
        files.len() > 0 && sizes_fit(sizes) ==> new_files_of(all_of(files), sizes) == Ok::<
            Seq<Seq<u8>>,
            PatchError,
        >(files),
        sum_of(sizes, sizes.len() as int) == all_of(files).len(),
{
    let all = all_of(files);
    let n = files.len() as int;
    lemma_sum_of(sizes, files, n);
    assert(files.take(n) =~= files);
    assert(resized(all, all.len() as int) =~= all);
    assert forall|i: int| 0 <= i < n implies #[trigger] cut_up(all, sizes)[i] =~= files[i] by {
        lemma_sum_of(sizes, files, i);
        lemma_sum_of(sizes, files, i + 1);
        let (start, end) = (sum_of(sizes, i), sum_of(sizes, i + 1));
        assert(files.take(i + 1).drop_last() =~= files.take(i));
        assert(all.take(end) == all_of(files.take(i)) + files[i]);
        assert(all.subrange(start, end) =~= all.take(end).skip(start));
        assert(all.take(end).skip(start) =~= files[i]);
    }
    assert(cut_up(all, sizes) =~= files);
}

/// A file of another size keeps its bytes as far as it reaches, and holds zeros behind them.
pub proof fn law_resized(file: Seq<u8>, size: int)
    requires
        0 <= size,
    ensures
        resized(file, size).len() == size,
        forall|i: int|
            0 <= i < size ==> #[trigger] resized(file, size)[i] == if i < file.len() {
                file[i]
            } else {
                0u8
            },
{
}

/// Files are refused where there are none, where a number or memory cannot hold them, and
/// where they cannot hold the data, and for nothing else.
pub proof fn law_new_files_refused(data: Seq<u8>, sizes: Seq<u64>)
    ensures
        match new_files_of(data, sizes) {
            Ok(files) => {
                &&& sizes.len() > 0
                &&& sizes_fit(sizes)
                &&& data.len() <= sum_of(sizes, sizes.len() as int)
                &&& files.len() == sizes.len()
            },
            Err(e) => {
                ||| e == PatchError::NoStreams && sizes.len() == 0
                ||| e == PatchError::Malformed && sizes.len() > 0 && !sizes_fit(sizes)
                ||| e == PatchError::WriteZero && sizes.len() > 0 && sizes_fit(sizes) && data.len()
                    > sum_of(sizes, sizes.len() as int)
            },
        },
{
}

/// A move leads to the place that lies so far from where it is counted from: the start, the
/// place before the move, or the end. It is refused where that is before the start or behind
/// the end.
pub proof fn law_seek(from: SeekFrom, position: int, size: int)
    requires
        0 <= position <= size <= i64::MAX,
    ensures
        ({
            let target = match from {
                SeekFrom::Start(offset) => offset as int,
                SeekFrom::Current(offset) => position + offset,
                SeekFrom::End(offset) => size + offset,
            };
            match seek_target(from, position, size) {
                Ok(place) => place == target && 0 <= target <= size,
                Err(e) => {
                    ||| e == PatchError::SeekBeforeStart && target < 0
                    ||| e == PatchError::SeekBeyondEnd && target > size
                    ||| e == PatchError::Malformed && target > i64::MAX
                },
            }
        }),
{
}

/// The bytes between two places are those at the places from the first on, up to the second
/// or the end.
pub proof fn law_bytes_between(data: Seq<u8>, pos: int, end: int)
    requires
        0 <= pos,
    ensures
        ({
            let bytes = bytes_between(data, pos, end);
            &&& forall|i: int| 0 <= i < bytes.len() ==> #[trigger] bytes[i] == data[pos + i]
            &&& pos <= end <= data.len() ==> pos + bytes.len() == end
            &&& pos <= data.len() < end ==> pos + bytes.len() == data.len()
            &&& bytes.len() > 0 ==> pos + bytes.len() <= end && pos + bytes.len() <= data.len()
        }),
{
}

/// A range of old data is had just where it lies in the data, and is what stands there. One
/// of no bytes is had wherever the data can be moved to.
pub proof fn law_range(
    front: Seq<u8>,
    bytes: Seq<u8>,
    rest: Seq<u8>,
    last_position: int,
    refusal: PatchError,
    more: int,
)
    requires
        front.len() + bytes.len() + rest.len() <= last_position,
        0 < more,
    ensures
        ({
            let data = front + bytes + rest;
            let pos = front.len() as int;
            &&& range_of(data, last_position, refusal, pos, bytes.len() as int) == Ok::<
                Seq<u8>,
                PatchError,
            >(bytes)
            &&& range_of(data, last_position, refusal, pos, data.len() - pos + more) == Err::<
                Seq<u8>,
                PatchError,
            >(PatchError::UnexpectedEof)
            &&& range_of(data, last_position, refusal, last_position, 0) == Ok::<
                Seq<u8>,
                PatchError,
            >(Seq::empty())
            &&& range_of(data, last_position, refusal, last_position + more, 0) == Err::<
                Seq<u8>,
                PatchError,
            >(refusal)
        }),
{
    let data = front + bytes + rest;
    assert(data.subrange(front.len() as int, (front.len() + bytes.len()) as int) =~= bytes);
    if bytes.len() == 0 {
        assert(bytes =~= Seq::<u8>::empty());
    }
}

/// Bytes that stand at the front are read, and those behind them are left. More than there are
/// cannot be read.
pub proof fn law_bytes_read(bytes: Seq<u8>, rest: Seq<u8>, more: int)
    requires
        0 < more,
    ensures
        bytes_of(bytes + rest, bytes.len() as int) == Ok::<(Seq<u8>, Seq<u8>), PatchError>(
            (bytes, rest),
        ),
        bytes_of(bytes, bytes.len() + more) == Err::<(Seq<u8>, Seq<u8>), PatchError>(
            PatchError::UnexpectedEof,
        ),
        bytes_from(bytes + rest, bytes.len() as int) == rest,
        bytes_from(bytes, bytes.len() + more) == Seq::<u8>::empty(),
{
    assert((bytes + rest).take(bytes.len() as int) =~= bytes);
    assert((bytes + rest).skip(bytes.len() as int) =~= rest);
}

/// Of the bytes asked for as many can be read or written as there are before the end, and
/// these are the bytes that stand at the place of the stream.
pub proof fn law_within_reach(stream: &CombinedStream, n: int)
    requires
        stream.valid(),
        0 <= n,
    ensures
        ({
            let reach = stream.within_reach(n);
            &&& 0 <= reach <= n
            &&& stream.position + reach <= stream.bytes().len()
            &&& reach < n ==> stream.position + reach == stream.bytes().len()
            &&& stream.next_bytes(reach).len() == reach
            &&& forall|i: int|
                0 <= i < reach ==> #[trigger] stream.next_bytes(reach)[i]
                    == stream.bytes()[stream.position + i]
        }),
{
}

/// A chunk gives the bytes of the stream below from its own place on, up to its end or that
/// of the stream.
pub proof fn law_chunk_rest(chunk: &ChunkStream)
    ensures
        forall|i: int|
            0 <= i < chunk.rest().len() ==> #[trigger] chunk.rest()[i]
                == chunk.inner.data@[chunk.start + chunk.cur_pos + i],
        chunk.rest().len() <= chunk.spec_remain(),
        chunk.end <= chunk.inner.data@.len() ==> chunk.rest().len() == chunk.spec_remain(),
        chunk.start <= chunk.end && chunk.cur_pos <= chunk.end - chunk.start ==> chunk.cur_pos
            + chunk.spec_remain() == chunk.end - chunk.start,
        chunk.start + chunk.cur_pos >= chunk.end ==> chunk.spec_remain() == 0,
{
}

} // verus!
