//! Several files as one stream.
use crate::error::PatchError;
use crate::parser::CHUNK_LEN;
use crate::rle::min;
use crate::streams::{find_target, seek_target, SeekFrom, SeekableRead};
use vstd::prelude::*;
use vstd::slice::slice_subrange;

verus! {

/// The bytes of the first `n` files, one behind the other.
pub open spec fn joined(streams: Seq<Vec<u8>>, n: int) -> Seq<u8>
    decreases n,
{
    if n <= 0 {
        Seq::empty()
    } else {
        joined(streams, n - 1) + streams[n - 1]@
    }
}

/// `data` with `bytes` in place of what it holds from `pos` on.
pub open spec fn spliced(data: Seq<u8>, pos: int, bytes: Seq<u8>) -> Seq<u8> {
    data.take(pos) + bytes + data.skip(pos + bytes.len())
}

proof fn lemma_joined_prefix(streams: Seq<Vec<u8>>, i: int, n: int)
    requires
        0 <= i <= n <= streams.len(),
    ensures
        joined(streams, i).len() <= joined(streams, n).len(),
        joined(streams, n).take(joined(streams, i).len() as int) == joined(streams, i),
    decreases n,
{
    if i < n {
        lemma_joined_prefix(streams, i, n - 1);
        let shorter = joined(streams, n - 1);
        let k = joined(streams, i).len() as int;
        assert(joined(streams, n).take(k) =~= shorter.take(k));
    } else {
        assert(joined(streams, n).take(joined(streams, n).len() as int) =~= joined(streams, n));
    }
}

/// A file's bytes stand in the stream from where the files before it end.
pub proof fn law_file_in_joined(streams: Seq<Vec<u8>>, i: int)
    requires
        0 <= i < streams.len(),
    ensures
        ({
            let start = joined(streams, i).len() as int;
            let all = joined(streams, streams.len() as int);
            &&& start + streams[i]@.len() <= all.len()
            &&& all.subrange(start, start + streams[i]@.len()) == streams[i]@
        }),
{
    let all = joined(streams, streams.len() as int);
    let start = joined(streams, i).len() as int;
    let end = joined(streams, i + 1).len() as int;
    lemma_joined_prefix(streams, i + 1, streams.len() as int);
    lemma_joined_prefix(streams, i, i + 1);
    assert(all.subrange(start, end) =~= all.take(end).skip(start));
    assert(joined(streams, i + 1).skip(start) =~= streams[i]@);
}

/// With other bytes in one file, as many as before, the stream has these bytes
/// in the same place, and the files stand where they stood.
proof fn lemma_joined_update(streams: Seq<Vec<u8>>, i: int, file: Vec<u8>, n: int)
    requires
        0 <= i < streams.len(),
        0 <= n <= streams.len(),
        file@.len() == streams[i]@.len(),
    ensures
        n <= i ==> joined(streams.update(i, file), n) == joined(streams, n),
        n > i ==> joined(streams.update(i, file), n) == spliced(
            joined(streams, n),
            joined(streams, i).len() as int,
            file@,
        ) && joined(streams, i).len() + file@.len() <= joined(streams, n).len(),
        joined(streams.update(i, file), n).len() == joined(streams, n).len(),
    decreases n,
{
    if n > 0 {
        lemma_joined_update(streams, i, file, n - 1);
        let k = joined(streams, i).len() as int;
        if n - 1 == i {
            assert(joined(streams.update(i, file), n) =~= spliced(joined(streams, n), k, file@));
        } else if n - 1 > i {
            assert(spliced(joined(streams, n - 1), k, file@) + streams[n - 1]@ =~= spliced(
                joined(streams, n),
                k,
                file@,
            ));
        }
    }
}

/// Bytes put behind bytes that were just put in place.
proof fn lemma_spliced_twice(data: Seq<u8>, pos: int, first: Seq<u8>, second: Seq<u8>)
    requires
        0 <= pos,
        pos + first.len() + second.len() <= data.len(),
    ensures
        spliced(spliced(data, pos, first), pos + first.len(), second) == spliced(
            data,
            pos,
            first + second,
        ),
{
    assert(spliced(spliced(data, pos, first), pos + first.len(), second) =~= spliced(
        data,
        pos,
        first + second,
    ));
}

/// What is written to a place is read back from it.
pub proof fn law_read_back(data: Seq<u8>, pos: int, bytes: Seq<u8>)
    requires
        0 <= pos,
        pos + bytes.len() <= data.len(),
    ensures
        spliced(data, pos, bytes).len() == data.len(),
        spliced(data, pos, bytes).subrange(pos, pos + bytes.len()) == bytes,
        forall|i: int|
            0 <= i < data.len() && !(pos <= i < pos + bytes.len()) ==> #[trigger] spliced(
                data,
                pos,
                bytes,
            )[i] == data[i],
{
    assert(spliced(data, pos, bytes).subrange(pos, pos + bytes.len()) =~= bytes);
}

/// A new file and the size that it is to have.
pub struct NewFileCombinedStream {
    pub file: Vec<u8>,
    pub size: u64,
}

/// A file cut or filled up with zeros to this size.
pub open spec fn resized(file: Seq<u8>, size: int) -> Seq<u8> {
    if size <= file.len() {
        file.take(size)
    } else {
        file + Seq::new((size - file.len()) as nat, |i: int| 0u8)
    }
}

/// What the first `n` of some new files are to take up.
pub open spec fn sizes_total(new_streams: Seq<NewFileCombinedStream>, n: int) -> int
    decreases n,
{
    if n <= 0 {
        0
    } else {
        sizes_total(new_streams, n - 1) + new_streams[n - 1].size
    }
}

/// Whether each of some new files is one that memory can hold.
pub open spec fn sizes_held(new_streams: Seq<NewFileCombinedStream>) -> bool {
    forall|i: int| 0 <= i < new_streams.len() ==> (#[trigger] new_streams[i]).size <= isize::MAX
}

proof fn lemma_sizes_grow(new_streams: Seq<NewFileCombinedStream>, i: int, n: int)
    requires
        0 <= i <= n <= new_streams.len(),
    ensures
        0 <= sizes_total(new_streams, i) <= sizes_total(new_streams, n),
    decreases n,
{
    if i < n {
        lemma_sizes_grow(new_streams, i, n - 1);
    } else if n > 0 {
        lemma_sizes_grow(new_streams, n - 1, n - 1);
    }
}

/// Several files as one stream, read and written from `position` on.
pub struct CombinedStream {
    pub streams: Vec<Vec<u8>>,
    pub start_positions: Vec<u64>,
    pub position: u64,
    pub index: usize,
    pub total_length: u64,
}

/// Puts `bytes` into `file` from `at` on.
fn overwrite(file: &mut Vec<u8>, at: usize, bytes: &[u8])
    requires
        at + bytes@.len() <= old(file)@.len(),
    ensures
        final(file)@ == spliced(old(file)@, at as int, bytes@),
{
    let mut i: usize = 0;
    let ghost before = file@;
    let len = bytes.len();
    let file_len = file.len();
    while i < len
        invariant
            i <= len,
            len == bytes@.len(),
            file@.len() == file_len,
            before.len() == file_len,
            at + len <= file_len,
            forall|j: int|
                0 <= j < before.len() ==> #[trigger] file@[j] == if at <= j < at + i {
                    bytes@[j - at]
                } else {
                    before[j]
                },
        decreases len - i,
    {
        file.set(at + i, bytes[i]);
        i = i + 1;
    }
    assert(file@ =~= spliced(before, at as int, bytes@));
}

impl CombinedStream {
    /// Whether the places of the files are known, and the position is in or
    /// behind the file that `index` names.
    pub open spec fn valid(&self) -> bool {
        &&& self.streams@.len() > 0
        &&& self.start_positions@.len() == self.streams@.len()
        &&& forall|i: int|
            0 <= i < self.streams@.len() ==> #[trigger] self.start_positions@[i] == joined(
                self.streams@,
                i,
            ).len()
        &&& self.total_length == joined(self.streams@, self.streams@.len() as int).len()
        &&& self.index < self.streams@.len()
        &&& self.start_positions@[self.index as int] <= self.position <= self.total_length
    }

    /// Where the files start, and what they take up together, where this fits.
    fn places(streams: &Vec<Vec<u8>>) -> (r: Option<(Vec<u64>, u64)>)
        ensures
            match r {
                Some((starts, total)) => {
                    &&& starts@.len() == streams@.len()
                    &&& forall|i: int|
                        0 <= i < streams@.len() ==> #[trigger] starts@[i] == joined(
                            streams@,
                            i,
                        ).len()
                    &&& total == joined(streams@, streams@.len() as int).len()
                },
                None => joined(streams@, streams@.len() as int).len() > u64::MAX,
            },
    {
        let mut starts: Vec<u64> = Vec::new();
        let mut total: u64 = 0;
        let mut i: usize = 0;
        while i < streams.len()
            invariant
                i <= streams@.len(),
                starts@.len() == i,
                forall|j: int| 0 <= j < i ==> #[trigger] starts@[j] == joined(streams@, j).len(),
                total == joined(streams@, i as int).len(),
            decreases streams@.len() - i,
        {
            starts.push(total);
            let len = streams[i].len();
            proof {
                lemma_joined_prefix(streams@, i + 1, streams@.len() as int);
            }
            total =
            match total.checked_add(len as u64) {
                Some(sum) => sum,
                None => return None,
            };
            i = i + 1;
        }
        Some((starts, total))
    }

    /// The stream of some files, at its first byte.
    pub fn new(streams: Vec<Vec<u8>>) -> (r: Result<Self, PatchError>)
        ensures
            ({
                let total = joined(streams@, streams@.len() as int).len();
                match r {
                    Ok(stream) => {
                        &&& streams@.len() > 0 && total <= u64::MAX
                        &&& stream.valid()
                        &&& stream.streams@ == streams@
                        &&& stream.position == 0
                    },
                    Err(e) => if streams@.len() == 0 {
                        e == PatchError::NoStreams
                    } else {
                        e == PatchError::Malformed && total > u64::MAX
                    },
                }
            }),
    {
        if streams.len() == 0 {
            return Err(PatchError::NoStreams);
        }
        match Self::places(&streams) {
            None => Err(PatchError::Malformed),
            Some((start_positions, total_length)) => Ok(
                CombinedStream { streams, start_positions, position: 0, index: 0, total_length },
            ),
        }
    }

    /// The stream of some new files, each with the size that it is to have. A
    /// file that memory cannot hold is refused.
    pub fn from_new_files(new_streams: Vec<NewFileCombinedStream>) -> (r: Result<Self, PatchError>)
        ensures
            ({
                let count = new_streams@.len() as int;
                match r {
                    Ok(stream) => {
                        &&& count > 0 && sizes_held(new_streams@)
                        &&& sizes_total(new_streams@, count) <= u64::MAX
                        &&& stream.valid()
                        &&& stream.position == 0
                        &&& stream.total_length == sizes_total(new_streams@, count)
                        &&& stream.streams@.len() == count
                        &&& forall|i: int|
                            0 <= i < count ==> (#[trigger] stream.streams@[i])@ == resized(
                                new_streams@[i].file@,
                                new_streams@[i].size as int,
                            )
                    },
                    Err(e) => if count == 0 {
                        e == PatchError::NoStreams
                    } else {
                        &&& e == PatchError::Malformed
                        &&& !sizes_held(new_streams@) || sizes_total(new_streams@, count)
                            > u64::MAX
                    },
                }
            }),
    {
        if new_streams.len() == 0 {
            return Err(PatchError::NoStreams);
        }
        let ghost all = new_streams@;
        let mut rest = new_streams;
        let mut streams: Vec<Vec<u8>> = Vec::new();
        let mut total: u64 = 0;
        let count = rest.len();
        let mut i: usize = 0;
        while i < count
            invariant
                i <= count,
                count == all.len(),
                count > 0,
                all == new_streams@,
                rest@.len() == count,
                streams@.len() == i,
                forall|j: int| i <= j < count ==> #[trigger] rest@[j] == all[j],
                forall|j: int|
                    0 <= j < i ==> (#[trigger] all[j]).size <= isize::MAX && streams@[j]@
                        == resized(all[j].file@, all[j].size as int),
                total == sizes_total(all, i as int),
                total == joined(streams@, i as int).len(),
            decreases count - i,
        {
            let mut file: Vec<u8> = Vec::new();
            let size = rest[i].size;
            assert(rest@[i as int] == all[i as int]);
            if size > isize::MAX as u64 {
                return Err(PatchError::Malformed);
            }
            proof {
                lemma_sizes_grow(all, i + 1, count as int);
            }
            total =
            match total.checked_add(size) {
                Some(sum) => sum,
                None => return Err(PatchError::Malformed),
            };
            std::mem::swap(&mut rest[i].file, &mut file);
            let ghost given = file@;
            file.resize(size as usize, 0);
            assert(file@ =~= resized(given, size as int));
            let ghost earlier = streams@;
            streams.push(file);
            proof {
                lemma_joined_same(earlier, streams@, i as int);
            }
            i = i + 1;
        }
        match Self::places(&streams) {
            None => Err(PatchError::Malformed),
            Some((start_positions, total_length)) => Ok(
                CombinedStream { streams, start_positions, position: 0, index: 0, total_length },
            ),
        }
    }

    /// How many bytes the files hold together.
    pub fn length(&self) -> (r: u64)
        ensures
            r == self.total_length,
    {
        self.total_length
    }

    /// Where the stream stands.
    pub fn get_position(&self) -> (r: u64)
        ensures
            r == self.position,
    {
        self.position
    }
}

/// The bytes of the first files depend on no others.
proof fn lemma_joined_same(a: Seq<Vec<u8>>, b: Seq<Vec<u8>>, n: int)
    requires
        n <= a.len(),
        n <= b.len(),
        forall|i: int| 0 <= i < n ==> #[trigger] a[i] == b[i],
    ensures
        joined(a, n) == joined(b, n),
    decreases n,
{
    if n > 0 {
        lemma_joined_same(a, b, n - 1);
    }
}

impl CombinedStream {
    /// All bytes of the files, one behind the other.
    pub open spec fn bytes(&self) -> Seq<u8> {
        joined(self.streams@, self.streams@.len() as int)
    }

    /// How many of `len` bytes can be read or written before the end.
    pub open spec fn within_reach(&self, len: int) -> int {
        min(len, self.total_length - self.position)
    }

    /// The bytes to be read next.
    pub open spec fn next_bytes(&self, n: int) -> Seq<u8> {
        self.bytes().subrange(self.position as int, self.position + n)
    }

    /// Whether this has the same number of files as `other`, each of the size
    /// that it has there.
    pub open spec fn same_layout(&self, other: &Self) -> bool {
        &&& self.start_positions == other.start_positions
        &&& self.total_length == other.total_length
        &&& self.streams@.len() == other.streams@.len()
        &&& forall|i: int|
            0 <= i < self.streams@.len() ==> (#[trigger] self.streams@[i])@.len()
                == other.streams@[i]@.len()
    }

    /// Where a file ends: where the next one starts, or at the end of all.
    proof fn lemma_file_end(&self, i: int)
        requires
            self.valid(),
            0 <= i < self.streams@.len(),
        ensures
            self.start_positions@[i] + self.streams@[i]@.len() == joined(self.streams@, i + 1).len(),
            self.start_positions@[i] + self.streams@[i]@.len() <= self.total_length,
            i + 1 < self.streams@.len() ==> self.start_positions@[i + 1]
                == self.start_positions@[i] + self.streams@[i]@.len(),
            i + 1 == self.streams@.len() ==> self.total_length == self.start_positions@[i]
                + self.streams@[i]@.len(),
    {
        lemma_joined_prefix(self.streams@, i + 1, self.streams@.len() as int);
    }

    /// Whether the stream is in the file that holds its position, or in the last
    /// file where it stands behind all bytes.
    pub open spec fn in_place(&self) -> bool {
        if self.position == self.total_length {
            self.index == self.streams@.len() - 1
        } else {
            self.position < self.start_positions@[self.index as int]
                + self.streams@[self.index as int]@.len()
        }
    }

    /// Finds the file that the position is in.
    fn update_index(&mut self)
        requires
            old(self).streams@.len() > 0,
            old(self).position <= old(self).total_length,
            old(self).index < old(self).streams@.len(),
            (Self { position: 0, index: 0, ..*old(self) }).valid(),
        ensures
            final(self).valid(),
            final(self).in_place(),
            final(self).streams == old(self).streams,
            final(self).start_positions == old(self).start_positions,
            final(self).total_length == old(self).total_length,
            final(self).position == old(self).position,
    {
        let ghost start = Self { position: 0, index: 0, ..*self };
        if self.position == self.total_length {
            self.index = self.streams.len() - 1;
            proof {
                lemma_joined_prefix(
                    self.streams@,
                    self.index as int,
                    self.streams@.len() as int,
                );
            }
            return ;
        }
        while self.index > 0 && self.position < self.start_positions[self.index]
            invariant
                self.index < self.streams@.len(),
                start.valid(),
                start == (Self { position: 0, index: 0, ..*self }),
                self.position < self.total_length,
                self.streams == old(self).streams,
                self.start_positions == old(self).start_positions,
                self.total_length == old(self).total_length,
                self.position == old(self).position,
            decreases self.index,
        {
            self.index = self.index - 1;
        }
        let mut found = false;
        while !found && self.index < self.streams.len() - 1
            invariant
                self.valid(),
                self.position < self.total_length,
                found ==> self.in_place(),
                self.streams == old(self).streams,
                self.start_positions == old(self).start_positions,
                self.total_length == old(self).total_length,
                self.position == old(self).position,
            decreases self.streams@.len() - self.index, (if found {
                0int
            } else {
                1int
            }),
        {
            proof {
                self.lemma_file_end(self.index as int);
            }
            let cur_end: u64 = self.start_positions[self.index] + self.streams[self.index].len()
                as u64;
            if self.position >= cur_end {
                self.index = self.index + 1;
            } else {
                found = true;
            }
        }
        proof {
            self.lemma_file_end(self.index as int);
        }
    }

    /// Reads up to `max` bytes onto the end of `buffer`, and fewer only where
    /// the files end.
    pub fn read(&mut self, max: usize, buffer: &mut Vec<u8>) -> (r: usize)
        requires
            old(self).valid(),
        ensures
            final(self).valid(),
            final(self).streams == old(self).streams,
            final(self).start_positions == old(self).start_positions,
            final(self).total_length == old(self).total_length,
            r == old(self).within_reach(max as int),
            final(self).position == old(self).position + r,
            final(buffer)@ == old(buffer)@ + old(self).next_bytes(r as int),
    {
        let ghost all = self.bytes();
        let ghost from = self.position as int;
        let mut result: usize = 0;
        let mut remaining = max;
        let mut at_end = false;
        assert(buffer@ =~= old(buffer)@ + all.subrange(from, from));
        while remaining > 0 && !at_end
            invariant
                self.valid(),
                self.streams == old(self).streams,
                self.start_positions == old(self).start_positions,
                self.total_length == old(self).total_length,
                all == self.bytes(),
                from == old(self).position,
                result + remaining == max,
                self.position == from + result,
                buffer@ == old(buffer)@ + all.subrange(from, from + result),
                at_end ==> self.position == self.total_length,
            decreases remaining + (self.streams@.len() - self.index), (if at_end {
                0int
            } else {
                1int
            }),
        {
            proof {
                self.lemma_file_end(self.index as int);
            }
            let cur_len = self.streams[self.index].len();
            let pos_in_stream: u64 = self.position - self.start_positions[self.index];
            if pos_in_stream >= cur_len as u64 {
                if self.index < self.streams.len() - 1 {
                    self.index = self.index + 1;
                } else {
                    at_end = true;
                }
            } else {
                let at: usize = pos_in_stream as usize;
                let bytes_available: usize = cur_len - at;
                let to_read = if bytes_available < remaining {
                    bytes_available
                } else {
                    remaining
                };
                let chunk = slice_subrange(self.streams[self.index].as_slice(), at, at + to_read);
                let ghost before = buffer@;
                buffer.extend_from_slice(chunk);
                proof {
                    law_file_in_joined(self.streams@, self.index as int);
                    let file = self.streams@[self.index as int]@;
                    let start = self.start_positions@[self.index as int] as int;
                    assert(file == all.subrange(start, start + file.len()));
                    assert(chunk@ =~= all.subrange(from + result, from + result + to_read));
                    assert(buffer@ =~= before + chunk@);
                    assert(buffer@ =~= old(buffer)@ + all.subrange(from, from + result + to_read));
                }
                result = result + to_read;
                remaining = remaining - to_read;
                self.position = self.position + to_read as u64;
                if remaining > 0 && self.index < self.streams.len() - 1 {
                    self.index = self.index + 1;
                }
            }
        }
        result
    }

    /// Writes `buffer` over what the files hold, and less of it only where the
    /// files end. No file grows.
    pub fn write(&mut self, buffer: &[u8]) -> (r: usize)
        requires
            old(self).valid(),
        ensures
            final(self).valid(),
            final(self).same_layout(old(self)),
            r == old(self).within_reach(buffer@.len() as int),
            final(self).position == old(self).position + r,
            final(self).bytes() == spliced(
                old(self).bytes(),
                old(self).position as int,
                buffer@.take(r as int),
            ),
    {
        let ghost all = self.bytes();
        let ghost from = self.position as int;
        let mut total: usize = 0;
        let len = buffer.len();
        let mut remaining = len;
        let mut at_end = false;
        assert(self.bytes() =~= spliced(all, from, buffer@.take(0)));
        while remaining > 0 && !at_end
            invariant
                self.valid(),
                self.same_layout(old(self)),
                len == buffer@.len(),
                from == old(self).position,
                all == old(self).bytes(),
                all.len() == self.total_length,
                total + remaining == len,
                self.position == from + total,
                self.bytes() == spliced(all, from, buffer@.take(total as int)),
                at_end ==> self.position == self.total_length,
            decreases remaining + (self.streams@.len() - self.index), (if at_end {
                0int
            } else {
                1int
            }),
        {
            proof {
                self.lemma_file_end(self.index as int);
            }
            let cur_len = self.streams[self.index].len();
            let pos_in_stream: u64 = self.position - self.start_positions[self.index];
            if pos_in_stream >= cur_len as u64 {
                if self.index < self.streams.len() - 1 {
                    self.index = self.index + 1;
                } else {
                    at_end = true;
                }
            } else {
                let at: usize = pos_in_stream as usize;
                let capacity: usize = cur_len - at;
                let to_write = if capacity < remaining {
                    capacity
                } else {
                    remaining
                };
                let chunk = slice_subrange(buffer, total, total + to_write);
                self.put(at, chunk);
                proof {
                    lemma_spliced_twice(all, from, buffer@.take(total as int), chunk@);
                    assert(buffer@.take(total as int) + chunk@ =~= buffer@.take(total + to_write));
                }
                total = total + to_write;
                remaining = remaining - to_write;
                self.position = self.position + to_write as u64;
                if remaining > 0 && self.index < self.streams.len() - 1 {
                    proof {
                        self.lemma_file_end(self.index as int);
                    }
                    self.index = self.index + 1;
                }
            }
        }
        total
    }

    /// Puts `chunk` into the file that the stream is in, from `at` on.
    fn put(&mut self, at: usize, chunk: &[u8])
        requires
            old(self).valid(),
            old(self).position == old(self).start_positions@[old(self).index as int] + at,
            at + chunk@.len() <= old(self).streams@[old(self).index as int]@.len(),
        ensures
            final(self).valid(),
            final(self).same_layout(old(self)),
            final(self).index == old(self).index,
            final(self).position == old(self).position,
            final(self).bytes() == spliced(old(self).bytes(), old(self).position as int, chunk@),
    {
        let ghost files = self.streams@;
        let ghost i = self.index as int;
        let ghost all = self.bytes();
        let ghost start = joined(files, i).len() as int;
        proof {
            law_file_in_joined(files, i);
        }
        let index = self.index;
        overwrite(&mut self.streams[index], at, chunk);
        proof {
            let file = self.streams@[i];
            assert(self.streams@ =~= files.update(i, file));
            lemma_joined_update(files, i, file, files.len() as int);
            assert forall|j: int| 0 <= j < files.len() implies #[trigger] self.start_positions@[j]
                == joined(self.streams@, j).len() by {
                lemma_joined_update(files, i, file, j);
            }
            assert(files[i]@ == all.subrange(start, start + files[i]@.len()));
            assert(self.bytes() =~= spliced(all, start + at, chunk@));
        }
    }

    /// Writing ends with the write itself: nothing is held back.
    pub fn flush(&mut self)
        ensures
            *final(self) == *old(self),
    {
    }

    /// Moves to another place in the files, or just behind them.
    pub fn seek(&mut self, origin: SeekFrom) -> (r: Result<u64, PatchError>)
        requires
            old(self).valid(),
        ensures
            final(self).valid(),
            final(self).streams == old(self).streams,
            final(self).start_positions == old(self).start_positions,
            final(self).total_length == old(self).total_length,
            r == seek_target(origin, old(self).position as int, old(self).total_length as int),
            match r {
                Ok(position) => final(self).position == position && final(self).in_place(),
                Err(_) => {
                    &&& final(self).position == old(self).position
                    &&& final(self).index == old(self).index
                },
            },
    {
        let new_pos = find_target(origin, self.position, self.total_length)?;
        self.position = new_pos;
        self.update_index();
        Ok(self.position)
    }
}

impl SeekableRead for CombinedStream {
    open spec fn contents(&self) -> Seq<u8> {
        self.bytes()
    }

    open spec fn last_position(&self) -> int {
        self.total_length as int
    }

    open spec fn refusal(&self) -> PatchError {
        PatchError::SeekBeyondEnd
    }

    open spec fn well_formed(&self) -> bool {
        self.valid()
    }

    proof fn lemma_contents_len(&self) {
    }

    fn read_range_onto(&mut self, pos: u64, len: u64, out: &mut Vec<u8>) -> (r: Result<
        (),
        PatchError,
    >) {
        self.seek(SeekFrom::Start(pos))?;
        if len > self.total_length - self.position {
            return Err(PatchError::UnexpectedEof);
        }
        let ghost all = self.bytes();
        let mut left: u64 = len;
        assert(out@ =~= old(out)@ + all.subrange(pos as int, pos as int));
        while left > 0
            invariant
                self.valid(),
                self.contents() == old(self).contents(),
                self.last_position() == old(self).last_position(),
                all == self.bytes(),
                left <= len,
                self.position == pos + (len - left),
                pos + len <= self.total_length,
                out@ == old(out)@ + all.subrange(pos as int, pos + (len - left)),
            decreases left,
        {
            let want: u64 = if left < CHUNK_LEN {
                left
            } else {
                CHUNK_LEN
            };
            let ghost from = self.position as int;
            let n = self.read(want as usize, out);
            assert(out@ =~= old(out)@ + all.subrange(pos as int, from + n));
            left = left - n as u64;
        }
        assert(all.subrange(pos as int, pos as int) =~= Seq::empty());
        Ok(())
    }
}

/// The sum of the first `n` of some sizes.
pub open spec fn sum_of(sizes: Seq<u64>, n: int) -> int
    decreases n,
{
    if n <= 0 {
        0
    } else {
        sum_of(sizes, n - 1) + sizes[n - 1]
    }
}

/// Some bytes, filled up with zeros as far as the files reach, and cut into files of
/// these sizes.
pub open spec fn cut_up(data: Seq<u8>, sizes: Seq<u64>) -> Seq<Seq<u8>> {
    let filled = resized(data, sum_of(sizes, sizes.len() as int));
    Seq::new(
        sizes.len(),
        |i: int| filled.subrange(sum_of(sizes, i), sum_of(sizes, i + 1)),
    )
}

/// Whether memory can hold files of these sizes, and a number all of them.
pub open spec fn sizes_fit(sizes: Seq<u64>) -> bool {
    &&& sum_of(sizes, sizes.len() as int) <= u64::MAX
    &&& forall|i: int| 0 <= i < sizes.len() ==> #[trigger] sizes[i] <= isize::MAX
}

/// New files of these sizes that hold `data`, one behind the other. There are
/// none where no size is given, where memory cannot hold them and where they do
/// not hold all of `data`.
pub open spec fn new_files_of(data: Seq<u8>, sizes: Seq<u64>) -> Result<Seq<Seq<u8>>, PatchError> {
    if sizes.len() == 0 {
        Err(PatchError::NoStreams)
    } else if !sizes_fit(sizes) {
        Err(PatchError::Malformed)
    } else if data.len() > sum_of(sizes, sizes.len() as int) {
        Err(PatchError::WriteZero)
    } else {
        Ok(cut_up(data, sizes))
    }
}

/// What files of these sizes take up, where memory can hold them.
pub fn capacity_of(sizes: &Vec<u64>) -> (r: Option<u64>)
    ensures
        match r {
            Some(total) => sizes_fit(sizes@) && total == sum_of(sizes@, sizes@.len() as int),
            None => !sizes_fit(sizes@),
        },
{
    let mut total: u64 = 0;
    let mut i: usize = 0;
    while i < sizes.len()
        invariant
            i <= sizes@.len(),
            total == sum_of(sizes@, i as int),
            forall|j: int| 0 <= j < i ==> #[trigger] sizes@[j] <= isize::MAX,
        decreases sizes@.len() - i,
    {
        proof {
            lemma_sum_grows(sizes@, i + 1, sizes@.len() as int);
        }
        if sizes[i] > isize::MAX as u64 {
            return None;
        }
        match total.checked_add(sizes[i]) {
            Some(sum) => {
                total = sum;
            },
            None => return None,
        }
        i = i + 1;
    }
    Some(total)
}

proof fn lemma_sum_grows(sizes: Seq<u64>, i: int, n: int)
    requires
        0 <= i <= n,
    ensures
        0 <= sum_of(sizes, i) <= sum_of(sizes, n),
    decreases n,
{
    if i < n {
        lemma_sum_grows(sizes, i, n - 1);
    } else if n > 0 {
        lemma_sum_grows(sizes, n - 1, n - 1);
    }
}

/// Put together again, the files are the bytes that they were cut from.
pub proof fn law_cut_up_joined(data: Seq<u8>, sizes: Seq<u64>, files: Seq<Vec<u8>>)
    requires
        data.len() <= sum_of(sizes, sizes.len() as int),
        files.len() == sizes.len(),
        forall|i: int|
            0 <= i < files.len() ==> (#[trigger] files[i])@ == cut_up(data, sizes)[i],
    ensures
        joined(files, files.len() as int) == resized(data, sum_of(sizes, sizes.len() as int)),
{
    lemma_cut_up_joined(data, sizes, files, files.len() as int);
    let filled = resized(data, sum_of(sizes, sizes.len() as int));
    assert(filled.take(filled.len() as int) =~= filled);
}

proof fn lemma_cut_up_joined(data: Seq<u8>, sizes: Seq<u64>, files: Seq<Vec<u8>>, n: int)
    requires
        0 <= n <= files.len(),
        data.len() <= sum_of(sizes, sizes.len() as int),
        files.len() == sizes.len(),
        forall|i: int|
            0 <= i < files.len() ==> (#[trigger] files[i])@ == cut_up(data, sizes)[i],
    ensures
        joined(files, n) == resized(data, sum_of(sizes, sizes.len() as int)).take(
            sum_of(sizes, n),
        ),
    decreases n,
{
    let filled = resized(data, sum_of(sizes, sizes.len() as int));
    lemma_sum_grows(sizes, n, sizes.len() as int);
    if n > 0 {
        lemma_cut_up_joined(data, sizes, files, n - 1);
        lemma_sum_grows(sizes, n - 1, n);
        assert(files[n - 1]@ == filled.subrange(sum_of(sizes, n - 1), sum_of(sizes, n)));
        assert(joined(files, n) =~= filled.take(sum_of(sizes, n)));
    } else {
        assert(joined(files, n) =~= filled.take(0));
    }
}

proof fn lemma_totals_agree(new_streams: Seq<NewFileCombinedStream>, sizes: Seq<u64>, n: int)
    requires
        0 <= n <= sizes.len(),
        new_streams.len() == sizes.len(),
        forall|i: int| 0 <= i < sizes.len() ==> (#[trigger] new_streams[i]).size == sizes[i],
    ensures
        sizes_total(new_streams, n) == sum_of(sizes, n),
    decreases n,
{
    if n > 0 {
        lemma_totals_agree(new_streams, sizes, n - 1);
    }
}

proof fn lemma_joined_sizes(files: Seq<Vec<u8>>, sizes: Seq<u64>, n: int)
    requires
        0 <= n <= files.len(),
        files.len() == sizes.len(),
        forall|i: int| 0 <= i < sizes.len() ==> (#[trigger] files[i])@.len() == sizes[i],
    ensures
        joined(files, n).len() == sum_of(sizes, n),
    decreases n,
{
    if n > 0 {
        lemma_joined_sizes(files, sizes, n - 1);
    }
}

/// Where all files hold only zeros, so does the stream of them.
proof fn lemma_joined_zeros(files: Seq<Vec<u8>>, n: int)
    requires
        0 <= n <= files.len(),
        forall|i: int, j: int|
            0 <= i < files.len() && 0 <= j < files[i]@.len() ==> #[trigger] files[i]@[j] == 0,
    ensures
        forall|j: int| 0 <= j < joined(files, n).len() ==> #[trigger] joined(files, n)[j] == 0,
    decreases n,
{
    if n > 0 {
        lemma_joined_zeros(files, n - 1);
        assert forall|j: int| 0 <= j < joined(files, n).len() implies #[trigger] joined(
            files,
            n,
        )[j] == 0 by {
            let k = joined(files, n - 1).len();
            if j >= k {
                assert(files[n - 1]@[j - k] == 0);
            } else {
                assert(joined(files, n - 1)[j] == 0);
            }
        }
    }
}

/// Makes new files of these sizes that hold `data`, one behind the other.
pub fn write_new_files(data: &[u8], sizes: &Vec<u64>) -> (r: Result<Vec<Vec<u8>>, PatchError>)
    ensures
        match r {
            Ok(files) => {
                &&& new_files_of(data@, sizes@) is Ok
                &&& files.deep_view() == (new_files_of(data@, sizes@)->Ok_0)
            },
            Err(e) => new_files_of(data@, sizes@) == Err::<Seq<Seq<u8>>, PatchError>(e),
        },
{
    let mut new_streams: Vec<NewFileCombinedStream> = Vec::new();
    let mut i: usize = 0;
    while i < sizes.len()
        invariant
            i <= sizes@.len(),
            new_streams@.len() == i,
            forall|j: int|
                0 <= j < i ==> (#[trigger] new_streams@[j]).size == sizes@[j]
                    && new_streams@[j].file@ == Seq::<u8>::empty(),
        decreases sizes@.len() - i,
    {
        new_streams.push(NewFileCombinedStream { file: Vec::new(), size: sizes[i] });
        i = i + 1;
    }
    let ghost given = new_streams@;
    let ghost count = sizes@.len() as int;
    proof {
        lemma_totals_agree(given, sizes@, count);
        if !sizes_held(given) {
            let i = choose|i: int| 0 <= i < given.len() && (#[trigger] given[i]).size > isize::MAX;
            assert(sizes@[i] > isize::MAX);
        } else {
            assert forall|i: int| 0 <= i < count implies #[trigger] sizes@[i] <= isize::MAX by {
                assert(given[i].size <= isize::MAX);
            }
        }
    }
    let mut stream = CombinedStream::from_new_files(new_streams)?;
    let ghost zeros = stream.streams@;
    proof {
        assert forall|i: int, j: int|
            0 <= i < zeros.len() && 0 <= j < zeros[i]@.len() implies #[trigger] zeros[i]@[j]
            == 0 by {
            assert(zeros[i]@ == resized(given[i].file@, given[i].size as int));
        }
        assert forall|i: int| 0 <= i < count implies (#[trigger] zeros[i])@.len() == sizes@[i] by {
            assert(zeros[i]@ == resized(given[i].file@, given[i].size as int));
        }
        lemma_joined_zeros(zeros, count);
    }
    let n = stream.write(data);
    if n < data.len() {
        return Err(PatchError::WriteZero);
    }
    let files = stream.streams;
    proof {
        let want = cut_up(data@, sizes@);
        let filled = resized(data@, sum_of(sizes@, count));
        assert(data@.take(n as int) =~= data@);
        assert(joined(files@, count) =~= filled);
        assert forall|i: int| 0 <= i < count implies (#[trigger] files@[i])@ == want[i] by {
            law_file_in_joined(files@, i);
            lemma_joined_sizes(files@, sizes@, i);
            lemma_joined_sizes(files@, sizes@, i + 1);
        }
        assert(files.deep_view() =~= want) by {
            assert forall|i: int| 0 <= i < count implies #[trigger] files.deep_view()[i]
                == want[i] by {
                assert(files@[i].deep_view() =~= files@[i]@);
            }
        }
    }
    Ok(files)
}

/// New files of these sizes that hold `data`, one behind the other.
pub fn cut_files(data: &[u8], sizes: &Vec<u64>) -> (r: Vec<Vec<u8>>)
    requires
        sizes_fit(sizes@),
        data@.len() <= sum_of(sizes@, sizes@.len() as int),
    ensures
        r.deep_view() == cut_up(data@, sizes@),
{
    if sizes.len() == 0 {
        let files: Vec<Vec<u8>> = Vec::new();
        assert(files.deep_view() =~= cut_up(data@, sizes@));
        return files;
    }
    match write_new_files(data, sizes) {
        Ok(files) => files,
        Err(_) => Vec::new(),
    }
}

} // verus!
